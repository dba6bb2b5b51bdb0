# aether_vm

Parts of the runtime of the AETHER language, written in Verus: every function in `src/`
carries a contract that Verus proves.

What is here, and what is not: the bytecode interpreter is present as its step and a bounded
run of steps over call frames (stack, locals, globals, integer arithmetic with its checked
division, remainder and power, text operations, jumps, building lists, tuples and maps with
text keys, indexing of lists, tuples and sets, `Call` of a function value with as many
arguments as it has parameters, `Return` to the calling frame or out of the run); it hands
other calls, closures, exceptions, floats and the other container instructions to its
caller. The compiler is present for expressions (calls with positional arguments among
them), for the statements `let`, assignment, `global`, `pass`, `return`, `while`, `for`,
`break` and `continue`, and for whole programs made of them. For integer and boolean
expressions, a proof shows that the compiled code, run by the interpreter, leaves the
expression's value on the stack. The standard library's string functions (`split`, `join`,
`replace`, `trim`, case, search), `len`, `keys` and `range` are here, and so is the reading
of a comma-separated table into its header and columns. Symbolic execution covers
expressions, comparisons and straight-line function bodies; the report that checks `ensure`
clauses is not here. `if` statements, function definitions, classes, closures, exceptions,
modules, fibers and channels are neither compiled nor run by this crate, and there is no
source parser: a program is given as the library's syntax tree.

## Layout

- `src/` — the verified library, one module per subsystem:
  - `text`, `strmap`, `strsort`, `value` — strings, an insertion-ordered string map, string
    ordering and the VM's value model;
  - `sha256`, `sha1`, `md5`, `base64`, `crypto` — digests, HMAC, hex and base64 coding,
    the WebSocket accept key;
  - `bytecode`, `compiler`, `expr_compiler`, `interpreter`, `builtins`, `globals`,
    `hotreload` — chunks and jumps, local scopes and loops, the expression and statement
    compiler, the interpreter's step and run, `range`, `len` and `keys`, class and method lookup, the merge of freshly compiled code
    into live globals;
  - `semantics` — what compiled expressions compute when they run;
  - `strings`, `csv` — the string functions of the standard library and the reading of
    comma-separated tables;
  - `symbolic`, `prover` — symbolic expressions, constraints and the bounded model search,
    and the symbolic walk of a function body;
  - `timetravel`, `timetravel_tui`, `flow`, `aggregate`, `actor`, `fiber` — step recording
    and rewinding, stream windows and their aggregates, actors, and the work-stealing queues
    of the fiber scheduler;
  - `rpc`, `net`, `http` — the binary packing format, length-prefixed frames,
    WebSocket frames, URLs and HTTP heads;
  - `sql`, `sqlquery` — the SQL tokenizer and recursive-descent query parser;
  - `graph`, `dataframe`, `colstats`, `relational`, `tensor`, `shapes`, `compute` —
    property graphs with BFS/DFS, typed columns and data frames, column totals and
    extremes, join and group-by row matching, dense tensor shapes, strides and
    transposition, compute buffers and work chunking.
- `tests/` — tests of the library on concrete values.
- `app/` — what Verus does not check: locked registries, worker threads, socket and
  terminal I/O, the interpreter loop with the float instructions, and the other
  floating-point routines.
