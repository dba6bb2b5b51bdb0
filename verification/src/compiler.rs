//! The bytecode compiler's state: the function being built, local variable slots and scopes,
//! and the emission of instructions, jumps and loops.
use vstd::prelude::*;
use crate::bytecode::{op_byte, u16_be, u16_bytes, Chunk, OpCode, Span, lemma_u16_roundtrip};
use crate::text::string_of;
use crate::value::Value;

verus! {

/// A compiled function: its name, parameters and code.
pub struct CompiledFunction {
    pub name: String,
    pub arity: usize,
    pub max_arity: usize,
    pub param_names: Vec<String>,
    pub has_varargs: bool,
    pub varargs_param: Option<String>,
    pub has_kwargs: bool,
    pub kwargs_param: Option<String>,
    pub chunk: Chunk,
}

impl CompiledFunction {
    /// A function with the given name and arity, no parameter names and an empty chunk.
    pub fn new(name: &str, arity: usize) -> (f: Self)
        ensures
            f.name@ == name@,
            f.arity == arity,
            f.max_arity == arity,
            f.param_names@.len() == 0,
            !f.has_varargs,
            f.varargs_param is None,
            !f.has_kwargs,
            f.kwargs_param is None,
            f.chunk.wf(),
            f.chunk.code@.len() == 0,
            f.chunk.constants@.len() == 0,
    {
        CompiledFunction {
            name: string_of(name),
            arity,
            max_arity: arity,
            param_names: Vec::new(),
            has_varargs: false,
            varargs_param: None,
            has_kwargs: false,
            kwargs_param: None,
            chunk: Chunk::new(),
        }
    }
}

/// A local variable slot.
pub struct Local {
    pub name: String,
    pub depth: usize,
    pub is_captured: bool,
}

/// The jumps of an enclosing loop that `break` and `continue` still have to patch.
pub struct LoopContext {
    pub break_jumps: Vec<usize>,
    pub continue_jumps: Vec<usize>,
    pub local_count: usize,
}

/// Compiles one function: the chunk being written, the local slots in scope, and what the
/// function captures from its parent.
pub struct BytecodeCompiler {
    pub function: CompiledFunction,
    pub locals: Vec<Local>,
    pub scope_depth: usize,
    pub parent_locals: Option<Vec<Local>>,
    pub captured: Vec<String>,
    pub loop_stack: Vec<LoopContext>,
    pub global_vars: Vec<String>,
    pub current_class_name: Option<String>,
}

/// The number of locals that stay when a scope at depth `d` ends: the trailing locals deeper
/// than `d` go.
pub open spec fn locals_kept(ls: Seq<Local>, d: usize) -> nat
    decreases ls.len(),
{
    if ls.len() == 0 {
        0
    } else if ls.last().depth > d {
        locals_kept(ls.drop_last(), d)
    } else {
        ls.len()
    }
}

/// `n` Pop instructions.
pub open spec fn pops(n: nat) -> Seq<u8> {
    Seq::new(n, |i: int| op_byte(OpCode::Pop))
}

/// Whether the parent function has a local of this (non-empty) name.
pub open spec fn in_parent(parent: Option<Vec<Local>>, name: Seq<char>) -> bool {
    match parent {
        Some(ls) => exists|j: int| 0 <= j < ls@.len() && #[trigger] ls@[j].name@ == name && name.len() > 0,
        None => false,
    }
}

/// The parts of the compiler that opening and closing scopes leave alone.
pub open spec fn same_scope_frame(a: &BytecodeCompiler, b: &BytecodeCompiler) -> bool {
    &&& a.captured@ == b.captured@
    &&& a.loop_stack@ == b.loop_stack@
    &&& a.function.chunk.constants@ == b.function.chunk.constants@
    &&& a.function.name@ == b.function.name@
    &&& a.function.arity == b.function.arity
    &&& a.global_vars@ == b.global_vars@
    &&& a.parent_locals == b.parent_locals
}

/// The parts of the compiler that only the chunk's code changes leave alone.
pub open spec fn same_but_code(a: &BytecodeCompiler, b: &BytecodeCompiler) -> bool {
    &&& a.locals@ == b.locals@
    &&& a.scope_depth == b.scope_depth
    &&& a.captured@ == b.captured@
    &&& a.function.chunk.constants@ == b.function.chunk.constants@
    &&& a.function.name@ == b.function.name@
    &&& a.function.arity == b.function.arity
    &&& a.global_vars@ == b.global_vars@
    &&& a.parent_locals == b.parent_locals
    &&& a.loop_stack@ == b.loop_stack@
}

impl BytecodeCompiler {
    /// Each byte of code has its span.
    pub open spec fn wf(&self) -> bool {
        self.function.chunk.wf()
    }

    pub open spec fn code(&self) -> Seq<u8> {
        self.function.chunk.code@
    }

    /// A compiler for a function of the given name and arity; slot 0 is reserved.
    pub fn new(name: &str, arity: usize) -> (c: Self)
        ensures
            c.wf(),
            c.function.name@ == name@,
            c.function.arity == arity,
            c.code().len() == 0,
            c.locals@.len() == 1,
            c.locals@[0].name@.len() == 0,
            c.locals@[0].depth == 0,
            !c.locals@[0].is_captured,
            c.scope_depth == 0,
            c.parent_locals is None,
            c.captured@.len() == 0,
            c.loop_stack@.len() == 0,
            c.global_vars@.len() == 0,
            c.current_class_name is None,
    {
        let mut locals: Vec<Local> = Vec::new();
        locals.push(Local { name: String::new(), depth: 0, is_captured: false });
        BytecodeCompiler {
            function: CompiledFunction::new(name, arity),
            locals,
            scope_depth: 0,
            parent_locals: None,
            captured: Vec::new(),
            loop_stack: Vec::new(),
            global_vars: Vec::new(),
            current_class_name: None,
        }
    }

    /// Appends a byte.
    pub fn emit_byte(&mut self, byte: u8, span: Span)
        requires
            old(self).wf(),
        ensures
            final(self).wf(),
            final(self).code() == old(self).code().push(byte),
            same_but_code(old(self), final(self)),
    {
        self.function.chunk.write_byte(byte, span);
    }

    /// Appends an instruction.
    pub fn emit_op(&mut self, op: OpCode, span: Span)
        requires
            old(self).wf(),
        ensures
            final(self).wf(),
            final(self).code() == old(self).code().push(op_byte(op)),
            same_but_code(old(self), final(self)),
    {
        self.function.chunk.write_op(op, span);
    }

    /// Appends a 16-bit operand, high byte first.
    pub fn emit_u16(&mut self, val: u16, span: Span)
        requires
            old(self).wf(),
        ensures
            final(self).wf(),
            final(self).code() == old(self).code() + u16_bytes(val),
            same_but_code(old(self), final(self)),
    {
        self.function.chunk.write_u16(val, span);
    }

    /// Adds a constant to the chunk and returns its index.
    pub fn add_constant(&mut self, val: Value) -> (idx: usize)
        requires
            old(self).wf(),
        ensures
            final(self).wf(),
            idx == old(self).function.chunk.constants@.len(),
            final(self).function.chunk.constants@ == old(self).function.chunk.constants@.push(val),
            final(self).code() == old(self).code(),
            final(self).locals@ == old(self).locals@,
            final(self).scope_depth == old(self).scope_depth,
            final(self).captured@ == old(self).captured@,
            final(self).global_vars@ == old(self).global_vars@,
            final(self).parent_locals == old(self).parent_locals,
            final(self).function.name@ == old(self).function.name@,
            final(self).function.arity == old(self).function.arity,
            final(self).loop_stack@ == old(self).loop_stack@,
    {
        self.function.chunk.add_constant(val)
    }

    /// Appends a jump instruction with a placeholder operand `FF FF` and returns the position
    /// of the operand, to be patched.
    pub fn emit_jump(&mut self, op: OpCode, span: Span) -> (at: usize)
        requires
            old(self).wf(),
        ensures
            final(self).wf(),
            final(self).code() == old(self).code() + seq![op_byte(op), 0xFFu8, 0xFFu8],
            at == old(self).code().len() + 1,
            same_but_code(old(self), final(self)),
    {
        self.emit_op(op, span);
        self.emit_byte(0xFF, span);
        self.emit_byte(0xFF, span);
        assert(self.code() =~= old(self).code() + seq![op_byte(op), 0xFFu8, 0xFFu8]);
        self.function.chunk.code.len() - 2
    }

    /// Fills the operand at `offset` with the distance from just after it to the end of the
    /// code, high byte first (the low 16 bits of the distance).
    pub fn patch_jump(&mut self, offset: usize)
        requires
            old(self).wf(),
            offset + 2 <= old(self).code().len(),
        ensures
            final(self).wf(),
            final(self).code() == old(self).code().update(
                offset as int,
                ((old(self).code().len() - offset - 2) as usize >> 8usize) as u8,
            ).update(offset + 1, ((old(self).code().len() - offset - 2) as usize & 0xFFusize) as u8),
            same_but_code(old(self), final(self)),
    {
        let jump = self.function.chunk.code.len() - offset - 2;
        self.function.chunk.code.set(offset, (jump >> 8) as u8);
        self.function.chunk.code.set(offset + 1, (jump & 0xFF) as u8);
    }

    /// Appends a `Loop` instruction whose operand is the distance back to `loop_start` from
    /// just after the operand (the low 16 bits of it).
    pub fn emit_loop(&mut self, loop_start: usize, span: Span)
        requires
            old(self).wf(),
            loop_start <= old(self).code().len() + 1,
        ensures
            final(self).wf(),
            final(self).code() == old(self).code().push(op_byte(OpCode::Loop)) + u16_bytes(
                (old(self).code().len() + 1 - loop_start + 2) as u16,
            ),
            same_but_code(old(self), final(self)),
    {
        self.emit_op(OpCode::Loop, span);
        let back: u128 = self.function.chunk.code.len() as u128 - loop_start as u128 + 2;
        let offset: u16 = (back % 0x10000) as u16;
        assert(offset == back as u16) by (bit_vector)
            requires
                offset == (back % 0x10000) as u16,
        ;
        self.emit_u16(offset, span);
    }

    /// Opens a nested scope.
    pub fn begin_scope(&mut self)
        requires
            old(self).scope_depth < usize::MAX,
        ensures
            final(self).scope_depth == old(self).scope_depth + 1,
            final(self).locals@ == old(self).locals@,
            final(self).code() == old(self).code(),
            final(self).function.chunk.spans@ == old(self).function.chunk.spans@,
            final(self).wf() == old(self).wf(),
            same_scope_frame(old(self), final(self)),
    {
        self.scope_depth = self.scope_depth + 1;
    }

    /// Closes the innermost scope: its locals are dropped, each with a `Pop`.
    pub fn end_scope(&mut self, span: Span)
        requires
            old(self).wf(),
            old(self).scope_depth > 0,
        ensures
            final(self).wf(),
            final(self).scope_depth == old(self).scope_depth - 1,
            final(self).locals@ == old(self).locals@.take(
                locals_kept(old(self).locals@, final(self).scope_depth) as int,
            ),
            final(self).code() == old(self).code() + pops(
                (old(self).locals@.len() - locals_kept(old(self).locals@, final(self).scope_depth)) as nat,
            ),
            final(self).captured@ == old(self).captured@,
            same_scope_frame(old(self), final(self)),
    {
        self.scope_depth = self.scope_depth - 1;
        let ghost d = self.scope_depth;
        let ghost ls = old(self).locals@;
        let ghost code0 = old(self).code();
        proof {
            lemma_locals_kept_bound(ls, d);
            assert(ls.take(ls.len() as int) =~= ls);
            assert(code0 + pops(0) =~= code0);
        }
        while self.locals.len() > 0 && self.locals[self.locals.len() - 1].depth > self.scope_depth
            invariant
                self.wf(),
                self.scope_depth == d,
                locals_kept(ls, d) <= self.locals@.len() <= ls.len(),
                self.locals@ == ls.take(self.locals@.len() as int),
                locals_kept(self.locals@, d) == locals_kept(ls, d),
                self.code() == code0 + pops((ls.len() - self.locals@.len()) as nat),
                self.captured@ == old(self).captured@,
                same_scope_frame(old(self), self),
            decreases self.locals@.len(),
        {
            let ghost before = self.locals@;
            self.emit_op(OpCode::Pop, span);
            self.locals.pop();
            proof {
                assert(before.drop_last() =~= self.locals@);
                assert(self.locals@ =~= ls.take(self.locals@.len() as int));
                lemma_locals_kept_bound(self.locals@, d);
                assert(code0 + pops((ls.len() - before.len()) as nat) + seq![op_byte(OpCode::Pop)]
                    =~= code0 + pops((ls.len() - self.locals@.len()) as nat));
            }
        }
        proof {
            if self.locals@.len() > 0 {
                assert(locals_kept(self.locals@, d) == self.locals@.len());
            }
        }
    }

    /// Adds a local in the current scope; this always succeeds.
    pub fn add_local(&mut self, name: String, span: Span) -> (r: Result<(), String>)
        ensures
            r is Ok,
            final(self).locals@.len() == old(self).locals@.len() + 1,
            final(self).locals@.drop_last() == old(self).locals@,
            final(self).locals@.last().name == name,
            final(self).locals@.last().depth == old(self).scope_depth,
            !final(self).locals@.last().is_captured,
            final(self).scope_depth == old(self).scope_depth,
            final(self).code() == old(self).code(),
            final(self).function.chunk.spans@ == old(self).function.chunk.spans@,
            final(self).captured@ == old(self).captured@,
            final(self).function.chunk.constants@ == old(self).function.chunk.constants@,
            final(self).global_vars@ == old(self).global_vars@,
            final(self).parent_locals == old(self).parent_locals,
            final(self).function.name@ == old(self).function.name@,
            final(self).function.arity == old(self).function.arity,
            final(self).loop_stack@ == old(self).loop_stack@,
            final(self).wf() == old(self).wf(),
    {
        self.locals.push(Local { name, depth: self.scope_depth, is_captured: false });
        assert(self.locals@.drop_last() =~= old(self).locals@);
        Ok(())
    }

    /// The slot of the variable `name`: the innermost local of that name; else, where the
    /// parent function has it, its capture slot, capturing it first if this is its first use.
    pub fn resolve_local(&mut self, name: &str) -> (r: Option<usize>)
        ensures
            final(self).scope_depth == old(self).scope_depth,
            final(self).code() == old(self).code(),
            final(self).function.chunk.spans@ == old(self).function.chunk.spans@,
            final(self).parent_locals == old(self).parent_locals,
            final(self).global_vars@ == old(self).global_vars@,
            final(self).function.chunk.constants@ == old(self).function.chunk.constants@,
            final(self).function.name@ == old(self).function.name@,
            final(self).function.arity == old(self).function.arity,
            final(self).loop_stack@ == old(self).loop_stack@,
            final(self).wf() == old(self).wf(),
            (exists|j: int| 0 <= j < old(self).locals@.len() && #[trigger] old(self).locals@[j].name@ == name@)
                ==> {
                &&& r matches Some(i) && i < old(self).locals@.len() && old(self).locals@[i as int].name@
                    == name@ && forall|j: int|
                    i < j < old(self).locals@.len() ==> #[trigger] old(self).locals@[j].name@ != name@
                &&& final(self).locals@ == old(self).locals@
                &&& final(self).captured@ == old(self).captured@
            },
            (forall|j: int| 0 <= j < old(self).locals@.len() ==> #[trigger] old(self).locals@[j].name@ != name@)
                && !in_parent(old(self).parent_locals, name@) ==> {
                &&& r is None
                &&& final(self).locals@ == old(self).locals@
                &&& final(self).captured@ == old(self).captured@
            },
            (forall|j: int| 0 <= j < old(self).locals@.len() ==> #[trigger] old(self).locals@[j].name@ != name@)
                && in_parent(old(self).parent_locals, name@) && (exists|p: int|
                0 <= p < old(self).captured@.len() && #[trigger] old(self).captured@[p]@ == name@)
                ==> {
                &&& r matches Some(s) && 1 <= s <= old(self).captured@.len() && old(self).captured@[s
                    - 1]@ == name@ && forall|p: int|
                    0 <= p < s - 1 ==> #[trigger] old(self).captured@[p]@ != name@
                &&& final(self).locals@ == old(self).locals@
                &&& final(self).captured@ == old(self).captured@
            },
            (forall|j: int| 0 <= j < old(self).locals@.len() ==> #[trigger] old(self).locals@[j].name@ != name@)
                && in_parent(old(self).parent_locals, name@) && (forall|p: int|
                0 <= p < old(self).captured@.len() ==> #[trigger] old(self).captured@[p]@ != name@)
                ==> {
                &&& r == Some(old(self).locals@.len() as usize)
                &&& final(self).captured@.len() == old(self).captured@.len() + 1
                &&& final(self).captured@.drop_last() == old(self).captured@
                &&& final(self).captured@.last()@ == name@
                &&& final(self).locals@.len() == old(self).locals@.len() + 1
                &&& final(self).locals@.drop_last() == old(self).locals@
                &&& final(self).locals@.last().name@ == name@
                &&& final(self).locals@.last().depth == old(self).scope_depth
                &&& final(self).locals@.last().is_captured
            },
    {
        let key = string_of(name);
        let mut i = self.locals.len();
        while i > 0
            invariant
                i <= self.locals@.len(),
                key@ == name@,
                forall|j: int| i <= j < self.locals@.len() ==> #[trigger] self.locals@[j].name@ != name@,
            decreases i,
        {
            if self.locals[i - 1].name == key {
                return Some(i - 1);
            }
            i = i - 1;
        }
        let nonempty = !name.is_empty();
        let in_parent_scope = match &self.parent_locals {
            Some(parent) => {
                let mut found = false;
                let mut k: usize = 0;
                while k < parent.len()
                    invariant
                        k <= parent@.len(),
                        key@ == name@,
                        nonempty == (name@.len() > 0),
                        found <==> exists|j: int| 0 <= j < k && #[trigger] parent@[j].name@ == name@ && name@.len() > 0,
                    decreases parent@.len() - k,
                {
                    if parent[k].name == key && nonempty {
                        found = true;
                    }
                    k = k + 1;
                }
                found
            },
            None => false,
        };
        if in_parent_scope {
            let mut p: usize = 0;
            while p < self.captured.len()
                invariant
                    p <= self.captured@.len(),
                    key@ == name@,
                    self.locals@ == old(self).locals@,
                    self.captured@ == old(self).captured@,
                    self.parent_locals == old(self).parent_locals,
                    self.global_vars@ == old(self).global_vars@,
                    self.function == old(self).function,
                    self.scope_depth == old(self).scope_depth,
                    self.code() == old(self).code(),
                    self.function.chunk.spans@ == old(self).function.chunk.spans@,
                    in_parent(old(self).parent_locals, name@),
                    forall|j: int| 0 <= j < old(self).locals@.len() ==> #[trigger] old(self).locals@[j].name@ != name@,
                    forall|q: int| 0 <= q < p ==> #[trigger] self.captured@[q]@ != name@,
                decreases self.captured@.len() - p,
            {
                if self.captured[p] == key {
                    return Some(p + 1);
                }
                p = p + 1;
            }
            let slot = self.locals.len();
            self.captured.push(key);
            self.locals.push(Local { name: string_of(name), depth: self.scope_depth, is_captured: true });
            assert(self.captured@.drop_last() =~= old(self).captured@);
            assert(self.locals@.drop_last() =~= old(self).locals@);
            return Some(slot);
        }
        None
    }
}

pub proof fn lemma_locals_kept_bound(ls: Seq<Local>, d: usize)
    ensures
        locals_kept(ls, d) <= ls.len(),
        locals_kept(ls, d) < ls.len() ==> ls.last().depth > d,
        locals_kept(ls, d) < ls.len() ==> locals_kept(ls.drop_last(), d) == locals_kept(ls, d),
    decreases ls.len(),
{
    if ls.len() > 0 {
        lemma_locals_kept_bound(ls.drop_last(), d);
    }
}

/// The operand that `patch_jump` writes, read back, is the distance from just after the
/// operand to the end of the code, whenever that distance fits in 16 bits.
pub proof fn lemma_patch_jump_target(code: Seq<u8>, offset: int)
    requires
        0 <= offset,
        offset + 2 <= code.len(),
        code.len() - offset - 2 <= u16::MAX,
    ensures
        ({
            let jump = (code.len() - offset - 2) as usize;
            let patched = code.update(offset, (jump >> 8usize) as u8).update(
                offset + 1,
                (jump & 0xFFusize) as u8,
            );
            u16_be(patched[offset], patched[offset + 1]) == code.len() - offset - 2
        }),
{
    let jump = (code.len() - offset - 2) as usize;
    let v = jump as u16;
    lemma_u16_roundtrip(v);
    assert((jump >> 8usize) as u8 == (v >> 8u16) as u8 && (jump & 0xFFusize) as u8 == (v & 0xFFu16) as u8)
        by (bit_vector)
        requires
            jump <= 0xFFFFusize,
            v == jump as u16,
    ;
}

/// The operand of a `Loop` emitted at the end of `code` leads back to `loop_start`: the
/// position just after the operand, less the operand, whenever the distance fits in 16 bits.
pub proof fn lemma_loop_target(code: Seq<u8>, loop_start: int)
    requires
        0 <= loop_start <= code.len() + 1,
        code.len() + 3 - loop_start <= u16::MAX,
    ensures
        ({
            let out = code.push(op_byte(OpCode::Loop)) + u16_bytes((code.len() + 1 - loop_start + 2) as u16);
            out.len() - u16_be(out[code.len() + 1int], out[code.len() + 2int]) == loop_start
        }),
{
    let v = (code.len() + 1 - loop_start + 2) as u16;
    lemma_u16_roundtrip(v);
    let out = code.push(op_byte(OpCode::Loop)) + u16_bytes(v);
    assert(out[code.len() + 1int] == u16_bytes(v)[0]);
    assert(out[code.len() + 2int] == u16_bytes(v)[1]);
}

} // verus!
