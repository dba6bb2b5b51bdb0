//! Compilation of expressions to bytecode: literals, names, unary and binary operators,
//! including the short-circuit `and`/`or` and the membership test `in`.
use vstd::prelude::*;
use crate::bytecode::{op_byte, u16_bytes, OpCode, Span};
use crate::compiler::{in_parent, locals_kept, pops, same_but_code, BytecodeCompiler, CompiledFunction, Local, LoopContext};
use crate::text::string_of;
use crate::value::{Value, ValueView};

verus! {

/// A literal of the source language; a float is held by its bit pattern.
pub enum Literal {
    Int(i64),
    Float(u64),
    String(String),
    Bool(bool),
    Nil,
}

pub enum BinaryOp {
    Add,
    Sub,
    Mul,
    Div,
    Mod,
    Pow,
    Equal,
    NotEqual,
    Less,
    LessEqual,
    Greater,
    GreaterEqual,
    And,
    Or,
    In,
}

pub enum UnaryOp {
    Negate,
    Not,
}

/// An expression of the source language, each part with its source position.
pub enum Expr {
    Literal(Literal, Span),
    Ident(String, Span),
    Binary(Box<Expr>, BinaryOp, Box<Expr>, Span),
    Unary(UnaryOp, Box<Expr>, Span),
    Array(Vec<Expr>, Span),
    Tuple(Vec<Expr>, Span),
    SetLit(Vec<Expr>, Span),
    Index(Box<Expr>, Box<Expr>, Span),
    /// A call with positional arguments.
    Call(Box<Expr>, Vec<Expr>, Span),
}

/// How an assignment combines the new value with the old.
pub enum AssignOp {
    Assign,
    AddAssign,
    SubAssign,
    MulAssign,
    DivAssign,
    ModAssign,
}

/// A statement of the source language (those without functions, classes, conditionals,
/// exceptions and imports).
pub enum Statement {
    While { condition: Expr, body: Vec<Statement>, span: Span },
    For { item: String, iter: Expr, body: Vec<Statement>, span: Span },
    Break(Span),
    Continue(Span),
    Expr(Expr),
    Let { name: String, initializer: Option<Expr>, span: Span },
    Assign { target: String, target_span: Span, op: AssignOp, value: Expr, span: Span },
    Global(Vec<String>, Span),
    Pass(Span),
    Return { value: Option<Expr>, span: Span },
}

/// A local slot as the compiler keeps it.
pub struct LocalView {
    pub name: Seq<char>,
    pub depth: usize,
    pub captured: bool,
}

/// An enclosing loop as the compiler keeps it: the positions of the jump operands that its
/// `break`s and `continue`s left to be filled, and how many locals there were when it began.
pub struct LoopView {
    pub breaks: Seq<usize>,
    pub continues: Seq<usize>,
    pub local_count: usize,
}

pub open spec fn loop_views(ls: Seq<LoopContext>) -> Seq<LoopView> {
    ls.map_values(|l: LoopContext| LoopView { breaks: l.break_jumps@, continues: l.continue_jumps@, local_count: l.local_count })
}

/// What compiling reads and changes in the compiler.
pub struct CompView {
    pub loops: Seq<LoopView>,
    pub code: Seq<u8>,
    pub constants: Seq<ValueView>,
    pub locals: Seq<LocalView>,
    pub captured: Seq<Seq<char>>,
    pub globals: Seq<Seq<char>>,
    pub parent: Option<Seq<Seq<char>>>,
    pub depth: usize,
}

pub open spec fn local_views(ls: Seq<Local>) -> Seq<LocalView> {
    ls.map_values(|l: Local| LocalView { name: l.name@, depth: l.depth, captured: l.is_captured })
}

pub open spec fn name_views(ns: Seq<String>) -> Seq<Seq<char>> {
    ns.map_values(|n: String| n@)
}

pub open spec fn comp_view(c: &BytecodeCompiler) -> CompView {
    CompView {
        code: c.function.chunk.code@,
        constants: c.function.chunk.constant_views(),
        locals: local_views(c.locals@),
        captured: name_views(c.captured@),
        globals: name_views(c.global_vars@),
        parent: match c.parent_locals {
            Some(ls) => Some(local_views(ls@).map_values(|l: LocalView| l.name)),
            None => None,
        },
        depth: c.scope_depth,
        loops: loop_views(c.loop_stack@),
    }
}

/// The last local slot among the first `n` named `name`.
pub open spec fn last_local(ls: Seq<LocalView>, name: Seq<char>, n: int) -> Option<int>
    decreases n,
{
    if n <= 0 {
        None
    } else if ls[n - 1].name == name {
        Some(n - 1)
    } else {
        last_local(ls, name, n - 1)
    }
}

/// The first captured name from `p` on equal to `name`.
pub open spec fn first_capture(cs: Seq<Seq<char>>, name: Seq<char>, p: int) -> Option<int>
    decreases cs.len() - p,
{
    if p >= cs.len() {
        None
    } else if cs[p] == name {
        Some(p)
    } else {
        first_capture(cs, name, p + 1)
    }
}

/// The enclosing function has a local of this (non-empty) name.
pub open spec fn parent_has(c: CompView, name: Seq<char>) -> bool {
    match c.parent {
        Some(ns) => ns.contains(name) && name.len() > 0,
        None => false,
    }
}

/// Resolving a name to a slot: the innermost local of that name; else, where the enclosing
/// function has it, its capture slot, capturing it first on first use; else no slot.
pub open spec fn resolve_spec(c: CompView, name: Seq<char>) -> (Option<int>, CompView) {
    match last_local(c.locals, name, c.locals.len() as int) {
        Some(i) => (Some(i), c),
        None => if !parent_has(c, name) {
            (None, c)
        } else {
            match first_capture(c.captured, name, 0) {
                Some(p) => (Some(p + 1), c),
                None => (
                    Some(c.locals.len() as int),
                    CompView {
                        captured: c.captured.push(name),
                        locals: c.locals.push(LocalView { name, depth: c.depth, captured: true }),
                        ..c
                    },
                ),
            }
        },
    }
}

/// Appends bytes.
pub open spec fn emitted(c: CompView, bytes: Seq<u8>) -> CompView {
    CompView { code: c.code + bytes, ..c }
}

/// An instruction with a 16-bit operand.
pub open spec fn op16(op: OpCode, val: u16) -> Seq<u8> {
    seq![op_byte(op)] + u16_bytes(val)
}

/// Adds a constant and loads it with the instruction `op`.
pub open spec fn with_constant(c: CompView, v: ValueView, op: OpCode) -> CompView {
    let idx = c.constants.len();
    emitted(CompView { constants: c.constants.push(v), ..c }, op16(op, idx as usize as u16))
}

/// Fills the jump operand at `at` with the distance to the end of the code.
pub open spec fn patched(c: CompView, at: int) -> CompView {
    let d = (c.code.len() - at - 2) as usize;
    CompView {
        code: c.code.update(at, (d >> 8usize) as u8).update(at + 1, (d & 0xFFusize) as u8),
        ..c
    }
}

/// The instruction of an arithmetic or comparison operator.
pub open spec fn binary_opcode(op: BinaryOp) -> OpCode {
    match op {
        BinaryOp::Add => OpCode::Add,
        BinaryOp::Sub => OpCode::Sub,
        BinaryOp::Mul => OpCode::Mul,
        BinaryOp::Div => OpCode::Div,
        BinaryOp::Mod => OpCode::Mod,
        BinaryOp::Pow => OpCode::Pow,
        BinaryOp::Equal => OpCode::Equal,
        BinaryOp::NotEqual => OpCode::NotEqual,
        BinaryOp::Less => OpCode::Less,
        BinaryOp::LessEqual => OpCode::LessEqual,
        BinaryOp::Greater => OpCode::Greater,
        _ => OpCode::GreaterEqual,
    }
}

/// The compiler after compiling `e`.
pub open spec fn expr_spec(c: CompView, e: Expr) -> CompView
    decreases e,
{
    match e {
        Expr::Literal(lit, _) => match lit {
            Literal::Int(v) => with_constant(c, ValueView::Int(v), OpCode::Constant),
            Literal::Float(v) => with_constant(c, ValueView::Float(v), OpCode::Constant),
            Literal::String(s) => with_constant(c, ValueView::String(s@), OpCode::Constant),
            Literal::Bool(b) => emitted(c, seq![op_byte(if b { OpCode::True } else { OpCode::False })]),
            Literal::Nil => emitted(c, seq![op_byte(OpCode::Nil)]),
        },
        Expr::Ident(name, _) => if c.globals.contains(name@) {
            with_constant(c, ValueView::String(name@), OpCode::GetGlobal)
        } else {
            let (slot, r) = resolve_spec(c, name@);
            match slot {
                Some(i) => emitted(r, op16(OpCode::GetLocal, i as usize as u16)),
                None => with_constant(r, ValueView::String(name@), OpCode::GetGlobal),
            }
        },
        Expr::Binary(left, op, right, _) => match op {
            BinaryOp::And => {
                let a = expr_spec(c, *left);
                let at = a.code.len() + 1int;
                let b = emitted(a, seq![op_byte(OpCode::JumpIfFalse), 0xFFu8, 0xFFu8, op_byte(OpCode::Pop)]);
                patched(expr_spec(b, *right), at)
            },
            BinaryOp::Or => {
                let a = expr_spec(c, *left);
                let else_at = a.code.len() + 1int;
                let end_at = a.code.len() + 4int;
                let b = emitted(a, seq![op_byte(OpCode::JumpIfFalse), 0xFFu8, 0xFFu8, op_byte(OpCode::Jump), 0xFFu8, 0xFFu8]);
                let d = emitted(patched(b, else_at), seq![op_byte(OpCode::Pop)]);
                patched(expr_spec(d, *right), end_at)
            },
            BinaryOp::In => {
                let a = with_constant(c, ValueView::String("__in"@), OpCode::GetGlobal);
                let b = expr_spec(expr_spec(a, *left), *right);
                emitted(b, seq![op_byte(OpCode::Call), 2u8])
            },
            _ => emitted(expr_spec(expr_spec(c, *left), *right), seq![op_byte(binary_opcode(op))]),
        },
        Expr::Unary(op, inner, _) => emitted(
            expr_spec(c, *inner),
            seq![op_byte(match op { UnaryOp::Negate => OpCode::Negate, UnaryOp::Not => OpCode::Not })],
        ),
        Expr::Array(es, _) => emitted(exprs_spec(c, es@), op16(OpCode::BuildArray, es@.len() as usize as u16)),
        Expr::Tuple(es, _) => emitted(exprs_spec(c, es@), op16(OpCode::BuildTuple, es@.len() as usize as u16)),
        Expr::SetLit(es, _) => emitted(exprs_spec(c, es@), op16(OpCode::BuildSet, es@.len() as usize as u16)),
        Expr::Index(obj, idx, _) => emitted(
            expr_spec(expr_spec(c, *obj), *idx),
            seq![op_byte(OpCode::IndexGet)],
        ),        Expr::Call(callee, args, _) => emitted(
            exprs_spec(expr_spec(c, *callee), args@),
            seq![op_byte(OpCode::Call), args@.len() as usize as u8],
        ),
    }
}

/// The compiler after compiling the expressions in order.
pub open spec fn exprs_spec(c: CompView, es: Seq<Expr>) -> CompView
    decreases es,
{
    if es.len() == 0 {
        c
    } else {
        expr_spec(exprs_spec(c, es.drop_last()), es.last())
    }
}

/// The compiler state that compiling an expression leaves alone.
pub open spec fn same_frame(a: &BytecodeCompiler, b: &BytecodeCompiler) -> bool {
    &&& a.function.name@ == b.function.name@
    &&& a.function.arity == b.function.arity
    &&& a.loop_stack@ == b.loop_stack@
    &&& a.scope_depth == b.scope_depth
}

proof fn lemma_last_local(ls: Seq<Local>, name: Seq<char>, i: int, n: int)
    requires
        0 <= i < n <= ls.len(),
        ls[i].name@ == name,
        forall|j: int| i < j < ls.len() ==> #[trigger] ls[j].name@ != name,
    ensures
        last_local(local_views(ls), name, n) == Some(i),
    decreases n,
{
    let v = local_views(ls);
    assert(v[n - 1].name == ls[n - 1].name@);
    if n - 1 > i {
        lemma_last_local(ls, name, i, n - 1);
    }
}

proof fn lemma_no_local(ls: Seq<Local>, name: Seq<char>, n: int)
    requires
        0 <= n <= ls.len(),
        forall|j: int| 0 <= j < ls.len() ==> #[trigger] ls[j].name@ != name,
    ensures
        last_local(local_views(ls), name, n) is None,
    decreases n,
{
    if n > 0 {
        lemma_no_local(ls, name, n - 1);
        assert(local_views(ls)[n - 1].name == ls[n - 1].name@);
    }
}

proof fn lemma_first_capture(cs: Seq<String>, name: Seq<char>, p: int, s: int)
    requires
        0 <= p <= s < cs.len(),
        cs[s]@ == name,
        forall|q: int| 0 <= q < s ==> #[trigger] cs[q]@ != name,
    ensures
        first_capture(name_views(cs), name, p) == Some(s),
    decreases s - p,
{
    assert(name_views(cs)[p] == cs[p]@);
    if p < s {
        lemma_first_capture(cs, name, p + 1, s);
    }
}

proof fn lemma_no_capture(cs: Seq<String>, name: Seq<char>, p: int)
    requires
        0 <= p <= cs.len(),
        forall|q: int| 0 <= q < cs.len() ==> #[trigger] cs[q]@ != name,
    ensures
        first_capture(name_views(cs), name, p) is None,
    decreases cs.len() - p,
{
    if p < cs.len() {
        assert(name_views(cs)[p] == cs[p]@);
        lemma_no_capture(cs, name, p + 1);
    }
}

fn contains_name(names: &Vec<String>, name: &String) -> (r: bool)
    ensures
        r == name_views(names@).contains(name@),
{
    let mut i: usize = 0;
    while i < names.len()
        invariant
            i <= names@.len(),
            forall|j: int| 0 <= j < i ==> #[trigger] names@[j]@ != name@,
        decreases names@.len() - i,
    {
        if names[i] == *name {
            assert(name_views(names@)[i as int] == name@);
            return true;
        }
        i = i + 1;
    }
    proof {
        if name_views(names@).contains(name@) {
            let j = choose|j: int| 0 <= j < name_views(names@).len() && name_views(names@)[j] == name@;
            assert(names@[j]@ == name@);
        }
    }
    false
}

impl BytecodeCompiler {
    fn load_constant(&mut self, v: Value, op: OpCode, span: Span)
        requires
            old(self).wf(),
        ensures
            final(self).wf(),
            same_frame(old(self), final(self)),
            comp_view(final(self)) == with_constant(comp_view(old(self)), v@, op),
    {
        let ghost before = self.function.chunk.constants@;
        let ghost vv = v;
        proof {
            crate::value::lemma_models(before);
            crate::value::lemma_models_push(before, vv);
        }
        let idx = self.add_constant(v);
        self.emit_op(op, span);
        #[verifier::truncate]
        let operand = idx as u16;
        self.emit_u16(operand, span);
        assert(comp_view(self).code =~= comp_view(old(self)).code + op16(op, operand));
        assert(comp_view(self).constants == comp_view(old(self)).constants.push(v@));
    }

    fn resolve_name(&mut self, name: &String) -> (r: Option<usize>)
        requires
            old(self).wf(),
        ensures
            final(self).wf(),
            same_frame(old(self), final(self)),
            ({
                let (slot, c) = resolve_spec(comp_view(old(self)), name@);
                &&& comp_view(final(self)) == c
                &&& match slot {
                    Some(i) => r == Some(i as usize),
                    None => r is None,
                }
            }),
    {
        let ghost c = comp_view(self);
        let ghost ls = self.locals@;
        let ghost cs = self.captured@;
        let r = self.resolve_local(name.as_str());
        proof {
            let n = name@;
            let pv: Option<Seq<Seq<char>>> = c.parent;
            if exists|j: int| 0 <= j < ls.len() && #[trigger] ls[j].name@ == n {
                let i = r->0 as int;
                lemma_last_local(ls, n, i, ls.len() as int);
            } else {
                lemma_no_local(ls, n, ls.len() as int);
                assert(in_parent(old(self).parent_locals, n) == parent_has(c, n)) by {
                    match old(self).parent_locals {
                        Some(pl) => {
                            let names = local_views(pl@).map_values(|l: LocalView| l.name);
                            if in_parent(old(self).parent_locals, n) {
                                let j = choose|j: int| 0 <= j < pl@.len() && #[trigger] pl@[j].name@ == n && n.len() > 0;
                                assert(names[j] == n);
                            }
                            if parent_has(c, n) {
                                let j = choose|j: int| 0 <= j < names.len() && names[j] == n;
                                assert(pl@[j].name@ == n);
                            }
                        },
                        None => {},
                    }
                }
                if parent_has(c, n) {
                    if exists|p: int| 0 <= p < cs.len() && #[trigger] cs[p]@ == n {
                        let s = r->0 as int;
                        lemma_first_capture(cs, n, 0, s - 1);
                    } else {
                        lemma_no_capture(cs, n, 0);
                        assert(local_views(self.locals@) =~= c.locals.push(
                            LocalView { name: n, depth: c.depth, captured: true },
                        ));
                        assert(name_views(self.captured@) =~= c.captured.push(n));
                    }
                }
            }
        }
        r
    }

    /// Compiles the expressions in order.
    pub fn compile_list(&mut self, es: &Vec<Expr>) -> (r: Result<(), String>)
        requires
            old(self).wf(),
        ensures
            final(self).wf(),
            r is Ok,
            same_frame(old(self), final(self)),
            comp_view(final(self)) == exprs_spec(comp_view(old(self)), es@),
            final(self).code().len() >= old(self).code().len(),
        decreases es,
    {
        let ghost c0 = comp_view(self);
        let mut i: usize = 0;
        while i < es.len()
            invariant
                self.wf(),
                same_frame(old(self), self),
                i <= es@.len(),
                self.code().len() >= old(self).code().len(),
                comp_view(self) == exprs_spec(c0, es@.take(i as int)),
            decreases es@.len() - i,
        {
            proof {
                assert(decreases_to!(es => es@[i as int]));
            }
            self.compile_expression(&es[i])?;
            proof {
                let t = es@.take(i + 1);
                assert(t.drop_last() =~= es@.take(i as int));
            }
            i = i + 1;
        }
        assert(es@.take(es@.len() as int) =~= es@);
        Ok(())
    }

    /// Compiles an expression, appending its code (and the constants it loads) to the function.
    #[verifier::rlimit(60)]
    pub fn compile_expression(&mut self, expr: &Expr) -> (r: Result<(), String>)
        requires
            old(self).wf(),
        ensures
            final(self).wf(),
            r is Ok,
            same_frame(old(self), final(self)),
            comp_view(final(self)) == expr_spec(comp_view(old(self)), *expr),
            final(self).code().len() >= old(self).code().len(),
        decreases expr,
    {
        let ghost c0 = comp_view(self);
        match expr {
            Expr::Literal(lit, span) => {
                match lit {
                    Literal::Int(v) => self.load_constant(Value::Int(*v), OpCode::Constant, *span),
                    Literal::Float(v) => self.load_constant(Value::Float(*v), OpCode::Constant, *span),
                    Literal::String(s) => self.load_constant(Value::String(s.clone()), OpCode::Constant, *span),
                    Literal::Bool(b) => {
                        let o = if *b { OpCode::True } else { OpCode::False };
                        self.emit_op(o, *span);
                        assert(comp_view(self).code =~= c0.code + seq![op_byte(o)]);
                    },
                    Literal::Nil => {
                        self.emit_op(OpCode::Nil, *span);
                        assert(comp_view(self).code =~= c0.code + seq![op_byte(OpCode::Nil)]);
                    },
                }
                assert(comp_view(self) == expr_spec(c0, *expr));
            },
            Expr::Ident(name, span) => {
                if contains_name(&self.global_vars, name) {
                    self.load_constant(Value::String(name.clone()), OpCode::GetGlobal, *span);
                } else {
                    match self.resolve_name(name) {
                        Some(i) => {
                            let ghost mid = comp_view(self);
                            self.emit_op(OpCode::GetLocal, *span);
                            #[verifier::truncate]
                            let operand = i as u16;
                            self.emit_u16(operand, *span);
                            assert(comp_view(self).code =~= mid.code + op16(OpCode::GetLocal, operand));
                        },
                        None => {
                            self.load_constant(Value::String(name.clone()), OpCode::GetGlobal, *span);
                        },
                    }
                }
                assert(comp_view(self) == expr_spec(c0, *expr));
            },
            Expr::Binary(left, op, right, span) => {
                match op {
                    BinaryOp::And => {
                        self.compile_expression(left)?;
                        let ghost a = comp_view(self);
                        let end_jump = self.emit_jump(OpCode::JumpIfFalse, *span);
                        self.emit_op(OpCode::Pop, *span);
                        assert(comp_view(self).code =~= a.code + seq![op_byte(OpCode::JumpIfFalse), 0xFFu8, 0xFFu8, op_byte(OpCode::Pop)]);
                        self.compile_expression(right)?;
                        self.patch_jump(end_jump);
                        assert(comp_view(self) == expr_spec(c0, *expr));
                    },
                    BinaryOp::Or => {
                        self.compile_expression(left)?;
                        let ghost a = comp_view(self);
                        let else_jump = self.emit_jump(OpCode::JumpIfFalse, *span);
                        let end_jump = self.emit_jump(OpCode::Jump, *span);
                        assert(comp_view(self).code =~= a.code + seq![op_byte(OpCode::JumpIfFalse), 0xFFu8, 0xFFu8, op_byte(OpCode::Jump), 0xFFu8, 0xFFu8]);
                        self.patch_jump(else_jump);
                        let ghost pb = comp_view(self);
                        self.emit_op(OpCode::Pop, *span);
                        assert(comp_view(self).code =~= pb.code + seq![op_byte(OpCode::Pop)]);
                        self.compile_expression(right)?;
                        self.patch_jump(end_jump);
                        assert(comp_view(self) == expr_spec(c0, *expr));
                    },
                    BinaryOp::In => {
                        self.load_constant(Value::String(String::from_str("__in")), OpCode::GetGlobal, *span);
                        self.compile_expression(left)?;
                        self.compile_expression(right)?;
                        let ghost b = comp_view(self);
                        self.emit_op(OpCode::Call, *span);
                        self.emit_byte(2, *span);
                        assert(comp_view(self).code =~= b.code + seq![op_byte(OpCode::Call), 2u8]);
                        assert(comp_view(self) == expr_spec(c0, *expr));
                    },
                    _ => {
                        self.compile_expression(left)?;
                        self.compile_expression(right)?;
                        let ghost b = comp_view(self);
                        let o = match op {
                            BinaryOp::Add => OpCode::Add,
                            BinaryOp::Sub => OpCode::Sub,
                            BinaryOp::Mul => OpCode::Mul,
                            BinaryOp::Div => OpCode::Div,
                            BinaryOp::Mod => OpCode::Mod,
                            BinaryOp::Pow => OpCode::Pow,
                            BinaryOp::Equal => OpCode::Equal,
                            BinaryOp::NotEqual => OpCode::NotEqual,
                            BinaryOp::Less => OpCode::Less,
                            BinaryOp::LessEqual => OpCode::LessEqual,
                            BinaryOp::Greater => OpCode::Greater,
                            _ => OpCode::GreaterEqual,
                        };
                        self.emit_op(o, *span);
                        assert(o == binary_opcode(*op));
                        assert(comp_view(self).code =~= b.code + seq![op_byte(o)]);
                        assert(comp_view(self) == expr_spec(c0, *expr));
                    },
                }
            },
            Expr::Unary(op, inner, span) => {
                self.compile_expression(inner)?;
                let ghost b = comp_view(self);
                match op {
                    UnaryOp::Negate => self.emit_op(OpCode::Negate, *span),
                    UnaryOp::Not => self.emit_op(OpCode::Not, *span),
                }
                assert(comp_view(self).code =~= b.code + seq![op_byte(match op { UnaryOp::Negate => OpCode::Negate, UnaryOp::Not => OpCode::Not })]);
                assert(comp_view(self) == expr_spec(c0, *expr));
            },
            Expr::Array(es, span) | Expr::Tuple(es, span) | Expr::SetLit(es, span) => {
                self.compile_list(es)?;
                let ghost b = comp_view(self);
                let o = match expr {
                    Expr::Array(..) => OpCode::BuildArray,
                    Expr::Tuple(..) => OpCode::BuildTuple,
                    _ => OpCode::BuildSet,
                };
                self.emit_op(o, *span);
                #[verifier::truncate]
                let count = es.len() as u16;
                self.emit_u16(count, *span);
                assert(comp_view(self).code =~= b.code + op16(o, count));
                assert(comp_view(self) == expr_spec(c0, *expr));
            },
            Expr::Index(obj, idx, span) => {
                self.compile_expression(obj)?;
                self.compile_expression(idx)?;
                let ghost b = comp_view(self);
                self.emit_op(OpCode::IndexGet, *span);
                assert(comp_view(self).code =~= b.code + seq![op_byte(OpCode::IndexGet)]);
                assert(comp_view(self) == expr_spec(c0, *expr));
            },            Expr::Call(callee, args, span) => {
                self.compile_expression(callee)?;
                self.compile_list(args)?;
                let ghost b = comp_view(self);
                self.emit_op(OpCode::Call, *span);
                #[verifier::truncate]
                let count = args.len() as u8;
                self.emit_byte(count, *span);
                assert(comp_view(self).code =~= b.code + seq![op_byte(OpCode::Call), count]);
                assert(comp_view(self) == expr_spec(c0, *expr));
            },
        }
        Ok(())
    }
}


/// Whether the function being compiled is the top level of a program or of the interactive
/// prompt, whose variables are all global.
pub open spec fn top_level(fname: Seq<char>) -> bool {
    fname == "<main>"@ || fname == "<repl>"@
}

/// Stores the value on top of the stack into the global `name` and pops it.
pub open spec fn set_global(c: CompView, name: Seq<char>) -> CompView {
    emitted(with_constant(c, ValueView::String(name), OpCode::SetGlobal), seq![op_byte(OpCode::Pop)])
}

/// The instruction that combines an old value with the new one for a compound assignment.
pub open spec fn assign_opcode(op: AssignOp) -> OpCode {
    match op {
        AssignOp::AddAssign => OpCode::Add,
        AssignOp::SubAssign => OpCode::Sub,
        AssignOp::MulAssign => OpCode::Mul,
        AssignOp::DivAssign => OpCode::Div,
        _ => OpCode::Mod,
    }
}

/// The names made global, each once.
pub open spec fn add_globals(g: Seq<Seq<char>>, names: Seq<Seq<char>>) -> Seq<Seq<char>>
    decreases names.len(),
{
    if names.len() == 0 {
        g
    } else {
        let h = add_globals(g, names.drop_last());
        if h.contains(names.last()) { h } else { h.push(names.last()) }
    }
}

/// The number of trailing locals deeper than `d`: those that go when a scope at depth `d`
/// ends.
pub open spec fn kept_views(ls: Seq<LocalView>, d: usize) -> nat
    decreases ls.len(),
{
    if ls.len() == 0 {
        0
    } else if ls.last().depth > d {
        kept_views(ls.drop_last(), d)
    } else {
        ls.len()
    }
}

/// The compiler after closing its innermost scope: the locals deeper than the enclosing
/// depth go, each with a `Pop`.
pub open spec fn scope_end(c: CompView) -> CompView {
    let d = (c.depth - 1) as usize;
    let k = kept_views(c.locals, d);
    CompView { depth: d, locals: c.locals.take(k as int), code: c.code + pops((c.locals.len() - k) as nat), ..c }
}

proof fn lemma_kept_views(ls: Seq<Local>, d: usize)
    ensures
        kept_views(local_views(ls), d) == locals_kept(ls, d),
        locals_kept(ls, d) <= ls.len(),
    decreases ls.len(),
{
    if ls.len() > 0 {
        assert(local_views(ls.drop_last()) =~= local_views(ls).drop_last());
        lemma_kept_views(ls.drop_last(), d);
    }
}

/// Code that only grows, with the loops unchanged, keeps the loops' jumps inside it.
proof fn lemma_fit_grow(a: CompView, b: CompView)
    requires
        jumps_fit(a),
        b.loops == a.loops,
        b.code.len() >= a.code.len(),
    ensures
        jumps_fit(b),
{
    assert forall|i: int, j: int| 0 <= i < b.loops.len() && 0 <= j < b.loops[i].breaks.len() implies #[trigger] b.loops[i].breaks[j] + 2 <= b.code.len() by {
        assert(a.loops[i].breaks[j] + 2 <= a.code.len());
    }
    assert forall|i: int, j: int| 0 <= i < b.loops.len() && 0 <= j < b.loops[i].continues.len() implies #[trigger] b.loops[i].continues[j] + 2 <= b.code.len() by {
        assert(a.loops[i].continues[j] + 2 <= a.code.len());
    }
}

proof fn lemma_fit_same_len(a: CompView, b: CompView)
    requires
        jumps_fit(a),
        b.loops == a.loops,
        b.code.len() == a.code.len(),
    ensures
        jumps_fit(b),
{
    lemma_fit_grow(a, b);
}

/// A loop with no jumps yet can be pushed.
proof fn lemma_fit_push(a: CompView, b: CompView)
    requires
        jumps_fit(a),
        b.loops.len() == a.loops.len() + 1,
        b.loops.drop_last() == a.loops,
        b.loops.last().breaks.len() == 0,
        b.loops.last().continues.len() == 0,
        b.code == a.code,
    ensures
        jumps_fit(b),
{
    assert forall|i: int, j: int| 0 <= i < b.loops.len() && 0 <= j < b.loops[i].breaks.len() implies #[trigger] b.loops[i].breaks[j] + 2 <= b.code.len() by {
        assert(i < a.loops.len());
        assert(b.loops[i] == b.loops.drop_last()[i]);
        assert(a.loops[i].breaks[j] + 2 <= a.code.len());
    }
    assert forall|i: int, j: int| 0 <= i < b.loops.len() && 0 <= j < b.loops[i].continues.len() implies #[trigger] b.loops[i].continues[j] + 2 <= b.code.len() by {
        assert(i < a.loops.len());
        assert(b.loops[i] == b.loops.drop_last()[i]);
        assert(a.loops[i].continues[j] + 2 <= a.code.len());
    }
}

/// Popping a loop keeps the others' jumps inside the code, and the popped loop's jumps are
/// inside it too.
proof fn lemma_fit_pop(a: CompView, b: CompView)
    requires
        jumps_fit(a),
        a.loops.len() > 0,
        b.loops == a.loops.drop_last(),
        b.code == a.code,
    ensures
        jumps_fit(b),
        forall|j: int| 0 <= j < a.loops.last().breaks.len() ==> #[trigger] a.loops.last().breaks[j] + 2 <= a.code.len(),
        forall|j: int| 0 <= j < a.loops.last().continues.len() ==> #[trigger] a.loops.last().continues[j] + 2 <= a.code.len(),
{
    let n = a.loops.len() - 1;
    assert(a.loops.last() == a.loops[n]);
    assert forall|j: int| 0 <= j < a.loops.last().breaks.len() implies #[trigger] a.loops.last().breaks[j] + 2 <= a.code.len() by {
        assert(a.loops[n].breaks[j] + 2 <= a.code.len());
    }
    assert forall|j: int| 0 <= j < a.loops.last().continues.len() implies #[trigger] a.loops.last().continues[j] + 2 <= a.code.len() by {
        assert(a.loops[n].continues[j] + 2 <= a.code.len());
    }
    assert forall|i: int, j: int| 0 <= i < b.loops.len() && 0 <= j < b.loops[i].breaks.len() implies #[trigger] b.loops[i].breaks[j] + 2 <= b.code.len() by {
        assert(b.loops[i] == a.loops[i]);
        assert(a.loops[i].breaks[j] + 2 <= a.code.len());
    }
    assert forall|i: int, j: int| 0 <= i < b.loops.len() && 0 <= j < b.loops[i].continues.len() implies #[trigger] b.loops[i].continues[j] + 2 <= b.code.len() by {
        assert(b.loops[i] == a.loops[i]);
        assert(a.loops[i].continues[j] + 2 <= a.code.len());
    }
}

/// Recording a jump inside the code with the innermost loop keeps all jumps inside it.
proof fn lemma_fit_record(a: CompView, b: CompView, is_break: bool, at: usize)
    requires
        jumps_fit(a),
        a.loops.len() > 0,
        b.code.len() >= a.code.len(),
        at + 2 <= b.code.len(),
        b.loops == a.loops.update(a.loops.len() - 1, if is_break {
            LoopView { breaks: a.loops.last().breaks.push(at), ..a.loops.last() }
        } else {
            LoopView { continues: a.loops.last().continues.push(at), ..a.loops.last() }
        }),
    ensures
        jumps_fit(b),
{
    let n = a.loops.len() - 1;
    assert(a.loops.last() == a.loops[n]);
    assert forall|i: int, j: int| 0 <= i < b.loops.len() && 0 <= j < b.loops[i].breaks.len() implies #[trigger] b.loops[i].breaks[j] + 2 <= b.code.len() by {
        if i < n {
            assert(b.loops[i] == a.loops[i]);
            assert(a.loops[i].breaks[j] + 2 <= a.code.len());
        } else if j < a.loops[n].breaks.len() {
            assert(b.loops[i].breaks[j] == a.loops[n].breaks[j]);
            assert(a.loops[n].breaks[j] + 2 <= a.code.len());
        }
    }
    assert forall|i: int, j: int| 0 <= i < b.loops.len() && 0 <= j < b.loops[i].continues.len() implies #[trigger] b.loops[i].continues[j] + 2 <= b.code.len() by {
        if i < n {
            assert(b.loops[i] == a.loops[i]);
            assert(a.loops[i].continues[j] + 2 <= a.code.len());
        } else if j < a.loops[n].continues.len() {
            assert(b.loops[i].continues[j] == a.loops[n].continues[j]);
            assert(a.loops[n].continues[j] + 2 <= a.code.len());
        }
    }
}

/// A failure in the first `i` statements is the failure of the first `k`, for `i <= k`.
proof fn lemma_block_err(c: CompView, fname: Seq<char>, sts: Seq<Statement>, i: int, k: int)
    requires
        0 < i <= k <= sts.len(),
        block_result(c, fname, sts.take(i)) is Err,
    ensures
        block_result(c, fname, sts.take(k)) == block_result(c, fname, sts.take(i)),
    decreases k - i,
{
    if k > i {
        lemma_block_err(c, fname, sts, i, k - 1);
        assert(sts.take(k).drop_last() =~= sts.take(k - 1));
    }
}

/// The loop nesting of a prefix is at most that of the list.
proof fn lemma_nesting_prefix(sts: Seq<Statement>, k: int)
    requires
        0 <= k <= sts.len(),
    ensures
        block_nesting(sts.take(k)) <= block_nesting(sts),
    decreases sts.len(),
{
    if k < sts.len() {
        lemma_nesting_prefix(sts.drop_last(), k);
        assert(sts.drop_last().take(k) =~= sts.take(k));
    } else {
        assert(sts.take(k) =~= sts);
    }
}

/// The loop nesting of a statement in a list is at most that of the list.
proof fn lemma_nesting_bound(sts: Seq<Statement>, i: int)
    requires
        0 <= i < sts.len(),
    ensures
        stmt_nesting(sts[i]) <= block_nesting(sts),
    decreases sts.len(),
{
    if i < sts.len() - 1 {
        lemma_nesting_bound(sts.drop_last(), i);
        assert(sts.drop_last()[i] == sts[i]);
    }
}

/// The jump operands at `js` filled, in order, each with the distance to the end of the code.
pub open spec fn patch_all(c: CompView, js: Seq<usize>) -> CompView
    decreases js.len(),
{
    if js.len() == 0 {
        c
    } else {
        patched(patch_all(c, js.drop_last()), js.last() as int)
    }
}

/// A `break` (or `continue`) in the innermost loop: the locals made since the loop began are
/// popped, and a jump whose operand is left to fill is recorded with the loop.
pub open spec fn jump_out(c: CompView, is_break: bool) -> CompView {
    let ctx = c.loops.last();
    let n = if c.locals.len() >= ctx.local_count { c.locals.len() - ctx.local_count } else { 0 };
    let a = emitted(c, pops(n as nat) + seq![op_byte(OpCode::Jump), 0xFFu8, 0xFFu8]);
    let at = (a.code.len() - 2) as usize;
    let ctx2 = if is_break {
        LoopView { breaks: ctx.breaks.push(at), ..ctx }
    } else {
        LoopView { continues: ctx.continues.push(at), ..ctx }
    };
    CompView { loops: c.loops.update(c.loops.len() - 1, ctx2), ..a }
}

/// Whether compiling a statement fails: `break` and `continue` need an enclosing loop.
pub open spec fn stmt_result(c: CompView, st: Statement) -> Result<(), Seq<char>> {
    match st {
        Statement::Break(_) => if c.loops.len() == 0 {
            Err("Cannot use 'break' outside of a loop"@)
        } else {
            Ok(())
        },
        Statement::Continue(_) => if c.loops.len() == 0 {
            Err("Cannot use 'continue' outside of a loop"@)
        } else {
            Ok(())
        },
        _ => Ok(()),
    }
}

/// Whether compiling statements in order fails, with the first failure.
pub open spec fn block_result(c: CompView, fname: Seq<char>, sts: Seq<Statement>) -> Result<(), Seq<char>>
    decreases sts.len(),
{
    if sts.len() == 0 {
        Ok(())
    } else {
        match block_result(c, fname, sts.drop_last()) {
            Err(e) => Err(e),
            Ok(_) => stmt_result(block_spec(c, fname, sts.drop_last()), sts.last()),
        }
    }
}

/// Every jump operand recorded with an enclosing loop lies inside the code.
pub open spec fn jumps_fit(c: CompView) -> bool {
    &&& forall|i: int, j: int|
        0 <= i < c.loops.len() && 0 <= j < c.loops[i].breaks.len() ==> #[trigger] c.loops[i].breaks[j] + 2
            <= c.code.len()
    &&& forall|i: int, j: int|
        0 <= i < c.loops.len() && 0 <= j < c.loops[i].continues.len() ==> #[trigger] c.loops[i].continues[j]
            + 2 <= c.code.len()
}

/// What compiling statements keeps: the function, the scope depth and the number of enclosing
/// loops.
pub open spec fn same_stmt_frame(a: &BytecodeCompiler, b: &BytecodeCompiler) -> bool {
    &&& a.function.name@ == b.function.name@
    &&& a.function.arity == b.function.arity
    &&& a.scope_depth == b.scope_depth
    &&& a.loop_stack@.len() == b.loop_stack@.len()
}

/// How deeply loops nest in a statement.
pub open spec fn stmt_nesting(st: Statement) -> nat
    decreases st,
{
    match st {
        Statement::While { body, .. } => 1 + block_nesting(body@),
        Statement::For { body, .. } => 2 + block_nesting(body@),
        _ => 0,
    }
}

/// How deeply loops nest in a list of statements.
pub open spec fn block_nesting(sts: Seq<Statement>) -> nat
    decreases sts,
{
    if sts.len() == 0 {
        0
    } else {
        let a = block_nesting(sts.drop_last());
        let b = stmt_nesting(sts.last());
        if a >= b { a } else { b }
    }
}

/// A new local of the current scope.
pub open spec fn with_local(c: CompView, name: Seq<char>) -> CompView {
    CompView { locals: c.locals.push(LocalView { name, depth: c.depth, captured: false }), ..c }
}

/// The head of an iteration of a `for` loop once its condition is on the stack: leave the
/// loop when it is false, else pop it and store the element at the index in the item's slot.
pub open spec fn for_fetch(iter_slot: int, idx_slot: int, item_slot: int) -> Seq<u8> {
    seq![op_byte(OpCode::JumpIfFalse), 0xFFu8, 0xFFu8, op_byte(OpCode::Pop)] + op16(
        OpCode::GetLocal,
        iter_slot as usize as u16,
    ) + op16(OpCode::GetLocal, idx_slot as usize as u16) + seq![op_byte(OpCode::IndexGet)] + op16(
        OpCode::SetLocal,
        item_slot as usize as u16,
    ) + seq![op_byte(OpCode::Pop)]
}

/// The compiler after compiling statement `st` in a function named `fname`.
pub open spec fn stmt_spec(c: CompView, fname: Seq<char>, st: Statement) -> CompView
    decreases st,
{
    match st {
        Statement::While { condition, body, .. } => {
            let start = c.code.len();
            let a = expr_spec(c, condition);
            let exit_at = a.code.len() + 1int;
            let b = emitted(a, seq![op_byte(OpCode::JumpIfFalse), 0xFFu8, 0xFFu8, op_byte(OpCode::Pop)]);
            let fresh = LoopView { breaks: seq![], continues: seq![], local_count: b.locals.len() as usize };
            let inner = CompView { depth: (b.depth + 1) as usize, loops: b.loops.push(fresh), ..b };
            let e = scope_end(block_spec(inner, fname, body@));
            let ctx = e.loops.last();
            let d = patch_all(CompView { loops: e.loops.drop_last(), ..e }, ctx.continues);
            let l = emitted(d, seq![op_byte(OpCode::Loop)] + u16_bytes((d.code.len() + 1 - start + 2) as u16));
            patch_all(emitted(patched(l, exit_at), seq![op_byte(OpCode::Pop)]), ctx.breaks)
        },
        Statement::For { item, iter, body, .. } => {
            let a = expr_spec(c, iter);
            let iter_slot = a.locals.len() as int;
            let idx_slot = iter_slot + 1;
            let item_slot = iter_slot + 2;
            let s1 = with_local(CompView { depth: (a.depth + 1) as usize, ..a }, "__iter"@);
            let s2 = with_local(with_constant(s1, ValueView::Int(0), OpCode::Constant), "__idx"@);
            let s3 = with_local(emitted(s2, seq![op_byte(OpCode::Nil)]), item@);
            let start = s3.code.len();
            let s4 = with_constant(
                emitted(s3, op16(OpCode::GetLocal, idx_slot as usize as u16)),
                ValueView::String("len"@),
                OpCode::GetGlobal,
            );
            let s5 = emitted(
                s4,
                op16(OpCode::GetLocal, iter_slot as usize as u16) + seq![op_byte(OpCode::Call), 1u8, op_byte(OpCode::Less)],
            );
            let exit_at = s5.code.len() + 1int;
            let b = emitted(s5, for_fetch(iter_slot, idx_slot, item_slot));
            let fresh = LoopView { breaks: seq![], continues: seq![], local_count: b.locals.len() as usize };
            let inner = CompView { depth: (b.depth + 1) as usize, loops: b.loops.push(fresh), ..b };
            let e = scope_end(block_spec(inner, fname, body@));
            let ctx = e.loops.last();
            let d = patch_all(CompView { loops: e.loops.drop_last(), ..e }, ctx.continues);
            let g = emitted(
                with_constant(emitted(d, op16(OpCode::GetLocal, idx_slot as usize as u16)), ValueView::Int(1), OpCode::Constant),
                seq![op_byte(OpCode::Add)] + op16(OpCode::SetLocal, idx_slot as usize as u16) + seq![op_byte(OpCode::Pop)],
            );
            let l = emitted(g, seq![op_byte(OpCode::Loop)] + u16_bytes((g.code.len() + 1 - start + 2) as u16));
            scope_end(patch_all(emitted(patched(l, exit_at), seq![op_byte(OpCode::Pop)]), ctx.breaks))
        },
        Statement::Break(_) => jump_out(c, true),
        Statement::Continue(_) => jump_out(c, false),
        Statement::Expr(e) => emitted(expr_spec(c, e), seq![op_byte(OpCode::Pop)]),
        Statement::Let { name, initializer, .. } => {
            let a = match initializer {
                Some(e) => expr_spec(c, e),
                None => emitted(c, seq![op_byte(OpCode::Nil)]),
            };
            if !top_level(fname) && a.depth > 0 {
                CompView {
                    locals: a.locals.push(LocalView { name: name@, depth: a.depth, captured: false }),
                    ..a
                }
            } else {
                with_constant(a, ValueView::String(name@), OpCode::DefineGlobal)
            }
        },
        Statement::Assign { target, op, value, .. } => {
            let a = match op {
                AssignOp::Assign => expr_spec(c, value),
                _ => emitted(
                    expr_spec(expr_spec(c, Expr::Ident(target, Span { line: 0, col: 0 })), value),
                    seq![op_byte(assign_opcode(op))],
                ),
            };
            if a.globals.contains(target@) {
                set_global(a, target@)
            } else {
                let (slot, r) = resolve_spec(a, target@);
                match slot {
                    Some(i) => emitted(r, op16(OpCode::SetLocal, i as usize as u16) + seq![op_byte(OpCode::Pop)]),
                    None => if !top_level(fname) && op is Assign {
                        CompView {
                            locals: r.locals.push(LocalView { name: target@, depth: r.depth, captured: false }),
                            ..r
                        }
                    } else {
                        set_global(r, target@)
                    },
                }
            }
        },
        Statement::Global(names, _) => CompView { globals: add_globals(c.globals, name_views(names@)), ..c },
        Statement::Pass(_) => c,
        Statement::Return { value, .. } => {
            let a = match value {
                Some(e) => expr_spec(c, e),
                None => emitted(c, seq![op_byte(OpCode::Nil)]),
            };
            emitted(a, seq![op_byte(OpCode::Return)])
        },
    }
}

/// The compiler after compiling the statements in order.
pub open spec fn block_spec(c: CompView, fname: Seq<char>, sts: Seq<Statement>) -> CompView
    decreases sts,
{
    if sts.len() == 0 {
        c
    } else {
        stmt_spec(block_spec(c, fname, sts.drop_last()), fname, sts.last())
    }
}

fn expr_span(e: &Expr) -> (s: Span) {
    match e {
        Expr::Literal(_, s) => *s,
        Expr::Ident(_, s) => *s,
        Expr::Binary(_, _, _, s) => *s,
        Expr::Unary(_, _, s) => *s,
        Expr::Array(_, s) => *s,
        Expr::Tuple(_, s) => *s,
        Expr::SetLit(_, s) => *s,
        Expr::Index(_, _, s) => *s,
        Expr::Call(_, _, s) => *s,
    }
}

impl BytecodeCompiler {
    fn is_top_level(&self) -> (r: bool)
        ensures
            r == top_level(self.function.name@),
    {
        let main = String::from_str("<main>");
        let repl = String::from_str("<repl>");
        self.function.name == main || self.function.name == repl
    }

    fn store_global(&mut self, name: &String, id_span: Span, span: Span)
        requires
            old(self).wf(),
        ensures
            final(self).wf(),
            same_frame(old(self), final(self)),
            comp_view(final(self)) == set_global(comp_view(old(self)), name@),
            final(self).code().len() >= old(self).code().len(),
    {
        self.load_constant(Value::String(name.clone()), OpCode::SetGlobal, id_span);
        let ghost a = comp_view(self);
        self.emit_op(OpCode::Pop, span);
        assert(comp_view(self).code =~= a.code + seq![op_byte(OpCode::Pop)]);
    }

    fn new_local(&mut self, name: &String, span: Span)
        requires
            old(self).wf(),
        ensures
            final(self).wf(),
            same_frame(old(self), final(self)),
            comp_view(final(self)) == (CompView {
                locals: comp_view(old(self)).locals.push(
                    LocalView { name: name@, depth: old(self).scope_depth, captured: false },
                ),
                ..comp_view(old(self))
            }),
            final(self).code().len() >= old(self).code().len(),
    {
        let _ = self.add_local(name.clone(), span);
        assert(local_views(self.locals@) =~= local_views(old(self).locals@).push(
            LocalView { name: name@, depth: old(self).scope_depth, captured: false },
        ));
    }

    /// Compiles a statement, appending its code (and constants) to the function; `break` and
    /// `continue` outside a loop are refused.
    pub fn compile_statement(&mut self, stmt: &Statement) -> (r: Result<(), String>)
        requires
            old(self).wf(),
            old(self).scope_depth + stmt_nesting(*stmt) <= usize::MAX,
            jumps_fit(comp_view(old(self))),
        ensures
            final(self).wf(),
            jumps_fit(comp_view(final(self))),
            match stmt_result(comp_view(old(self)), *stmt) {
                Ok(_) => r is Ok,
                Err(m) => r matches Err(e) && e@ == m,
            },
            r is Ok ==> same_stmt_frame(old(self), final(self)),
            r is Ok ==> comp_view(final(self)) == stmt_spec(comp_view(old(self)), old(self).function.name@, *stmt),
            r is Ok ==> final(self).code().len() >= old(self).code().len(),
        decreases stmt, 2nat,
    {
        match stmt {
            Statement::While { condition, body, span } => self.compile_while(condition, body, *span),
            Statement::For { item, iter, body, span } => self.compile_for(item, iter, body, *span),
            Statement::Break(span) => self.compile_jump_out(true, *span),
            Statement::Continue(span) => self.compile_jump_out(false, *span),
            _ => {
                let ghost c0 = comp_view(self);
                let r = self.compile_simple(stmt);
                proof {
                    lemma_fit_grow(c0, comp_view(self));
                }
                r
            },
        }
    }

    /// Compiles a statement that is no loop, `break` or `continue`.
    #[verifier::rlimit(60)]
    fn compile_simple(&mut self, stmt: &Statement) -> (r: Result<(), String>)
        requires
            old(self).wf(),
            !(stmt is While || stmt is For || stmt is Break || stmt is Continue),
        ensures
            final(self).wf(),
            r is Ok,
            same_frame(old(self), final(self)),
            comp_view(final(self)) == stmt_spec(comp_view(old(self)), old(self).function.name@, *stmt),
            final(self).code().len() >= old(self).code().len(),
    {
        let ghost c0 = comp_view(self);
        match stmt {
            Statement::While { .. } => {},
            Statement::For { .. } => {},
            Statement::Break(_) => {},
            Statement::Continue(_) => {},
            Statement::Expr(e) => {
                self.compile_expression(e)?;
                let ghost a = comp_view(self);
                self.emit_op(OpCode::Pop, expr_span(e));
                assert(comp_view(self).code =~= a.code + seq![op_byte(OpCode::Pop)]);
            },
            Statement::Let { name, initializer, span } => {
                match initializer {
                    Some(init) => {
                        self.compile_expression(init)?;
                    },
                    None => {
                        self.emit_op(OpCode::Nil, *span);
                        assert(comp_view(self).code =~= c0.code + seq![op_byte(OpCode::Nil)]);
                    },
                }
                if !self.is_top_level() && self.scope_depth > 0 {
                    self.new_local(name, *span);
                } else {
                    self.load_constant(Value::String(name.clone()), OpCode::DefineGlobal, *span);
                }
            },
            Statement::Assign { target, target_span, op, value, span } => {
                let ghost a;
                match op {
                    AssignOp::Assign => {
                        self.compile_expression(value)?;
                        proof { a = comp_view(self); }
                    },
                    _ => {
                        let ident = Expr::Ident(target.clone(), Span { line: 0, col: 0 });
                        let ghost before = comp_view(self);
                        self.compile_expression(&ident)?;
                        self.compile_expression(value)?;
                        let ghost b = comp_view(self);
                        let o = match op {
                            AssignOp::AddAssign => OpCode::Add,
                            AssignOp::SubAssign => OpCode::Sub,
                            AssignOp::MulAssign => OpCode::Mul,
                            AssignOp::DivAssign => OpCode::Div,
                            _ => OpCode::Mod,
                        };
                        self.emit_op(o, *span);
                        assert(comp_view(self).code =~= b.code + seq![op_byte(o)]);
                        proof { a = comp_view(self); }
                    },
                }
                if contains_name(&self.global_vars, target) {
                    self.store_global(target, *target_span, *span);
                } else {
                    match self.resolve_name(target) {
                        Some(i) => {
                            let ghost m = comp_view(self);
                            self.emit_op(OpCode::SetLocal, *target_span);
                            #[verifier::truncate]
                            let operand = i as u16;
                            self.emit_u16(operand, *target_span);
                            self.emit_op(OpCode::Pop, *span);
                            assert(comp_view(self).code =~= m.code + (op16(OpCode::SetLocal, operand)
                                + seq![op_byte(OpCode::Pop)]));
                        },
                        None => {
                            let assign = match op {
                                AssignOp::Assign => true,
                                _ => false,
                            };
                            if !self.is_top_level() && assign {
                                self.new_local(target, *target_span);
                            } else {
                                self.store_global(target, *target_span, *span);
                            }
                        },
                    }
                }
            },
            Statement::Global(names, _) => {
                let mut i: usize = 0;
                while i < names.len()
                    invariant
                        self.wf(),
                        same_frame(old(self), self),
                        i <= names@.len(),
                        self.code().len() == old(self).code().len(),
                        comp_view(self) == (CompView {
                            globals: add_globals(c0.globals, name_views(names@).take(i as int)),
                            ..c0
                        }),
                    decreases names@.len() - i,
                {
                    let ghost g = name_views(self.global_vars@);
                    if !contains_name(&self.global_vars, &names[i]) {
                        self.global_vars.push(names[i].clone());
                        assert(name_views(self.global_vars@) =~= g.push(names@[i as int]@));
                    }
                    proof {
                        let t = name_views(names@).take(i + 1);
                        assert(t.drop_last() =~= name_views(names@).take(i as int));
                        assert(t.last() == names@[i as int]@);
                    }
                    i = i + 1;
                }
                assert(name_views(names@).take(names@.len() as int) =~= name_views(names@));
            },
            Statement::Pass(_) => {},
            Statement::Return { value, span } => {
                match value {
                    Some(v) => {
                        self.compile_expression(v)?;
                    },
                    None => {
                        self.emit_op(OpCode::Nil, *span);
                        assert(comp_view(self).code =~= c0.code + seq![op_byte(OpCode::Nil)]);
                    },
                }
                let ghost a = comp_view(self);
                self.emit_op(OpCode::Return, *span);
                assert(comp_view(self).code =~= a.code + seq![op_byte(OpCode::Return)]);
            },
        }
        Ok(())
    }

    /// Compiles a `while` loop: the condition, a jump out when it is false, the body in a
    /// scope of its own, and a jump back to the condition; the body's `continue`s jump to that
    /// jump back, its `break`s past the loop.
    fn compile_while(&mut self, condition: &Expr, body: &Vec<Statement>, span: Span) -> (r: Result<(), String>)
        requires
            old(self).wf(),
            old(self).scope_depth + 1 + block_nesting(body@) <= usize::MAX,
            jumps_fit(comp_view(old(self))),
        ensures
            final(self).wf(),
            jumps_fit(comp_view(final(self))),
            r is Ok,
            same_stmt_frame(old(self), final(self)),
            comp_view(final(self)) == stmt_spec(
                comp_view(old(self)),
                old(self).function.name@,
                Statement::While { condition: *condition, body: *body, span },
            ),
            final(self).code().len() >= old(self).code().len(),
        decreases body, 1nat,
    {
        let ghost c0 = comp_view(self);
        let ghost f = self.function.name@;
        let loop_start = self.function.chunk.code.len();
        self.compile_expression(condition)?;
        let ghost a = comp_view(self);
        let exit_jump = self.emit_jump(OpCode::JumpIfFalse, span);
        self.emit_op(OpCode::Pop, span);
        let ghost b = emitted(a, seq![op_byte(OpCode::JumpIfFalse), 0xFFu8, 0xFFu8, op_byte(OpCode::Pop)]);
        assert(comp_view(self).code =~= b.code);
        assert(comp_view(self) == b);
        self.begin_scope();
        let local_count = self.locals.len();
        let ghost fresh = LoopView { breaks: seq![], continues: seq![], local_count: b.locals.len() as usize };
        let ctx0 = LoopContext { break_jumps: Vec::new(), continue_jumps: Vec::new(), local_count };
        let ghost st0 = self.loop_stack@;
        self.loop_stack.push(ctx0);
        proof {
            assert(loop_views(self.loop_stack@) =~= loop_views(st0).push(fresh));
            assert(comp_view(self) == (CompView { depth: (b.depth + 1) as usize, loops: b.loops.push(fresh), ..b }));
            assert(comp_view(self).loops.drop_last() =~= b.loops);
            lemma_fit_push(b, comp_view(self));
        }
        let ghost inner = comp_view(self);
        let body_result = self.compile_prefix(body, body.len());
        assert(body@.take(body@.len() as int) =~= body@);
        match body_result {
            Ok(_) => {},
            Err(e) => {
                return Err(e);
            },
        }
        let ghost after_body = comp_view(self);
        let ghost ls = self.locals@;
        self.end_scope(span);
        proof {
            lemma_kept_views(ls, self.scope_depth);
            assert(local_views(ls.take(locals_kept(ls, self.scope_depth) as int)) =~= local_views(ls).take(
                kept_views(local_views(ls), self.scope_depth) as int,
            ));
            assert(comp_view(self) == scope_end(after_body));
            lemma_fit_grow(after_body, comp_view(self));
        }
        let ghost e = comp_view(self);
        let ghost stack_before = self.loop_stack@;
        let ctx = self.loop_stack.pop().unwrap();
        proof {
            assert(loop_views(self.loop_stack@) =~= e.loops.drop_last());
            assert(ctx == stack_before.last());
            lemma_fit_pop(e, comp_view(self));
        }
        let ghost popped_view = comp_view(self);
        self.patch_jumps(&ctx.continue_jumps);
        let ghost d = comp_view(self);
        self.emit_loop(loop_start, span);
        let ghost l = emitted(d, seq![op_byte(OpCode::Loop)] + u16_bytes((d.code.len() + 1 - loop_start + 2) as u16));
        assert(comp_view(self).code =~= l.code);
        assert(comp_view(self) == l);
        self.patch_jump(exit_jump);
        assert(comp_view(self) == patched(l, a.code.len() + 1int));
        let ghost p = comp_view(self);
        self.emit_op(OpCode::Pop, span);
        assert(comp_view(self).code =~= p.code + seq![op_byte(OpCode::Pop)]);
        let ghost q = comp_view(self);
        proof {
            lemma_fit_grow(popped_view, q);
        }
        self.patch_jumps(&ctx.break_jumps);
        Ok(())
    }

    fn emit_op16(&mut self, op: OpCode, val: u16, span: Span)
        requires
            old(self).wf(),
        ensures
            final(self).wf(),
            same_frame(old(self), final(self)),
            comp_view(final(self)) == emitted(comp_view(old(self)), op16(op, val)),
    {
        let ghost c0 = comp_view(self);
        self.emit_op(op, span);
        self.emit_u16(val, span);
        assert(comp_view(self).code =~= c0.code + op16(op, val));
    }

    /// Compiles a `for` loop over the elements of a list: the list, an index from zero and the
    /// item are locals of a scope of their own; each iteration compares the index with the
    /// list's `len`, leaves when it is not smaller, stores the element in the item, runs the
    /// body in a scope of its own and adds one to the index. The body's `continue`s jump to that
    /// increment, its `break`s past the loop.
    #[verifier::rlimit(100)]
    #[verifier::spinoff_prover]
    fn compile_for(&mut self, item: &String, iter: &Expr, body: &Vec<Statement>, span: Span) -> (r: Result<
        (),
        String,
    >)
        requires
            old(self).wf(),
            old(self).scope_depth + 2 + block_nesting(body@) <= usize::MAX,
            jumps_fit(comp_view(old(self))),
        ensures
            final(self).wf(),
            jumps_fit(comp_view(final(self))),
            r is Ok,
            same_stmt_frame(old(self), final(self)),
            comp_view(final(self)) == stmt_spec(
                comp_view(old(self)),
                old(self).function.name@,
                Statement::For { item: *item, iter: *iter, body: *body, span },
            ),
            final(self).code().len() >= old(self).code().len(),
        decreases body, 1nat,
    {
        let ghost c0 = comp_view(self);
        let ghost f = self.function.name@;
        self.compile_expression(iter)?;
        let ghost a = comp_view(self);
        self.begin_scope();
        let iter_slot = self.locals.len();
        let iter_name = String::from_str("__iter");
        self.new_local(&iter_name, span);
        let ghost s1 = with_local(CompView { depth: (a.depth + 1) as usize, ..a }, "__iter"@);
        assert(comp_view(self) == s1);
        self.load_constant(Value::Int(0), OpCode::Constant, span);
        let idx_slot = self.locals.len();
        let idx_name = String::from_str("__idx");
        self.new_local(&idx_name, span);
        let ghost s2 = with_local(with_constant(s1, ValueView::Int(0), OpCode::Constant), "__idx"@);
        assert(comp_view(self) == s2);
        self.emit_op(OpCode::Nil, span);
        assert(comp_view(self).code =~= s2.code + seq![op_byte(OpCode::Nil)]);
        let item_slot = self.locals.len();
        self.new_local(item, span);
        let ghost s3 = with_local(emitted(s2, seq![op_byte(OpCode::Nil)]), item@);
        assert(comp_view(self) == s3);
        let loop_start = self.function.chunk.code.len();
        self.emit_op16(OpCode::GetLocal, idx_slot as u16, span);
        self.load_constant(Value::String(String::from_str("len")), OpCode::GetGlobal, span);
        let ghost s4 = comp_view(self);
        self.emit_op16(OpCode::GetLocal, iter_slot as u16, span);
        self.emit_op(OpCode::Call, span);
        self.emit_byte(1, span);
        self.emit_op(OpCode::Less, span);
        assert(comp_view(self).code =~= s4.code + (op16(OpCode::GetLocal, iter_slot as u16) + seq![
            op_byte(OpCode::Call),
            1u8,
            op_byte(OpCode::Less),
        ]));
        let ghost s5 = comp_view(self);
        let exit_jump = self.emit_jump(OpCode::JumpIfFalse, span);
        self.emit_op(OpCode::Pop, span);
        self.emit_op16(OpCode::GetLocal, iter_slot as u16, span);
        self.emit_op16(OpCode::GetLocal, idx_slot as u16, span);
        self.emit_op(OpCode::IndexGet, span);
        self.emit_op16(OpCode::SetLocal, item_slot as u16, span);
        self.emit_op(OpCode::Pop, span);
        let ghost b = emitted(s5, for_fetch(iter_slot as int, idx_slot as int, item_slot as int));
        assert(comp_view(self).code =~= b.code);
        assert(comp_view(self) == b);
        proof {
            lemma_fit_grow(c0, b);
        }
        self.begin_scope();
        let local_count = self.locals.len();
        let ghost fresh = LoopView { breaks: seq![], continues: seq![], local_count: b.locals.len() as usize };
        let ctx0 = LoopContext { break_jumps: Vec::new(), continue_jumps: Vec::new(), local_count };
        let ghost st0 = self.loop_stack@;
        self.loop_stack.push(ctx0);
        proof {
            assert(loop_views(self.loop_stack@) =~= loop_views(st0).push(fresh));
            assert(comp_view(self) == (CompView { depth: (b.depth + 1) as usize, loops: b.loops.push(fresh), ..b }));
            assert(comp_view(self).loops.drop_last() =~= b.loops);
            lemma_fit_push(b, comp_view(self));
        }
        let body_result = self.compile_prefix(body, body.len());
        assert(body@.take(body@.len() as int) =~= body@);
        match body_result {
            Ok(_) => {},
            Err(e) => {
                return Err(e);
            },
        }
        let ghost after_body = comp_view(self);
        let ghost ls = self.locals@;
        self.end_scope(span);
        proof {
            lemma_kept_views(ls, self.scope_depth);
            assert(local_views(ls.take(locals_kept(ls, self.scope_depth) as int)) =~= local_views(ls).take(
                kept_views(local_views(ls), self.scope_depth) as int,
            ));
            assert(comp_view(self) == scope_end(after_body));
            lemma_fit_grow(after_body, comp_view(self));
        }
        let ghost e = comp_view(self);
        let ghost stack_before = self.loop_stack@;
        let ctx = self.loop_stack.pop().unwrap();
        proof {
            assert(loop_views(self.loop_stack@) =~= e.loops.drop_last());
            assert(ctx == stack_before.last());
            lemma_fit_pop(e, comp_view(self));
        }
        let ghost popped_view = comp_view(self);
        self.patch_jumps(&ctx.continue_jumps);
        let ghost d = comp_view(self);
        self.emit_op16(OpCode::GetLocal, idx_slot as u16, span);
        self.load_constant(Value::Int(1), OpCode::Constant, span);
        let ghost d2 = comp_view(self);
        self.emit_op(OpCode::Add, span);
        self.emit_op16(OpCode::SetLocal, idx_slot as u16, span);
        self.emit_op(OpCode::Pop, span);
        assert(comp_view(self).code =~= d2.code + (seq![op_byte(OpCode::Add)] + op16(OpCode::SetLocal, idx_slot as u16)
            + seq![op_byte(OpCode::Pop)]));
        let ghost g = comp_view(self);
        self.emit_loop(loop_start, span);
        let ghost l = emitted(g, seq![op_byte(OpCode::Loop)] + u16_bytes((g.code.len() + 1 - loop_start + 2) as u16));
        assert(comp_view(self).code =~= l.code);
        assert(comp_view(self) == l);
        self.patch_jump(exit_jump);
        assert(comp_view(self) == patched(l, s5.code.len() + 1int));
        let ghost p = comp_view(self);
        self.emit_op(OpCode::Pop, span);
        assert(comp_view(self).code =~= p.code + seq![op_byte(OpCode::Pop)]);
        let ghost q = comp_view(self);
        proof {
            lemma_fit_grow(popped_view, q);
        }
        self.patch_jumps(&ctx.break_jumps);
        let ghost h = comp_view(self);
        let ghost ls2 = self.locals@;
        self.end_scope(span);
        proof {
            lemma_kept_views(ls2, self.scope_depth);
            assert(local_views(ls2.take(locals_kept(ls2, self.scope_depth) as int)) =~= local_views(ls2).take(
                kept_views(local_views(ls2), self.scope_depth) as int,
            ));
            assert(comp_view(self) == scope_end(h));
            lemma_fit_grow(h, comp_view(self));
        }
        Ok(())
    }

    /// Fills the jump operands at `jumps`, in order, each with the distance to the end of the
    /// code.
    fn patch_jumps(&mut self, jumps: &Vec<usize>)
        requires
            old(self).wf(),
            jumps_fit(comp_view(old(self))),
            forall|j: int| 0 <= j < jumps@.len() ==> #[trigger] jumps@[j] + 2 <= old(self).code().len(),
        ensures
            final(self).wf(),
            jumps_fit(comp_view(final(self))),
            comp_view(final(self)) == patch_all(comp_view(old(self)), jumps@),
            final(self).code().len() == old(self).code().len(),
            same_frame(old(self), final(self)),
            final(self).scope_depth == old(self).scope_depth,
    {
        let ghost c0 = comp_view(self);
        let mut i: usize = 0;
        assert(jumps@.take(0) =~= Seq::<usize>::empty());
        while i < jumps.len()
            invariant
                self.wf(),
                i <= jumps@.len(),
                forall|j: int| 0 <= j < jumps@.len() ==> #[trigger] jumps@[j] + 2 <= c0.code.len(),
                comp_view(self) == patch_all(c0, jumps@.take(i as int)),
                self.code().len() == c0.code.len(),
                jumps_fit(comp_view(self)),
                same_frame(old(self), self),
                self.scope_depth == old(self).scope_depth,
                c0 == comp_view(old(self)),
            decreases jumps@.len() - i,
        {
            let ghost before = comp_view(self);
            let at = jumps[i];
            self.patch_jump(at);
            proof {
                assert(jumps@.take(i + 1).drop_last() =~= jumps@.take(i as int));
                lemma_fit_same_len(before, comp_view(self));
            }
            i = i + 1;
        }
        assert(jumps@.take(jumps@.len() as int) =~= jumps@);
    }

    /// Compiles `break` (or `continue`): pops the locals made since the innermost loop began
    /// and leaves a jump for the loop to fill; refused outside a loop.
    fn compile_jump_out(&mut self, is_break: bool, span: Span) -> (r: Result<(), String>)
        requires
            old(self).wf(),
            jumps_fit(comp_view(old(self))),
        ensures
            final(self).wf(),
            jumps_fit(comp_view(final(self))),
            old(self).loop_stack@.len() == 0 ==> (r matches Err(e) && e@ == (if is_break {
                "Cannot use 'break' outside of a loop"@
            } else {
                "Cannot use 'continue' outside of a loop"@
            })),
            old(self).loop_stack@.len() > 0 ==> r is Ok && same_stmt_frame(old(self), final(self))
                && comp_view(final(self)) == jump_out(comp_view(old(self)), is_break)
                && final(self).code().len() >= old(self).code().len(),
    {
        if self.loop_stack.len() == 0 {
            proof {
                reveal_strlit("Cannot use 'break' outside of a loop");
                reveal_strlit("Cannot use 'continue' outside of a loop");
            }
            return if is_break {
                Err(string_of("Cannot use 'break' outside of a loop"))
            } else {
                Err(string_of("Cannot use 'continue' outside of a loop"))
            };
        }
        let ghost c0 = comp_view(self);
        let last = self.loop_stack.len() - 1;
        let count = self.loop_stack[last].local_count;
        let to_pop: usize = if self.locals.len() >= count { self.locals.len() - count } else { 0 };
        let mut i: usize = 0;
        while i < to_pop
            invariant
                self.wf(),
                i <= to_pop,
                same_but_code(old(self), self),
                self.code() == c0.code + pops(i as nat),
            decreases to_pop - i,
        {
            self.emit_op(OpCode::Pop, span);
            assert(c0.code + pops(i as nat) + seq![op_byte(OpCode::Pop)] =~= c0.code + pops((i + 1) as nat));
            i = i + 1;
        }
        let jump = self.emit_jump(OpCode::Jump, span);
        let ghost a = comp_view(self);
        assert(a.code =~= c0.code + (pops(to_pop as nat) + seq![op_byte(OpCode::Jump), 0xFFu8, 0xFFu8]));
        let ghost st = self.loop_stack@;
        let mut ctx = self.loop_stack.pop().unwrap();
        if is_break {
            ctx.break_jumps.push(jump);
        } else {
            ctx.continue_jumps.push(jump);
        }
        self.loop_stack.push(ctx);
        proof {
            let v = loop_views(st).last();
            assert(v == loop_views(st)[st.len() - 1]);
            assert(loop_views(self.loop_stack@) =~= c0.loops.update(c0.loops.len() - 1, if is_break {
                LoopView { breaks: v.breaks.push(jump), ..v }
            } else {
                LoopView { continues: v.continues.push(jump), ..v }
            }));
            assert(comp_view(self) == jump_out(c0, is_break));
            lemma_fit_record(c0, comp_view(self), is_break, jump);
        }
        Ok(())
    }

    /// Compiles the statements in order.
    pub fn compile_block(&mut self, stmts: &Vec<Statement>) -> (r: Result<(), String>)
        requires
            old(self).wf(),
            old(self).scope_depth + block_nesting(stmts@) <= usize::MAX,
            jumps_fit(comp_view(old(self))),
        ensures
            final(self).wf(),
            jumps_fit(comp_view(final(self))),
            match block_result(comp_view(old(self)), old(self).function.name@, stmts@) {
                Ok(_) => r is Ok,
                Err(m) => r matches Err(e) && e@ == m,
            },
            r is Ok ==> same_stmt_frame(old(self), final(self)),
            r is Ok ==> comp_view(final(self)) == block_spec(comp_view(old(self)), old(self).function.name@, stmts@),
    {
        assert(stmts@.take(stmts@.len() as int) =~= stmts@);
        self.compile_prefix(stmts, stmts.len())
    }
}

/// A parsed program: its statements and where it stands in the source.
pub struct Program {
    pub statements: Vec<Statement>,
    pub span: Span,
}

/// The compiler after compiling a whole program: its statements in order, then a return of the
/// last statement's value where that statement is an expression, and of nil otherwise.
pub open spec fn program_spec(c: CompView, fname: Seq<char>, sts: Seq<Statement>) -> CompView {
    if sts.len() > 0 && sts.last() is Expr {
        emitted(
            expr_spec(block_spec(c, fname, sts.drop_last()), sts.last()->Expr_0),
            seq![op_byte(OpCode::Return)],
        )
    } else {
        emitted(block_spec(c, fname, sts), seq![op_byte(OpCode::Nil), op_byte(OpCode::Return)])
    }
}

/// Whether compiling a whole program fails, with the first failure.
pub open spec fn program_result(c: CompView, fname: Seq<char>, sts: Seq<Statement>) -> Result<(), Seq<char>> {
    if sts.len() > 0 && sts.last() is Expr {
        block_result(c, fname, sts.drop_last())
    } else {
        block_result(c, fname, sts)
    }
}

impl BytecodeCompiler {
    /// Compiles the first `k` statements in order.
    fn compile_prefix(&mut self, stmts: &Vec<Statement>, k: usize) -> (r: Result<(), String>)
        requires
            old(self).wf(),
            k <= stmts@.len(),
            old(self).scope_depth + block_nesting(stmts@) <= usize::MAX,
            jumps_fit(comp_view(old(self))),
        ensures
            final(self).wf(),
            jumps_fit(comp_view(final(self))),
            match block_result(comp_view(old(self)), old(self).function.name@, stmts@.take(k as int)) {
                Ok(_) => r is Ok,
                Err(m) => r matches Err(e) && e@ == m,
            },
            old(self).loop_stack@.len() > 0 ==> r is Ok,
            r is Ok ==> same_stmt_frame(old(self), final(self)),
            r is Ok ==> final(self).code().len() >= old(self).code().len(),
            r is Ok ==> comp_view(final(self)) == block_spec(comp_view(old(self)), old(self).function.name@, stmts@.take(k as int)),
        decreases stmts, 0nat,
    {
        let ghost c0 = comp_view(self);
        let ghost f = self.function.name@;
        let mut i: usize = 0;
        assert(stmts@.take(0) =~= Seq::<Statement>::empty());
        while i < k
            invariant
                self.wf(),
                jumps_fit(comp_view(self)),
                same_stmt_frame(old(self), self),
                self.scope_depth + block_nesting(stmts@) <= usize::MAX,
                self.code().len() >= old(self).code().len(),
                f == old(self).function.name@,
                c0 == comp_view(old(self)),
                i <= k <= stmts@.len(),
                block_result(c0, f, stmts@.take(i as int)) is Ok,
                comp_view(self) == block_spec(c0, f, stmts@.take(i as int)),
            decreases k - i,
        {
            proof {
                lemma_nesting_bound(stmts@, i as int);
                let t = stmts@.take(i + 1);
                assert(t.drop_last() =~= stmts@.take(i as int));
                assert(t.last() == stmts@[i as int]);
            }
            match self.compile_statement(&stmts[i]) {
                Ok(_) => {},
                Err(e) => {
                    proof {
                        lemma_block_err(c0, f, stmts@, i + 1, k as int);
                    }
                    return Err(e);
                },
            }
            i = i + 1;
        }
        Ok(())
    }

    /// Compiles a whole program into the function being built and hands that function back.
    pub fn compile(self, program: &Program) -> (r: Result<CompiledFunction, String>)
        requires
            self.wf(),
            self.scope_depth + block_nesting(program.statements@) <= usize::MAX,
            jumps_fit(comp_view(&self)),
        ensures
            match program_result(comp_view(&self), self.function.name@, program.statements@) {
                Ok(_) => r is Ok,
                Err(m) => r matches Err(e) && e@ == m,
            },
            r is Ok ==> r->Ok_0.name@ == self.function.name@,
            r is Ok ==> r->Ok_0.arity == self.function.arity,
            r is Ok ==> r->Ok_0.chunk.wf(),
            r is Ok ==> r->Ok_0.chunk.code@ == program_spec(comp_view(&self), self.function.name@, program.statements@).code,
            r is Ok ==> r->Ok_0.chunk.constant_views() == program_spec(
                comp_view(&self),
                self.function.name@,
                program.statements@,
            ).constants,
    {
        let ghost c0 = comp_view(&self);
        let ghost f = self.function.name@;
        let ghost sts = program.statements@;
        let mut this = self;
        let total = program.statements.len();
        if total > 0 {
            if let Statement::Expr(expr) = &program.statements[total - 1] {
                proof {
                    assert(sts.take(total - 1) =~= sts.drop_last());
                    lemma_nesting_prefix(sts, total - 1);
                }
                match this.compile_prefix(&program.statements, total - 1) {
                    Ok(_) => {},
                    Err(e) => {
                        return Err(e);
                    },
                }
                this.compile_expression(expr)?;
                let ghost a = comp_view(&this);
                this.emit_op(OpCode::Return, expr_span(expr));
                proof {
                    assert(comp_view(&this).code =~= a.code + seq![op_byte(OpCode::Return)]);
                }
                return Ok(this.function);
            }
        }
        proof {
            assert(sts.take(total as int) =~= sts);
        }
        match this.compile_prefix(&program.statements, total) {
            Ok(_) => {},
            Err(e) => {
                return Err(e);
            },
        }
        let ghost b = comp_view(&this);
        this.emit_op(OpCode::Nil, program.span);
        this.emit_op(OpCode::Return, program.span);
        assert(comp_view(&this).code =~= b.code + seq![op_byte(OpCode::Nil), op_byte(OpCode::Return)]);
        Ok(this.function)
    }
}

/// An arithmetic or comparison expression compiles to the code of its left operand, then that
/// of its right operand, then the one instruction of that same operator (`+` to `Add`, `%` to
/// `Mod`, `<=` to `LessEqual`, ...); a negation or `not` compiles to its operand's code and then
/// `Negate` or `Not`. A compound assignment combines the old value with the new by the
/// instruction of its operator (`%=` by `Mod`, ...).
pub proof fn lemma_operators_compile_to_their_instructions(c: CompView, l: Expr, op: BinaryOp, r: Expr, u: UnaryOp, span: Span)
    ensures
        ({
            let got = expr_spec(c, Expr::Binary(Box::new(l), op, Box::new(r), span));
            let operands = expr_spec(expr_spec(c, l), r);
            let emits = |o: OpCode| got == emitted(operands, seq![op_byte(o)]);
            &&& op is Add ==> emits(OpCode::Add)
            &&& op is Sub ==> emits(OpCode::Sub)
            &&& op is Mul ==> emits(OpCode::Mul)
            &&& op is Div ==> emits(OpCode::Div)
            &&& op is Mod ==> emits(OpCode::Mod)
            &&& op is Pow ==> emits(OpCode::Pow)
            &&& op is Equal ==> emits(OpCode::Equal)
            &&& op is NotEqual ==> emits(OpCode::NotEqual)
            &&& op is Less ==> emits(OpCode::Less)
            &&& op is LessEqual ==> emits(OpCode::LessEqual)
            &&& op is Greater ==> emits(OpCode::Greater)
            &&& op is GreaterEqual ==> emits(OpCode::GreaterEqual)
        }),
        ({
            let got = expr_spec(c, Expr::Unary(u, Box::new(l), span));
            &&& u is Negate ==> got == emitted(expr_spec(c, l), seq![op_byte(OpCode::Negate)])
            &&& u is Not ==> got == emitted(expr_spec(c, l), seq![op_byte(OpCode::Not)])
        }),
        assign_opcode(AssignOp::AddAssign) == OpCode::Add,
        assign_opcode(AssignOp::SubAssign) == OpCode::Sub,
        assign_opcode(AssignOp::MulAssign) == OpCode::Mul,
        assign_opcode(AssignOp::DivAssign) == OpCode::Div,
        assign_opcode(AssignOp::ModAssign) == OpCode::Mod,
{
}

proof fn lemma_last_local_view(ls: Seq<LocalView>, name: Seq<char>, i: int, n: int)
    requires
        0 <= i < n <= ls.len(),
        ls[i].name == name,
        forall|j: int| i < j < ls.len() ==> #[trigger] ls[j].name != name,
    ensures
        last_local(ls, name, n) == Some(i),
    decreases n,
{
    if n - 1 > i {
        lemma_last_local_view(ls, name, i, n - 1);
    }
}

/// How names and literals compile. A name that is not declared global and is a local loads the
/// innermost local of that name (the last one made); a name declared global is loaded from the
/// globals by a new constant holding the name. An integer or text literal becomes a new last
/// constant, loaded by `Constant`; `true`, `false` and `nil` are their own instructions. A list,
/// tuple or set literal compiles its items in order and then builds a value of that kind from
/// as many items; an index compiles the indexed value, then the index, then `IndexGet`; a call
/// compiles the callee, then its arguments in order, then `Call` with their number.
pub proof fn lemma_names_and_literals_compile(c: CompView, name: String, i: int, v: i64, t: String, es: Vec<Expr>, a: Expr, b: Expr, span: Span)
    ensures
        !c.globals.contains(name@) && 0 <= i < c.locals.len() && c.locals[i].name == name@ && (forall|j: int|
            i < j < c.locals.len() ==> #[trigger] c.locals[j].name != name@) ==> expr_spec(
            c,
            Expr::Ident(name, span),
        ) == emitted(c, op16(OpCode::GetLocal, i as usize as u16)),
        c.globals.contains(name@) ==> expr_spec(c, Expr::Ident(name, span)) == emitted(
            CompView { constants: c.constants.push(ValueView::String(name@)), ..c },
            op16(OpCode::GetGlobal, c.constants.len() as usize as u16),
        ),
        expr_spec(c, Expr::Literal(Literal::Int(v), span)) == emitted(
            CompView { constants: c.constants.push(ValueView::Int(v)), ..c },
            op16(OpCode::Constant, c.constants.len() as usize as u16),
        ),
        expr_spec(c, Expr::Literal(Literal::String(t), span)) == emitted(
            CompView { constants: c.constants.push(ValueView::String(t@)), ..c },
            op16(OpCode::Constant, c.constants.len() as usize as u16),
        ),
        expr_spec(c, Expr::Literal(Literal::Bool(true), span)) == emitted(c, seq![op_byte(OpCode::True)]),
        expr_spec(c, Expr::Literal(Literal::Bool(false), span)) == emitted(c, seq![op_byte(OpCode::False)]),
        expr_spec(c, Expr::Literal(Literal::Nil, span)) == emitted(c, seq![op_byte(OpCode::Nil)]),
        expr_spec(c, Expr::Array(es, span)) == emitted(exprs_spec(c, es@), op16(OpCode::BuildArray, es@.len() as usize as u16)),
        expr_spec(c, Expr::Tuple(es, span)) == emitted(exprs_spec(c, es@), op16(OpCode::BuildTuple, es@.len() as usize as u16)),
        expr_spec(c, Expr::SetLit(es, span)) == emitted(exprs_spec(c, es@), op16(OpCode::BuildSet, es@.len() as usize as u16)),
        expr_spec(c, Expr::Index(Box::new(a), Box::new(b), span)) == emitted(
            expr_spec(expr_spec(c, a), b),
            seq![op_byte(OpCode::IndexGet)],
        ),
        expr_spec(c, Expr::Call(Box::new(a), es, span)) == emitted(
            exprs_spec(expr_spec(c, a), es@),
            seq![op_byte(OpCode::Call), es@.len() as usize as u8],
        ),
        es@.len() > 0 ==> exprs_spec(c, es@) == expr_spec(exprs_spec(c, es@.drop_last()), es@.last()),
        exprs_spec(c, Seq::empty()) == c,
{
    if !c.globals.contains(name@) && 0 <= i < c.locals.len() && c.locals[i].name == name@ && (forall|j: int|
        i < j < c.locals.len() ==> #[trigger] c.locals[j].name != name@) {
        lemma_last_local_view(c.locals, name@, i, c.locals.len() as int);
    }
}

} // verus!
