//! What compiled code computes: for integer and boolean expressions, running the compiler's
//! code with the interpreter leaves the expression's value on the stack.
use vstd::prelude::*;
use crate::bytecode::{lemma_op_byte_roundtrip, lemma_u16_roundtrip, op_byte, OpCode};
use crate::expr_compiler::{
    binary_opcode, expr_spec, op16, BinaryOp, CompView, Expr, Literal,
    UnaryOp,
};
use crate::interpreter::{binary_result, known_falsy, negated, operand, run_spec, step_spec, ActionView, VmView};
use crate::value::ValueView;

verus! {

/// The value of an expression built from integer and boolean literals, `nil`, `not`, negation,
/// and the arithmetic and comparison operators, where every step stays within `i64`; `None`
/// for any other expression or on overflow.
pub open spec fn eval(e: Expr) -> Option<ValueView>
    decreases e,
{
    match e {
        Expr::Literal(Literal::Int(v), _) => Some(ValueView::Int(v)),
        Expr::Literal(Literal::Bool(b), _) => Some(ValueView::Bool(b)),
        Expr::Literal(Literal::Nil, _) => Some(ValueView::Nil),
        Expr::Unary(UnaryOp::Not, inner, _) => match eval(*inner) {
            Some(v) => match known_falsy(v) {
                Some(f) => Some(ValueView::Bool(f)),
                None => None,
            },
            None => None,
        },
        Expr::Unary(UnaryOp::Negate, inner, _) => match eval(*inner) {
            Some(v) => negated(v),
            None => None,
        },
        Expr::Binary(l, op, r, _) => match op {
            BinaryOp::And | BinaryOp::Or | BinaryOp::In | BinaryOp::Div | BinaryOp::Mod
            | BinaryOp::Pow => None,
            _ => match (eval(*l), eval(*r)) {
                (Some(a), Some(b)) => binary_result(binary_opcode(op), a, b),
                _ => None,
            },
        },
        _ => None,
    }
}

/// The number of instructions the code of an evaluable expression runs.
pub open spec fn step_count(e: Expr) -> nat
    decreases e,
{
    match e {
        Expr::Unary(_, inner, _) => step_count(*inner) + 1,
        Expr::Binary(l, _, r, _) => step_count(*l) + step_count(*r) + 1,
        _ => 1,
    }
}

/// Compiling an evaluable expression only appends code and constants, and appends at least
/// one instruction.
proof fn lemma_compile_extends(c: CompView, e: Expr)
    requires
        eval(e) is Some,
    ensures
        expr_spec(c, e).code.len() > c.code.len(),
        expr_spec(c, e).code.subrange(0, c.code.len() as int) == c.code,
        expr_spec(c, e).constants.len() >= c.constants.len(),
        expr_spec(c, e).constants.subrange(0, c.constants.len() as int) == c.constants,
        expr_spec(c, e).globals == c.globals,
        expr_spec(c, e).locals == c.locals,
    decreases e,
{
    let t = expr_spec(c, e);
    match e {
        Expr::Unary(_, inner, _) => {
            lemma_compile_extends(c, *inner);
            let a = expr_spec(c, *inner);
            assert(t.code.subrange(0, c.code.len() as int) =~= a.code.subrange(0, c.code.len() as int));
        },
        Expr::Binary(l, op, r, _) => {
            lemma_compile_extends(c, *l);
            let a = expr_spec(c, *l);
            lemma_compile_extends(a, *r);
            let b = expr_spec(a, *r);
            assert(t.code.subrange(0, c.code.len() as int) =~= b.code.subrange(0, c.code.len() as int));
            assert(b.code.subrange(0, c.code.len() as int) =~= a.code.subrange(0, c.code.len() as int));
            assert(b.constants.subrange(0, c.constants.len() as int) =~= a.constants.subrange(
                0,
                c.constants.len() as int,
            ));
        },
        _ => {
            assert(t.code.subrange(0, c.code.len() as int) =~= c.code);
            assert(t.constants.subrange(0, c.constants.len() as int) =~= c.constants);
        },
    }
}

/// An element of a prefix is the element of the whole sequence.
proof fn lemma_prefix_index<A>(big: Seq<A>, small: Seq<A>, i: int)
    requires
        small.len() <= big.len(),
        big.subrange(0, small.len() as int) == small,
        0 <= i < small.len(),
    ensures
        big[i] == small[i],
{
    assert(big.subrange(0, small.len() as int)[i] == big[i]);
}

/// A prefix of a prefix is a prefix.
proof fn lemma_prefix_trans<A>(big: Seq<A>, mid: Seq<A>, small: Seq<A>)
    requires
        mid.len() <= big.len(),
        big.subrange(0, mid.len() as int) == mid,
        small.len() <= mid.len(),
        mid.subrange(0, small.len() as int) == small,
    ensures
        big.subrange(0, small.len() as int) == small,
{
    assert(big.subrange(0, small.len() as int) =~= mid.subrange(0, small.len() as int));
}

/// Running `n1` steps and then `n2` more is running `n1 + n2` steps, when the first run goes on.
proof fn lemma_run_concat(s: VmView, n1: nat, n2: nat)
    requires
        n1 >= 1,
        n2 >= 1,
        run_spec(s, n1).1 == ActionView::Continue,
    ensures
        run_spec(s, n1 + n2) == run_spec(run_spec(s, n1).0, n2),
    decreases n1,
{
    if n1 > 1 {
        let (t, a) = step_spec(s);
        assert(a == ActionView::Continue);
        lemma_run_concat(t, (n1 - 1) as nat, n2);
        assert((n1 - 1) as nat + n2 == (n1 + n2 - 1) as nat);
    }
}

/// Every expression's code runs at least one instruction.
proof fn lemma_step_count_positive(e: Expr)
    ensures
        step_count(e) >= 1,
{
}

/// A literal instruction pushes its value.
proof fn lemma_step_push(s: VmView, op: OpCode, v: ValueView)
    requires
        0 <= s.ip < s.code.len(),
        s.code[s.ip] == op_byte(op),
        (op == OpCode::Nil && v == ValueView::Nil) || (op == OpCode::True && v == ValueView::Bool(true))
            || (op == OpCode::False && v == ValueView::Bool(false)),
    ensures
        step_spec(s) == (VmView { ip: s.ip + 1, stack: s.stack.push(v), ..s }, ActionView::Continue),
{
    lemma_op_byte_roundtrip(op);
}

/// `Constant` pushes the constant that its operand names.
proof fn lemma_step_constant(s: VmView)
    requires
        0 <= s.ip,
        s.ip + 2 < s.code.len(),
        s.code[s.ip] == op_byte(OpCode::Constant),
        operand(s) < s.constants.len(),
    ensures
        step_spec(s) == (
            VmView { ip: s.ip + 3, stack: s.stack.push(s.constants[operand(s)]), ..s },
            ActionView::Continue,
        ),
{
    lemma_op_byte_roundtrip(OpCode::Constant);
}

/// `Not` replaces a boolean or nil on top of the stack by its negation.
proof fn lemma_step_not(s: VmView)
    requires
        0 <= s.ip < s.code.len(),
        s.code[s.ip] == op_byte(OpCode::Not),
        s.stack.len() >= 1,
        known_falsy(s.stack.last()) is Some,
    ensures
        step_spec(s) == (
            VmView {
                ip: s.ip + 1,
                stack: s.stack.drop_last().push(ValueView::Bool(known_falsy(s.stack.last())->0)),
                ..s
            },
            ActionView::Continue,
        ),
{
    lemma_op_byte_roundtrip(OpCode::Not);
}

/// `Negate` replaces an integer other than `i64::MIN` on top of the stack by its negation.
proof fn lemma_step_negate(s: VmView)
    requires
        0 <= s.ip < s.code.len(),
        s.code[s.ip] == op_byte(OpCode::Negate),
        s.stack.len() >= 1,
        negated(s.stack.last()) is Some,
    ensures
        step_spec(s) == (
            VmView { ip: s.ip + 1, stack: s.stack.drop_last().push(negated(s.stack.last())->0), ..s },
            ActionView::Continue,
        ),
{
    lemma_op_byte_roundtrip(OpCode::Negate);
}

/// A binary instruction that this core computes replaces its two operands by the result.
proof fn lemma_step_binary(s: VmView, op: OpCode)
    requires
        0 <= s.ip < s.code.len(),
        s.code[s.ip] == op_byte(op),
        s.stack.len() >= 2,
        binary_result(op, s.stack[s.stack.len() - 2], s.stack[s.stack.len() - 1]) is Some,
    ensures
        step_spec(s) == (
            VmView {
                ip: s.ip + 1,
                stack: s.stack.take(s.stack.len() - 2).push(
                    binary_result(op, s.stack[s.stack.len() - 2], s.stack[s.stack.len() - 1])->0,
                ),
                ..s
            },
            ActionView::Continue,
        ),
{
    lemma_op_byte_roundtrip(op);
    let n = s.stack.len();
    assert(op == OpCode::Add || op == OpCode::Sub || op == OpCode::Mul || op == OpCode::Equal
        || op == OpCode::NotEqual || op == OpCode::Less || op == OpCode::LessEqual
        || op == OpCode::Greater || op == OpCode::GreaterEqual);
}

/// The machine `s` is at the start of the code that compiling `e` appends to `c`: its code and
/// constants begin with those of the compiled program, and the instruction pointer stands where
/// `e`'s code starts.
pub open spec fn at_compiled(s: VmView, c: CompView, e: Expr) -> bool {
    let t = expr_spec(c, e);
    &&& s.code.len() >= t.code.len()
    &&& s.code.subrange(0, t.code.len() as int) == t.code
    &&& s.constants.len() >= t.constants.len()
    &&& s.constants.subrange(0, t.constants.len() as int) == t.constants
    &&& s.ip == c.code.len()
    &&& t.constants.len() <= 0x10000
}

/// The state after an expression's code has run from `s` and left `v` on the stack.
pub open spec fn after_expression(s: VmView, c: CompView, e: Expr, v: ValueView) -> VmView {
    VmView { ip: expr_spec(c, e).code.len() as int, stack: s.stack.push(v), ..s }
}

/// The literal case of the law below.
proof fn lemma_literal_computes(s: VmView, c: CompView, e: Expr)
    requires
        e is Literal,
        eval(e) is Some,
        at_compiled(s, c, e),
    ensures
        run_spec(s, 1) == (after_expression(s, c, e, eval(e)->0), ActionView::Continue),
{
    let t = expr_spec(c, e);
    lemma_compile_extends(c, e);
    lemma_prefix_index(s.code, t.code, c.code.len() as int);
    match e {
        Expr::Literal(Literal::Int(v), _) => {
            let idx = c.constants.len();
            let val = idx as usize as u16;
            assert(val as int == idx);
            lemma_u16_roundtrip(val);
            let ops = op16(OpCode::Constant, val);
            assert(t.code =~= c.code + ops);
            lemma_prefix_index(s.code, t.code, s.ip + 1);
            lemma_prefix_index(s.code, t.code, s.ip + 2);
            assert(t.constants =~= c.constants.push(ValueView::Int(v)));
            lemma_prefix_index(s.constants, t.constants, idx as int);
            assert(operand(s) == idx);
            lemma_step_constant(s);
        },
        Expr::Literal(Literal::Bool(b), _) => {
            if b {
                lemma_step_push(s, OpCode::True, ValueView::Bool(true));
            } else {
                lemma_step_push(s, OpCode::False, ValueView::Bool(false));
            }
        },
        Expr::Literal(Literal::Nil, _) => {
            lemma_step_push(s, OpCode::Nil, ValueView::Nil);
        },
        _ => {},
    }
}

/// The step that finishes a `not` or a negation, once the operand's code has run.
proof fn lemma_unary_finishes(s: VmView, c: CompView, e: Expr, mid: VmView)
    requires
        e is Unary,
        eval(e) is Some,
        at_compiled(s, c, e),
        mid == after_expression(s, c, *e->Unary_1, eval(*e->Unary_1)->0),
    ensures
        step_spec(mid) == (after_expression(s, c, e, eval(e)->0), ActionView::Continue),
{
    let inner = *e->Unary_1;
    let a = expr_spec(c, inner);
    let t = expr_spec(c, e);
    assert(mid.stack.drop_last() =~= s.stack);
    match e->Unary_0 {
        UnaryOp::Not => {
            assert(t.code =~= a.code.push(op_byte(OpCode::Not)));
            lemma_prefix_index(s.code, t.code, a.code.len() as int);
            lemma_step_not(mid);
        },
        UnaryOp::Negate => {
            assert(t.code =~= a.code.push(op_byte(OpCode::Negate)));
            lemma_prefix_index(s.code, t.code, a.code.len() as int);
            lemma_step_negate(mid);
        },
    }
}

/// The step that finishes a binary operation, once both operands' code has run.
proof fn lemma_binary_finishes(s: VmView, c: CompView, e: Expr, s2: VmView)
    requires
        e is Binary,
        eval(e) is Some,
        at_compiled(s, c, e),
        s2 == (VmView {
            ip: expr_spec(expr_spec(c, *e->Binary_0), *e->Binary_2).code.len() as int,
            stack: s.stack.push(eval(*e->Binary_0)->0).push(eval(*e->Binary_2)->0),
            ..s
        }),
    ensures
        step_spec(s2) == (after_expression(s, c, e, eval(e)->0), ActionView::Continue),
{
    let (l, op, r) = (*e->Binary_0, e->Binary_1, *e->Binary_2);
    let b = expr_spec(expr_spec(c, l), r);
    let t = expr_spec(c, e);
    assert(t.code =~= b.code.push(op_byte(binary_opcode(op))));
    lemma_prefix_index(s.code, t.code, b.code.len() as int);
    let n = s2.stack.len();
    assert(s2.stack.take(n - 2) =~= s.stack);
    lemma_step_binary(s2, binary_opcode(op));
}

/// The operands' code of a compiled expression starts where the operands are compiled.
proof fn lemma_operand_positions(s: VmView, c: CompView, e: Expr)
    requires
        eval(e) is Some,
        at_compiled(s, c, e),
    ensures
        e is Unary ==> at_compiled(s, c, *e->Unary_1),
        e is Binary ==> at_compiled(s, c, *e->Binary_0) && forall|v: ValueView|
            at_compiled(
                #[trigger] after_expression(s, c, *e->Binary_0, v),
                expr_spec(c, *e->Binary_0),
                *e->Binary_2,
            ),
{
    let t = expr_spec(c, e);
    match e {
        Expr::Unary(_, inner, _) => {
            let a = expr_spec(c, *inner);
            assert(t.code =~= a.code.push(t.code.last()));
            assert(t.code.subrange(0, a.code.len() as int) =~= a.code);
            lemma_prefix_trans(s.code, t.code, a.code);
        },
        Expr::Binary(l, op, r, _) => {
            let a = expr_spec(c, *l);
            let b = expr_spec(a, *r);
            lemma_compile_extends(a, *r);
            assert(t.code =~= b.code.push(t.code.last()));
            assert(t.code.subrange(0, b.code.len() as int) =~= b.code);
            lemma_prefix_trans(s.code, t.code, b.code);
            lemma_prefix_trans(s.code, b.code, a.code);
            lemma_prefix_trans(s.constants, b.constants, a.constants);
            assert forall|v: ValueView|
                at_compiled(#[trigger] after_expression(s, c, *l, v), a, *r) by {}
        },
        _ => {},
    }
}

/// Compiled code computes the expression: from the start of an evaluable expression's code,
/// running its instructions moves to the end of that code with the expression's value pushed
/// on the stack, and nothing else changed.
pub proof fn lemma_compiled_expression_computes(s: VmView, c: CompView, e: Expr)
    requires
        eval(e) is Some,
        at_compiled(s, c, e),
    ensures
        run_spec(s, step_count(e)) == (after_expression(s, c, e, eval(e)->0), ActionView::Continue),
    decreases e,
{
    lemma_operand_positions(s, c, e);
    match e {
        Expr::Literal(_, _) => {
            lemma_literal_computes(s, c, e);
        },
        Expr::Unary(op, inner, _) => {
            lemma_compiled_expression_computes(s, c, *inner);
            let mid = after_expression(s, c, *inner, eval(*inner)->0);
            lemma_run_concat(s, step_count(*inner), 1);
            lemma_unary_finishes(s, c, e, mid);
        },
        Expr::Binary(l, op, r, _) => {
            let a = expr_spec(c, *l);
            lemma_compiled_expression_computes(s, c, *l);
            let s1 = after_expression(s, c, *l, eval(*l)->0);
            lemma_compiled_expression_computes(s1, a, *r);
            let s2 = after_expression(s1, a, *r, eval(*r)->0);
            lemma_step_count_positive(*r);
            lemma_run_concat(s, step_count(*l), step_count(*r));
            lemma_run_concat(s, step_count(*l) + step_count(*r), 1);
            lemma_binary_finishes(s, c, e, s2);
        },
        _ => {},
    }
}

} // verus!
