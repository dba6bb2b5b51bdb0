//! Symbolic execution of a function body over its parameters: the value of each variable as a
//! symbolic expression, the path condition that a comparison states, and the divisions by a
//! divisor that is known to be zero.
use vstd::prelude::*;
use vstd::arithmetic::power2::{lemma_pow2_strictly_increases, pow2};
use vstd::bits::{lemma_u64_shl_is_mul, lemma_u64_shr_is_div};
use crate::expr_compiler::{name_views, AssignOp, BinaryOp, Expr, Literal, Statement};
use crate::strmap::StrMap;
use crate::symbolic::{eval as sym_eval, lemma_simplify_keeps_value, sat, simplified, Cons, Constraint, ConstraintSolver, Sym, SymExpr};
use crate::interpreter::{divides_toward_zero, lemma_trunc_division, magnitude, trunc_quot, trunc_rem};
use crate::bytecode::Span;
use crate::text::{decimal, push_decimal, push_str, string_of};

verus! {

/// `f64 as i64` on the bit pattern of a float: rounded toward zero, saturated at the ends of
/// `i64`, and zero for NaN.
pub open spec fn float_bits_as_int(bits: u64) -> i64 {
    let exp = ((bits >> 52u64) & 0x7ffu64) as int;
    let frac = (bits & 0xfffffffffffffu64) as int;
    let mag = (frac + 0x10000000000000) as nat;
    if exp == 0x7ff && frac != 0 {
        0
    } else if exp < 1023 {
        0
    } else if exp >= 1086 {
        if bits >> 63u64 == 1 { i64::MIN } else { i64::MAX }
    } else {
        let m = if exp >= 1075 {
            mag * pow2((exp - 1075) as nat)
        } else {
            mag / pow2((1075 - exp) as nat)
        };
        (if bits >> 63u64 == 1 { -m } else { m as int }) as i64
    }
}

fn float_bits_to_int(bits: u64) -> (r: i64)
    ensures
        r == float_bits_as_int(bits),
{
    let exp = (bits >> 52u64) & 0x7ffu64;
    let frac = bits & 0xfffffffffffffu64;
    if exp == 0x7ff && frac != 0 {
        return 0;
    }
    if exp < 1023 {
        return 0;
    }
    if exp >= 1086 {
        return if bits >> 63u64 == 1 { i64::MIN } else { i64::MAX };
    }
    assert(frac < 0x10000000000000) by (bit_vector)
        requires
            frac == bits & 0xfffffffffffffu64,
    ;
    let mag: u64 = frac + 0x10000000000000u64;
    let m: u64 = if exp >= 1075 {
        let k: u64 = exp - 1075;
        proof {
            if k < 10 {
                lemma_pow2_strictly_increases(k as nat, 10);
            }
            vstd::arithmetic::power2::lemma2_to64();
            assert(mag * pow2(k as nat) < 0x20000000000000 * 1024) by (nonlinear_arith)
                requires
                    mag < 0x20000000000000,
                    pow2(k as nat) <= 1024,
            ;
            lemma_u64_shl_is_mul(mag, k);
        }
        mag << k
    } else {
        let k: u64 = 1075 - exp;
        proof {
            lemma_u64_shr_is_div(mag, k);
            assert(pow2(k as nat) > 0) by {
                vstd::arithmetic::power2::lemma_pow2_pos(k as nat);
            }
            assert(mag as nat / pow2(k as nat) <= mag) by {
                vstd::arithmetic::div_mod::lemma_div_is_ordered_by_denominator(mag as int, 1, pow2(k as nat) as int);
            }
        }
        mag >> k
    };
    assert(m < 0x8000000000000000u64);
    if bits >> 63u64 == 1 {
        -(m as i64)
    } else {
        m as i64
    }
}

/// The symbolic value of an expression where each variable in `env` stands for its value and
/// every other name for itself; operators other than the five arithmetic ones, and other kinds
/// of expressions, give `0`.
pub open spec fn sym_of(e: Expr, env: Map<Seq<char>, Sym>) -> Sym
    decreases e,
{
    match e {
        Expr::Literal(Literal::Int(n), _) => Sym::Const(n),
        Expr::Literal(Literal::Float(b), _) => Sym::Const(float_bits_as_int(b)),
        Expr::Literal(Literal::Bool(b), _) => Sym::Const(if b { 1 } else { 0 }),
        Expr::Ident(name, _) => if env.dom().contains(name@) { env[name@] } else { Sym::Var(name@) },
        Expr::Binary(l, op, r, _) => {
            let a = Box::new(sym_of(*l, env));
            let b = Box::new(sym_of(*r, env));
            match op {
                BinaryOp::Add => simplified(Sym::Add(a, b)),
                BinaryOp::Sub => simplified(Sym::Sub(a, b)),
                BinaryOp::Mul => simplified(Sym::Mul(a, b)),
                BinaryOp::Div => simplified(Sym::Div(a, b)),
                BinaryOp::Mod => simplified(Sym::Mod(a, b)),
                _ => Sym::Const(0),
            }
        },
        _ => Sym::Const(0),
    }
}

pub open spec fn zero_divisor_message(what: Seq<char>, line: nat) -> Seq<char> {
    what + " by Zero Vulnerability at line "@ + decimal(line) + ": divisor evaluates to 0"@
}

/// The findings of evaluating an expression, in order: a division or remainder whose divisor
/// evaluates to the constant zero.
pub open spec fn sym_findings(e: Expr, env: Map<Seq<char>, Sym>) -> Seq<Seq<char>>
    decreases e,
{
    match e {
        Expr::Binary(l, op, r, span) => {
            let own = if sym_of(*r, env) == Sym::Const(0) {
                match op {
                    BinaryOp::Div => seq![zero_divisor_message("Division"@, span.line as nat)],
                    BinaryOp::Mod => seq![zero_divisor_message("Modulo"@, span.line as nat)],
                    _ => Seq::empty(),
                }
            } else {
                Seq::empty()
            };
            sym_findings(*l, env) + sym_findings(*r, env) + own
        },
        _ => Seq::empty(),
    }
}

fn zero_divisor_text(what: &str, line: usize) -> (s: String)
    ensures
        s@ == zero_divisor_message(what@, line as nat),
{
    let mut s = string_of(what);
    push_str(&mut s, " by Zero Vulnerability at line ");
    push_decimal(&mut s, line as u64);
    push_str(&mut s, ": divisor evaluates to 0");
    proof {
        reveal_strlit(" by Zero Vulnerability at line ");
        reveal_strlit(": divisor evaluates to 0");
    }
    s
}

/// Evaluates an expression symbolically, recording the divisions by zero it finds.
pub fn eval_sym_expr(expr: &Expr, env: &StrMap<SymExpr>, vulnerabilities: &mut Vec<String>) -> (r: SymExpr)
    requires
        env.wf(),
    ensures
        r@ == sym_of(*expr, env@),
        name_views(final(vulnerabilities)@) == name_views(old(vulnerabilities)@) + sym_findings(*expr, env@),
    decreases expr,
{
    let ghost old_v = name_views(vulnerabilities@);
    match expr {
        Expr::Literal(Literal::Int(n), _) => SymExpr::Const(*n),
        Expr::Literal(Literal::Float(f), _) => SymExpr::Const(float_bits_to_int(*f)),
        Expr::Literal(Literal::Bool(b), _) => SymExpr::Const(if *b { 1 } else { 0 }),
        Expr::Ident(name, _) => match env.get(name) {
            Some(v) => v.copy(),
            None => SymExpr::Var(name.clone()),
        },
        Expr::Binary(left, op, right, span) => {
            let l = eval_sym_expr(left, env, vulnerabilities);
            let ghost mid = name_views(vulnerabilities@);
            let r = eval_sym_expr(right, env, vulnerabilities);
            let ghost after = name_views(vulnerabilities@);
            let zero = match &r {
                SymExpr::Const(c) => *c == 0,
                _ => false,
            };
            match op {
                BinaryOp::Add => SymExpr::Add(Box::new(l), Box::new(r)).simplify(),
                BinaryOp::Sub => SymExpr::Sub(Box::new(l), Box::new(r)).simplify(),
                BinaryOp::Mul => SymExpr::Mul(Box::new(l), Box::new(r)).simplify(),
                BinaryOp::Div => {
                    if zero {
                        let msg = zero_divisor_text("Division", span.line);
                        vulnerabilities.push(msg);
                        proof {
                            reveal_strlit("Division");
                            assert(name_views(vulnerabilities@) =~= after.push(msg@));
                        }
                    }
                    SymExpr::Div(Box::new(l), Box::new(r)).simplify()
                },
                BinaryOp::Mod => {
                    if zero {
                        let msg = zero_divisor_text("Modulo", span.line);
                        vulnerabilities.push(msg);
                        proof {
                            reveal_strlit("Modulo");
                            assert(name_views(vulnerabilities@) =~= after.push(msg@));
                        }
                    }
                    SymExpr::Mod(Box::new(l), Box::new(r)).simplify()
                },
                _ => SymExpr::Const(0),
            }
        },
        _ => SymExpr::Const(0),
    }
}


/// The path condition that a comparison states; `None` for any other expression.
pub open spec fn constraint_of(e: Expr, env: Map<Seq<char>, Sym>) -> Option<Cons> {
    match e {
        Expr::Binary(l, op, r, _) => {
            let a = sym_of(*l, env);
            let b = sym_of(*r, env);
            match op {
                BinaryOp::Equal => Some(Cons::Eq(a, b)),
                BinaryOp::NotEqual => Some(Cons::Ne(a, b)),
                BinaryOp::Greater => Some(Cons::Gt(a, b)),
                BinaryOp::GreaterEqual => Some(Cons::Ge(a, b)),
                BinaryOp::Less => Some(Cons::Lt(a, b)),
                BinaryOp::LessEqual => Some(Cons::Le(a, b)),
                _ => None,
            }
        },
        _ => None,
    }
}

/// Turns a comparison into a constraint over the variables' symbolic values.
pub fn expr_to_constraint(expr: &Expr, env: &StrMap<SymExpr>) -> (r: Option<Constraint>)
    requires
        env.wf(),
    ensures
        match constraint_of(*expr, env@) {
            Some(k) => r matches Some(c) && c@ == k,
            None => r is None,
        },
{
    let mut dummy: Vec<String> = Vec::new();
    match expr {
        Expr::Binary(left, op, right, _) => {
            let l = eval_sym_expr(left, env, &mut dummy);
            let r = eval_sym_expr(right, env, &mut dummy);
            match op {
                BinaryOp::Equal => Some(Constraint::Eq(l, r)),
                BinaryOp::NotEqual => Some(Constraint::Ne(l, r)),
                BinaryOp::Greater => Some(Constraint::Gt(l, r)),
                BinaryOp::GreaterEqual => Some(Constraint::Ge(l, r)),
                BinaryOp::Less => Some(Constraint::Lt(l, r)),
                BinaryOp::LessEqual => Some(Constraint::Le(l, r)),
                _ => None,
            }
        },
        _ => None,
    }
}

/// The value a compound assignment gives a variable whose value is `curr`.
pub open spec fn assigned(op: AssignOp, curr: Sym, rhs: Sym) -> Sym {
    let a = Box::new(curr);
    let b = Box::new(rhs);
    match op {
        AssignOp::Assign => rhs,
        AssignOp::AddAssign => simplified(Sym::Add(a, b)),
        AssignOp::SubAssign => simplified(Sym::Sub(a, b)),
        AssignOp::MulAssign => simplified(Sym::Mul(a, b)),
        AssignOp::DivAssign => simplified(Sym::Div(a, b)),
        AssignOp::ModAssign => simplified(Sym::Mod(a, b)),
    }
}

/// One statement's effect: the variables' values after it, the returned value if it is a
/// `return` (`Some(None)` for a bare one), and its findings. `let` without a value gives `0`;
/// other statements change nothing.
#[verifier::opaque]
pub open spec fn walk_step(st: Statement, env: Map<Seq<char>, Sym>) -> (
    Map<Seq<char>, Sym>,
    Option<Option<Sym>>,
    Seq<Seq<char>>,
) {
    match st {
        Statement::Let { name, initializer, .. } => match initializer {
            Some(e) => (env.insert(name@, sym_of(e, env)), None, sym_findings(e, env)),
            None => (env.insert(name@, Sym::Const(0)), None, Seq::empty()),
        },
        Statement::Assign { target, op, value, .. } => {
            let curr = if env.dom().contains(target@) { env[target@] } else { Sym::Const(0) };
            (env.insert(target@, assigned(op, curr, sym_of(value, env))), None, sym_findings(value, env))
        },
        Statement::Return { value, .. } => match value {
            Some(e) => (env, Some(Some(sym_of(e, env))), sym_findings(e, env)),
            None => (env, Some(None), Seq::empty()),
        },
        _ => (env, None, Seq::empty()),
    }
}

/// Walks statements from the front until a `return`: the variables' values at the end, the
/// returned value if a `return` was reached, and the findings on the way.
pub open spec fn walk(sts: Seq<Statement>, env: Map<Seq<char>, Sym>) -> (
    Map<Seq<char>, Sym>,
    Option<Option<Sym>>,
    Seq<Seq<char>>,
)
    decreases sts.len(),
{
    if sts.len() == 0 {
        (env, None, Seq::empty())
    } else {
        let (e1, r, f) = walk_step(sts[0], env);
        if r is Some {
            (e1, r, f)
        } else {
            let (e2, r2, f2) = walk(sts.drop_first(), e1);
            (e2, r2, f + f2)
        }
    }
}

pub open spec fn opt_opt_sym(o: Option<Option<SymExpr>>) -> Option<Option<Sym>> {
    match o {
        Some(Some(x)) => Some(Some(x@)),
        Some(None) => Some(None),
        None => None,
    }
}

/// Applies one statement to the variables' values.
fn explore_statement(st: &Statement, env: &mut StrMap<SymExpr>, vulnerabilities: &mut Vec<String>) -> (r: Option<Option<SymExpr>>)
    requires
        old(env).wf(),
    ensures
        final(env).wf(),
        final(env)@ == walk_step(*st, old(env)@).0,
        opt_opt_sym(r) == walk_step(*st, old(env)@).1,
        name_views(final(vulnerabilities)@) == name_views(old(vulnerabilities)@) + walk_step(*st, old(env)@).2,
{
    reveal(walk_step);
    let ghost found = name_views(vulnerabilities@);
    match st {
        Statement::Let { name, initializer, .. } => {
            let val = match initializer {
                Some(init) => eval_sym_expr(init, env, vulnerabilities),
                None => {
                    assert(found + Seq::<Seq<char>>::empty() =~= found);
                    SymExpr::Const(0)
                },
            };
            env.insert(name.clone(), val);
            None
        },
        Statement::Assign { target, op, value, .. } => {
            let rhs = eval_sym_expr(value, env, vulnerabilities);
            let curr = match env.get(target) {
                Some(v) => v.copy(),
                None => SymExpr::Const(0),
            };
            let new_val = match op {
                AssignOp::Assign => rhs,
                AssignOp::AddAssign => SymExpr::Add(Box::new(curr), Box::new(rhs)).simplify(),
                AssignOp::SubAssign => SymExpr::Sub(Box::new(curr), Box::new(rhs)).simplify(),
                AssignOp::MulAssign => SymExpr::Mul(Box::new(curr), Box::new(rhs)).simplify(),
                AssignOp::DivAssign => SymExpr::Div(Box::new(curr), Box::new(rhs)).simplify(),
                AssignOp::ModAssign => SymExpr::Mod(Box::new(curr), Box::new(rhs)).simplify(),
            };
            env.insert(target.clone(), new_val);
            None
        },
        Statement::Return { value, .. } => match value {
            Some(v) => Some(Some(eval_sym_expr(v, env, vulnerabilities))),
            None => {
                assert(found + Seq::<Seq<char>>::empty() =~= found);
                Some(None)
            },
        },
        _ => {
            assert(found + Seq::<Seq<char>>::empty() =~= found);
            None
        },
    }
}

/// The value that a path returns: that of its `return`, else that of the block's result.
pub open spec fn path_result(w: (Map<Seq<char>, Sym>, Option<Option<Sym>>, Seq<Seq<char>>), result: Option<Expr>) -> Option<Sym> {
    match w.1 {
        Some(r) => r,
        None => match result {
            Some(e) => Some(sym_of(e, w.0)),
            None => None,
        },
    }
}

/// The findings of a whole path, the block's result included where no `return` was reached.
pub open spec fn path_findings(w: (Map<Seq<char>, Sym>, Option<Option<Sym>>, Seq<Seq<char>>), result: Option<Expr>) -> Seq<Seq<char>> {
    match (w.1, result) {
        (None, Some(e)) => w.2 + sym_findings(e, w.0),
        _ => w.2,
    }
}

pub open spec fn opt_sym(o: Option<SymExpr>) -> Option<Sym> {
    match o {
        Some(x) => Some(x@),
        None => None,
    }
}

/// Explores a function body: records one path, with the variables' values where it ends, the
/// path condition it was given, and the value it returns.
pub fn explore_block(
    statements: &Vec<Statement>,
    result: &Option<Expr>,
    env: StrMap<SymExpr>,
    solver: ConstraintSolver,
    paths: &mut Vec<(StrMap<SymExpr>, ConstraintSolver, Option<SymExpr>)>,
    vulnerabilities: &mut Vec<String>,
)
    requires
        env.wf(),
    ensures
        final(paths)@.len() == old(paths)@.len() + 1,
        final(paths)@.take(old(paths)@.len() as int) == old(paths)@,
        final(paths)@.last().0@ == walk(statements@, env@).0,
        final(paths)@.last().0.wf(),
        final(paths)@.last().1 == solver,
        opt_sym(final(paths)@.last().2) == path_result(walk(statements@, env@), *result),
        name_views(final(vulnerabilities)@) == name_views(old(vulnerabilities)@) + path_findings(
            walk(statements@, env@),
            *result,
        ),
{
    let ghost sts = statements@;
    let ghost w = walk(sts, env@);
    let ghost v0 = name_views(vulnerabilities@);
    let mut vars = env;
    let mut i: usize = 0;
    assert(sts.skip(0) =~= sts);
    assert(v0 + w.2 =~= v0 + Seq::<Seq<char>>::empty() + w.2);
    while i < statements.len()
        invariant
            vars.wf(),
            sts == statements@,
            i <= sts.len(),
            paths@ == old(paths)@,
            walk(sts.skip(i as int), vars@).0 == w.0,
            walk(sts.skip(i as int), vars@).1 == w.1,
            v0 + w.2 == name_views(vulnerabilities@) + walk(sts.skip(i as int), vars@).2,
            w == walk(statements@, env@),
            v0 == name_views(old(vulnerabilities)@),
        decreases sts.len() - i,
    {
        let ghost rest = sts.skip(i as int);
        let ghost found = name_views(vulnerabilities@);
        let ghost e0 = vars@;
        assert(rest[0] == sts[i as int]);
        assert(rest.drop_first() =~= sts.skip(i + 1));
        let r = explore_statement(&statements[i], &mut vars, vulnerabilities);
        if let Some(ret) = r {
            proof {
                assert(walk(rest, e0) == walk_step(sts[i as int], e0));
                assert(w.0 == vars@);
                assert(w.1 == opt_opt_sym(Some(ret)));
                assert(path_result(w, *result) == opt_sym(ret));
                assert(name_views(vulnerabilities@) =~= v0 + w.2);
            }
            paths.push((vars, solver, ret));
            assert(paths@.take(old(paths)@.len() as int) =~= old(paths)@);
            return;
        }
        proof {
            let f = walk_step(sts[i as int], e0).2;
            let f2 = walk(sts.skip(i + 1), vars@).2;
            assert(found + (f + f2) =~= found + f + f2);
        }
        i = i + 1;
    }
    assert(sts.skip(i as int) =~= Seq::<Statement>::empty());
    let ghost found = name_views(vulnerabilities@);
    let ret = match result {
        Some(r) => Some(eval_sym_expr(r, &vars, vulnerabilities)),
        None => None,
    };
    proof {
        if result is None {
            assert(name_views(vulnerabilities@) =~= found);
        }
    }
    paths.push((vars, solver, ret));
    assert(paths@.take(old(paths)@.len() as int) =~= old(paths)@);
}

/// The checked integer division and remainder that symbolic values use round toward zero.
proof fn lemma_checked_div_rem(a: i64, b: i64)
    requires
        b != 0,
        !(a == i64::MIN && b == -1),
    ensures
        a.checked_div(b) == Some(trunc_quot(a as int, b as int) as i64),
        a.checked_rem(b) == Some(trunc_rem(a as int, b as int) as i64),
        i64::MIN <= trunc_quot(a as int, b as int) <= i64::MAX,
        i64::MIN <= trunc_rem(a as int, b as int) <= i64::MAX,
        divides_toward_zero(a as int, b as int, trunc_quot(a as int, b as int), trunc_rem(a as int, b as int)),
{
    lemma_trunc_division(a as int, b as int);
    let q = trunc_quot(a as int, b as int);
    if magnitude(b as int) == 1 && q == 0x8000_0000_0000_0000 {
        assert(a == i64::MIN);
    }
    let x = a as int;
    let d = b as int;
    if x > 0 && d < 0 {
        assert(x / (d * -1) == magnitude(x) / magnitude(d));
        assert(x % (d * -1) == magnitude(x) % magnitude(d));
    } else if x < 0 && d > 0 {
        assert((x * -1) / d == magnitude(x) / magnitude(d));
        assert((x * -1) % d == magnitude(x) % magnitude(d));
    } else if x < 0 && d < 0 {
        assert((x * -1) / (d * -1) == magnitude(x) / magnitude(d));
        assert((x * -1) % (d * -1) == magnitude(x) % magnitude(d));
    } else if x == 0 {
        assert(magnitude(x) / magnitude(d) == 0) by (nonlinear_arith)
            requires
                magnitude(d) > 0,
                magnitude(x) == 0,
        ;
        assert(magnitude(x) % magnitude(d) == 0) by (nonlinear_arith)
            requires
                magnitude(d) > 0,
                magnitude(x) == 0,
        ;
    }
}

/// A comparison's path condition means what the comparison says. For `l op r` with `op` a
/// comparison, the constraint is defined exactly where both sides have a value under the
/// assignment, and then holds exactly when those values compare as `op` says (`x <= 5` holds
/// at `x = 5`); other operators give no constraint. An arithmetic expression's symbolic value
/// is, under an assignment, the sum, difference, product, or quotient and remainder rounded
/// toward zero of its sides' values, where these exist in `i64`.
pub proof fn lemma_constraint_means_comparison(
    l: Expr,
    op: BinaryOp,
    r: Expr,
    span: Span,
    env: Map<Seq<char>, Sym>,
    asg: Map<Seq<char>, i64>,
)
    ensures
        ({
            let e = Expr::Binary(Box::new(l), op, Box::new(r), span);
            let vx = sym_eval(sym_of(l, env), asg);
            let vy = sym_eval(sym_of(r, env), asg);
            let x = vx->0;
            let y = vy->0;
            let both = vx is Some && vy is Some;
            let holds = |b: bool|
                constraint_of(e, env) matches Some(k) && sat(k, asg) == (if both {
                    Some(b)
                } else {
                    None::<bool>
                });
            let value = sym_eval(sym_of(e, env), asg);
            &&& constraint_of(e, env) is Some <==> (op is Equal || op is NotEqual || op is Less || op is LessEqual
                || op is Greater || op is GreaterEqual)
            &&& op is Equal ==> holds(x == y)
            &&& op is NotEqual ==> holds(x != y)
            &&& op is Less ==> holds(x < y)
            &&& op is LessEqual ==> holds(x <= y)
            &&& op is Greater ==> holds(x > y)
            &&& op is GreaterEqual ==> holds(x >= y)
            &&& both && op is Add && i64::MIN <= x + y <= i64::MAX ==> value == Some((x + y) as i64)
            &&& both && op is Sub && i64::MIN <= x - y <= i64::MAX ==> value == Some((x - y) as i64)
            &&& both && op is Mul && i64::MIN <= x * y <= i64::MAX ==> value == Some((x * y) as i64)
            &&& both && op is Div && y != 0 && !(x == i64::MIN && y == -1) ==> (value matches Some(q)
                && divides_toward_zero(x as int, y as int, q as int, x - q * y))
            &&& both && op is Mod && y != 0 && !(x == i64::MIN && y == -1) ==> (value matches Some(m)
                && divides_toward_zero(x as int, y as int, (x - m) / (y as int), m as int))
        }),
{
    let vx = sym_eval(sym_of(l, env), asg);
    let vy = sym_eval(sym_of(r, env), asg);
    if vx is Some && vy is Some {
        let x = vx->0;
        let y = vy->0;
        let a = Box::new(sym_of(l, env));
        let b = Box::new(sym_of(r, env));
        match op {
            BinaryOp::Add => {
                if i64::MIN <= x + y <= i64::MAX {
                    lemma_simplify_keeps_value(Sym::Add(a, b), asg);
                }
            },
            BinaryOp::Sub => {
                if i64::MIN <= x - y <= i64::MAX {
                    lemma_simplify_keeps_value(Sym::Sub(a, b), asg);
                }
            },
            BinaryOp::Mul => {
                if i64::MIN <= x * y <= i64::MAX {
                    lemma_simplify_keeps_value(Sym::Mul(a, b), asg);
                }
            },
            BinaryOp::Div => {
                if y != 0 && !(x == i64::MIN && y == -1) {
                    lemma_checked_div_rem(x, y);
                    lemma_simplify_keeps_value(Sym::Div(a, b), asg);
                }
            },
            BinaryOp::Mod => {
                if y != 0 && !(x == i64::MIN && y == -1) {
                    lemma_checked_div_rem(x, y);
                    lemma_simplify_keeps_value(Sym::Mod(a, b), asg);
                    let q = trunc_quot(x as int, y as int);
                    let m = trunc_rem(x as int, y as int);
                    assert((x - m) / (y as int) == q) by (nonlinear_arith)
                        requires
                            x - m == q * y,
                            y != 0,
                    ;
                }
            },
            _ => {},
        }
    }
}

/// Division-by-zero findings: evaluating `l op r` reports the findings of `l`, then those of
/// `r`, then, when `op` is `/` or `%` and the divisor's symbolic value is the constant zero, one
/// finding naming the operation and the line; literals and names report nothing.
pub proof fn lemma_zero_divisor_findings(
    l: Expr,
    op: BinaryOp,
    r: Expr,
    span: Span,
    env: Map<Seq<char>, Sym>,
    lit: Literal,
    name: String,
)
    ensures
        ({
            let e = Expr::Binary(Box::new(l), op, Box::new(r), span);
            let before = sym_findings(l, env) + sym_findings(r, env);
            let zero = sym_of(r, env) == Sym::Const(0);
            let line = decimal(span.line as nat);
            &&& op is Div && zero ==> sym_findings(e, env) == before.push(
                "Division by Zero Vulnerability at line "@ + line + ": divisor evaluates to 0"@,
            )
            &&& op is Mod && zero ==> sym_findings(e, env) == before.push(
                "Modulo by Zero Vulnerability at line "@ + line + ": divisor evaluates to 0"@,
            )
            &&& !((op is Div || op is Mod) && zero) ==> sym_findings(e, env) == before
        }),
        sym_findings(Expr::Literal(lit, span), env).len() == 0,
        sym_findings(Expr::Ident(name, span), env).len() == 0,
{
    let before = sym_findings(l, env) + sym_findings(r, env);
    assert(before + Seq::<Seq<char>>::empty() =~= before);
    reveal_strlit("Division");
    reveal_strlit("Modulo");
    reveal_strlit("Division by Zero Vulnerability at line ");
    reveal_strlit("Modulo by Zero Vulnerability at line ");
    reveal_strlit(" by Zero Vulnerability at line ");
    assert("Division"@ + " by Zero Vulnerability at line "@ =~= "Division by Zero Vulnerability at line "@);
    assert("Modulo"@ + " by Zero Vulnerability at line "@ =~= "Modulo by Zero Vulnerability at line "@);
    let line = decimal(span.line as nat);
    assert("Division"@ + " by Zero Vulnerability at line "@ + line + ": divisor evaluates to 0"@ =~= "Division by Zero Vulnerability at line "@ + line + ": divisor evaluates to 0"@);
    assert("Modulo"@ + " by Zero Vulnerability at line "@ + line + ": divisor evaluates to 0"@ =~= "Modulo by Zero Vulnerability at line "@ + line + ": divisor evaluates to 0"@);
}

/// A compound assignment gives the variable the sum, difference, product, or quotient or
/// remainder rounded toward zero, of its value and the assigned value, where these exist in
/// `i64`; a plain assignment gives it the assigned value.
pub proof fn lemma_compound_assignment_values(op: AssignOp, curr: Sym, rhs: Sym, asg: Map<Seq<char>, i64>)
    ensures
        ({
            let vx = sym_eval(curr, asg);
            let vy = sym_eval(rhs, asg);
            let x = vx->0;
            let y = vy->0;
            let both = vx is Some && vy is Some;
            let value = sym_eval(assigned(op, curr, rhs), asg);
            &&& op is Assign ==> assigned(op, curr, rhs) == rhs
            &&& both && op is AddAssign && i64::MIN <= x + y <= i64::MAX ==> value == Some((x + y) as i64)
            &&& both && op is SubAssign && i64::MIN <= x - y <= i64::MAX ==> value == Some((x - y) as i64)
            &&& both && op is MulAssign && i64::MIN <= x * y <= i64::MAX ==> value == Some((x * y) as i64)
            &&& both && op is DivAssign && y != 0 && !(x == i64::MIN && y == -1) ==> (value matches Some(q)
                && divides_toward_zero(x as int, y as int, q as int, x - q * y))
            &&& both && op is ModAssign && y != 0 && !(x == i64::MIN && y == -1) ==> (value matches Some(m)
                && divides_toward_zero(x as int, y as int, (x - m) / (y as int), m as int))
        }),
{
    let vx = sym_eval(curr, asg);
    let vy = sym_eval(rhs, asg);
    if vx is Some && vy is Some {
        let x = vx->0;
        let y = vy->0;
        let a = Box::new(curr);
        let b = Box::new(rhs);
        match op {
            AssignOp::AddAssign => {
                if i64::MIN <= x + y <= i64::MAX {
                    lemma_simplify_keeps_value(Sym::Add(a, b), asg);
                }
            },
            AssignOp::SubAssign => {
                if i64::MIN <= x - y <= i64::MAX {
                    lemma_simplify_keeps_value(Sym::Sub(a, b), asg);
                }
            },
            AssignOp::MulAssign => {
                if i64::MIN <= x * y <= i64::MAX {
                    lemma_simplify_keeps_value(Sym::Mul(a, b), asg);
                }
            },
            AssignOp::DivAssign => {
                if y != 0 && !(x == i64::MIN && y == -1) {
                    lemma_checked_div_rem(x, y);
                    lemma_simplify_keeps_value(Sym::Div(a, b), asg);
                }
            },
            AssignOp::ModAssign => {
                if y != 0 && !(x == i64::MIN && y == -1) {
                    lemma_checked_div_rem(x, y);
                    lemma_simplify_keeps_value(Sym::Mod(a, b), asg);
                    let q = trunc_quot(x as int, y as int);
                    let m = trunc_rem(x as int, y as int);
                    assert((x - m) / (y as int) == q) by (nonlinear_arith)
                        requires
                            x - m == q * y,
                            y != 0,
                    ;
                }
            },
            _ => {},
        }
    }
}

} // verus!
