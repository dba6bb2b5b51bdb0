//! Symbolic integer expressions, path constraints, and an interval solver that searches a
//! small lattice of candidate values for a model.
use vstd::prelude::*;
use crate::strmap::{lemma_map_of_contains, lemma_map_of_value, Duplicate, StrMap};

verus! {

/// An integer expression over named variables.
pub enum SymExpr {
    Const(i64),
    Var(String),
    Add(Box<SymExpr>, Box<SymExpr>),
    Sub(Box<SymExpr>, Box<SymExpr>),
    Mul(Box<SymExpr>, Box<SymExpr>),
    Div(Box<SymExpr>, Box<SymExpr>),
    Mod(Box<SymExpr>, Box<SymExpr>),
}

/// The content of an expression, with variable names as character sequences.
pub enum Sym {
    Const(i64),
    Var(Seq<char>),
    Add(Box<Sym>, Box<Sym>),
    Sub(Box<Sym>, Box<Sym>),
    Mul(Box<Sym>, Box<Sym>),
    Div(Box<Sym>, Box<Sym>),
    Mod(Box<Sym>, Box<Sym>),
}

impl SymExpr {
    pub open spec fn model(self) -> Sym
        decreases self,
    {
        match self {
            SymExpr::Const(c) => Sym::Const(c),
            SymExpr::Var(n) => Sym::Var(n@),
            SymExpr::Add(a, b) => Sym::Add(Box::new(a.model()), Box::new(b.model())),
            SymExpr::Sub(a, b) => Sym::Sub(Box::new(a.model()), Box::new(b.model())),
            SymExpr::Mul(a, b) => Sym::Mul(Box::new(a.model()), Box::new(b.model())),
            SymExpr::Div(a, b) => Sym::Div(Box::new(a.model()), Box::new(b.model())),
            SymExpr::Mod(a, b) => Sym::Mod(Box::new(a.model()), Box::new(b.model())),
        }
    }
}

impl View for SymExpr {
    type V = Sym;

    open spec fn view(&self) -> Sym {
        self.model()
    }
}

/// Both values present: the operation's result, `None` where it overflows.
pub open spec fn lift(x: Option<i64>, y: Option<i64>, op: spec_fn(i64, i64) -> Option<i64>) -> Option<i64> {
    match (x, y) {
        (Some(a), Some(b)) => op(a, b),
        _ => None,
    }
}

/// The value of an expression under an assignment of variables: `None` where a variable is
/// unassigned, a divisor is zero, or a step leaves the range of `i64`. Division and remainder
/// truncate toward zero.
pub open spec fn eval(e: Sym, env: Map<Seq<char>, i64>) -> Option<i64>
    decreases e,
{
    match e {
        Sym::Const(c) => Some(c),
        Sym::Var(n) => if env.dom().contains(n) {
            Some(env[n])
        } else {
            None
        },
        Sym::Add(a, b) => lift(eval(*a, env), eval(*b, env), |x: i64, y: i64| x.checked_add(y)),
        Sym::Sub(a, b) => lift(eval(*a, env), eval(*b, env), |x: i64, y: i64| x.checked_sub(y)),
        Sym::Mul(a, b) => lift(eval(*a, env), eval(*b, env), |x: i64, y: i64| x.checked_mul(y)),
        Sym::Div(a, b) => match eval(*b, env) {
            Some(d) => if d == 0 {
                None
            } else {
                match eval(*a, env) {
                    Some(x) => x.checked_div(d),
                    None => None,
                }
            },
            None => None,
        },
        Sym::Mod(a, b) => match eval(*b, env) {
            Some(d) => if d == 0 {
                None
            } else {
                match eval(*a, env) {
                    Some(x) => x.checked_rem(d),
                    None => None,
                }
            },
            None => None,
        },
    }
}

/// One step of simplification, on already simplified operands.
pub open spec fn simplify_node(e: Sym) -> Sym {
    match e {
        Sym::Add(a, b) => match (*a, *b) {
            (Sym::Const(x), Sym::Const(y)) => Sym::Const(vstd::wrapping::i64_specs::wrapping_add(x, y)),
            (Sym::Const(0), other) => other,
            (other, Sym::Const(0)) => other,
            _ => e,
        },
        Sym::Sub(a, b) => match (*a, *b) {
            (Sym::Const(x), Sym::Const(y)) => Sym::Const(vstd::wrapping::i64_specs::wrapping_sub(x, y)),
            (other, Sym::Const(0)) => other,
            (l, r) => if l == r {
                Sym::Const(0)
            } else {
                e
            },
        },
        Sym::Mul(a, b) => match (*a, *b) {
            (Sym::Const(x), Sym::Const(y)) => Sym::Const(vstd::wrapping::i64_specs::wrapping_mul(x, y)),
            (Sym::Const(0), _) => Sym::Const(0),
            (_, Sym::Const(0)) => Sym::Const(0),
            (Sym::Const(1), other) => other,
            (other, Sym::Const(1)) => other,
            _ => e,
        },
        Sym::Div(a, b) => match (*a, *b) {
            (Sym::Const(x), Sym::Const(y)) => if y != 0 && x.checked_div(y) is Some {
                Sym::Const(x.checked_div(y).unwrap())
            } else if y == 1 {
                Sym::Const(x)
            } else {
                e
            },
            (other, Sym::Const(1)) => other,
            _ => e,
        },
        _ => e,
    }
}

/// Simplification: operands first, then constant folding and the identities `x + 0`, `x - 0`,
/// `x - x`, `x * 0`, `x * 1` and `x / 1`. Remainders are left as they are.
pub open spec fn simplified(e: Sym) -> Sym
    decreases e,
{
    match e {
        Sym::Add(a, b) => simplify_node(Sym::Add(Box::new(simplified(*a)), Box::new(simplified(*b)))),
        Sym::Sub(a, b) => simplify_node(Sym::Sub(Box::new(simplified(*a)), Box::new(simplified(*b)))),
        Sym::Mul(a, b) => simplify_node(Sym::Mul(Box::new(simplified(*a)), Box::new(simplified(*b)))),
        Sym::Div(a, b) => simplify_node(Sym::Div(Box::new(simplified(*a)), Box::new(simplified(*b)))),
        _ => e,
    }
}

impl SymExpr {
    /// A copy of the expression.
    pub fn copy(&self) -> (r: SymExpr)
        ensures
            r@ == self@,
        decreases self,
    {
        match self {
            SymExpr::Const(c) => SymExpr::Const(*c),
            SymExpr::Var(n) => SymExpr::Var(n.clone()),
            SymExpr::Add(a, b) => SymExpr::Add(Box::new(a.copy()), Box::new(b.copy())),
            SymExpr::Sub(a, b) => SymExpr::Sub(Box::new(a.copy()), Box::new(b.copy())),
            SymExpr::Mul(a, b) => SymExpr::Mul(Box::new(a.copy()), Box::new(b.copy())),
            SymExpr::Div(a, b) => SymExpr::Div(Box::new(a.copy()), Box::new(b.copy())),
            SymExpr::Mod(a, b) => SymExpr::Mod(Box::new(a.copy()), Box::new(b.copy())),
        }
    }

    /// Structural equality.
    pub fn same(&self, other: &SymExpr) -> (r: bool)
        ensures
            r == (self@ == other@),
        decreases self,
    {
        match (self, other) {
            (SymExpr::Const(a), SymExpr::Const(b)) => *a == *b,
            (SymExpr::Var(a), SymExpr::Var(b)) => *a == *b,
            (SymExpr::Add(a1, b1), SymExpr::Add(a2, b2)) => a1.same(a2) && b1.same(b2),
            (SymExpr::Sub(a1, b1), SymExpr::Sub(a2, b2)) => a1.same(a2) && b1.same(b2),
            (SymExpr::Mul(a1, b1), SymExpr::Mul(a2, b2)) => a1.same(a2) && b1.same(b2),
            (SymExpr::Div(a1, b1), SymExpr::Div(a2, b2)) => a1.same(a2) && b1.same(b2),
            (SymExpr::Mod(a1, b1), SymExpr::Mod(a2, b2)) => a1.same(a2) && b1.same(b2),
            _ => false,
        }
    }

    fn const_value(&self) -> (r: Option<i64>)
        ensures
            r == (match self@ {
                Sym::Const(c) => Some(c),
                _ => None::<i64>,
            }),
    {
        match self {
            SymExpr::Const(c) => Some(*c),
            _ => None,
        }
    }

    /// The simplified expression: operands first, then constant folding (wrapping on
    /// overflow; a quotient is folded only where it exists) and the identities `x + 0`,
    /// `0 + x`, `x - 0`, `x - x`, `x * 0`, `0 * x`, `x * 1`, `1 * x` and `x / 1`.
    pub fn simplify(&self) -> (r: SymExpr)
        ensures
            r@ == simplified(self@),
        decreases self,
    {
        match self {
            SymExpr::Add(a, b) => {
                let sa = a.simplify();
                let sb = b.simplify();
                match (sa.const_value(), sb.const_value()) {
                    (Some(x), Some(y)) => SymExpr::Const(x.wrapping_add(y)),
                    (Some(0), _) => sb,
                    (_, Some(0)) => sa,
                    _ => SymExpr::Add(Box::new(sa), Box::new(sb)),
                }
            },
            SymExpr::Sub(a, b) => {
                let sa = a.simplify();
                let sb = b.simplify();
                match (sa.const_value(), sb.const_value()) {
                    (Some(x), Some(y)) => SymExpr::Const(x.wrapping_sub(y)),
                    (_, Some(0)) => sa,
                    _ => if sa.same(&sb) {
                        SymExpr::Const(0)
                    } else {
                        SymExpr::Sub(Box::new(sa), Box::new(sb))
                    },
                }
            },
            SymExpr::Mul(a, b) => {
                let sa = a.simplify();
                let sb = b.simplify();
                match (sa.const_value(), sb.const_value()) {
                    (Some(x), Some(y)) => SymExpr::Const(x.wrapping_mul(y)),
                    (Some(0), _) => SymExpr::Const(0),
                    (_, Some(0)) => SymExpr::Const(0),
                    (Some(1), _) => sb,
                    (_, Some(1)) => sa,
                    _ => SymExpr::Mul(Box::new(sa), Box::new(sb)),
                }
            },
            SymExpr::Div(a, b) => {
                let sa = a.simplify();
                let sb = b.simplify();
                match (sa.const_value(), sb.const_value()) {
                    (Some(x), Some(y)) => {
                        if y != 0 && x.checked_div(y).is_some() {
                            SymExpr::Const(x.checked_div(y).unwrap())
                        } else if y == 1 {
                            SymExpr::Const(x)
                        } else {
                            SymExpr::Div(Box::new(sa), Box::new(sb))
                        }
                    },
                    (_, Some(1)) => sa,
                    _ => SymExpr::Div(Box::new(sa), Box::new(sb)),
                }
            },
            _ => self.copy(),
        }
    }

    /// The value of the expression under `env`; see `eval`.
    pub fn evaluate(&self, env: &StrMap<i64>) -> (r: Option<i64>)
        requires
            env.wf(),
        ensures
            r == eval(self@, env@),
        decreases self,
    {
        match self {
            SymExpr::Const(c) => Some(*c),
            SymExpr::Var(name) => match env.get(name) {
                Some(v) => Some(*v),
                None => None,
            },
            SymExpr::Add(a, b) => {
                let x = match a.evaluate(env) {
                    Some(x) => x,
                    None => return None,
                };
                let y = match b.evaluate(env) {
                    Some(y) => y,
                    None => return None,
                };
                x.checked_add(y)
            },
            SymExpr::Sub(a, b) => {
                let x = match a.evaluate(env) {
                    Some(x) => x,
                    None => return None,
                };
                let y = match b.evaluate(env) {
                    Some(y) => y,
                    None => return None,
                };
                x.checked_sub(y)
            },
            SymExpr::Mul(a, b) => {
                let x = match a.evaluate(env) {
                    Some(x) => x,
                    None => return None,
                };
                let y = match b.evaluate(env) {
                    Some(y) => y,
                    None => return None,
                };
                x.checked_mul(y)
            },
            SymExpr::Div(a, b) => {
                let d = match b.evaluate(env) {
                    Some(d) => d,
                    None => return None,
                };
                if d == 0 {
                    return None;
                }
                match a.evaluate(env) {
                    Some(x) => x.checked_div(d),
                    None => None,
                }
            },
            SymExpr::Mod(a, b) => {
                let d = match b.evaluate(env) {
                    Some(d) => d,
                    None => return None,
                };
                if d == 0 {
                    return None;
                }
                match a.evaluate(env) {
                    Some(x) => x.checked_rem(d),
                    None => None,
                }
            },
        }
    }
}

/// Simplification keeps the value of every expression that has one.
pub proof fn lemma_simplify_keeps_value(e: Sym, env: Map<Seq<char>, i64>)
    requires
        eval(e, env) is Some,
    ensures
        eval(simplified(e), env) == eval(e, env),
    decreases e,
{
    match e {
        Sym::Add(a, b) => {
            lemma_simplify_keeps_value(*a, env);
            lemma_simplify_keeps_value(*b, env);
        },
        Sym::Sub(a, b) => {
            lemma_simplify_keeps_value(*a, env);
            lemma_simplify_keeps_value(*b, env);
        },
        Sym::Mul(a, b) => {
            lemma_simplify_keeps_value(*a, env);
            lemma_simplify_keeps_value(*b, env);
        },
        Sym::Div(a, b) => {
            lemma_simplify_keeps_value(*a, env);
            lemma_simplify_keeps_value(*b, env);
        },
        _ => {},
    }
}

/// A comparison between two expressions.
pub enum Constraint {
    Eq(SymExpr, SymExpr),
    Ne(SymExpr, SymExpr),
    Gt(SymExpr, SymExpr),
    Ge(SymExpr, SymExpr),
    Lt(SymExpr, SymExpr),
    Le(SymExpr, SymExpr),
}

/// The content of a constraint.
pub enum Cons {
    Eq(Sym, Sym),
    Ne(Sym, Sym),
    Gt(Sym, Sym),
    Ge(Sym, Sym),
    Lt(Sym, Sym),
    Le(Sym, Sym),
}

impl View for Constraint {
    type V = Cons;

    open spec fn view(&self) -> Cons {
        match self {
            Constraint::Eq(a, b) => Cons::Eq(a@, b@),
            Constraint::Ne(a, b) => Cons::Ne(a@, b@),
            Constraint::Gt(a, b) => Cons::Gt(a@, b@),
            Constraint::Ge(a, b) => Cons::Ge(a@, b@),
            Constraint::Lt(a, b) => Cons::Lt(a@, b@),
            Constraint::Le(a, b) => Cons::Le(a@, b@),
        }
    }
}

/// Whether a constraint holds under `env`; `None` where a side has no value.
pub open spec fn sat(c: Cons, env: Map<Seq<char>, i64>) -> Option<bool> {
    let (l, r) = match c {
        Cons::Eq(a, b) => (a, b),
        Cons::Ne(a, b) => (a, b),
        Cons::Gt(a, b) => (a, b),
        Cons::Ge(a, b) => (a, b),
        Cons::Lt(a, b) => (a, b),
        Cons::Le(a, b) => (a, b),
    };
    match (eval(l, env), eval(r, env)) {
        (Some(x), Some(y)) => Some(
            match c {
                Cons::Eq(_, _) => x == y,
                Cons::Ne(_, _) => x != y,
                Cons::Gt(_, _) => x > y,
                Cons::Ge(_, _) => x >= y,
                Cons::Lt(_, _) => x < y,
                Cons::Le(_, _) => x <= y,
            },
        ),
        _ => None,
    }
}

/// The opposite comparison of the same two expressions.
pub open spec fn negated(c: Cons) -> Cons {
    match c {
        Cons::Eq(a, b) => Cons::Ne(a, b),
        Cons::Ne(a, b) => Cons::Eq(a, b),
        Cons::Gt(a, b) => Cons::Le(a, b),
        Cons::Ge(a, b) => Cons::Lt(a, b),
        Cons::Lt(a, b) => Cons::Ge(a, b),
        Cons::Le(a, b) => Cons::Gt(a, b),
    }
}

/// A negated constraint holds exactly where the constraint fails, and both are undefined at
/// the same assignments.
pub proof fn lemma_negate_flips(c: Cons, env: Map<Seq<char>, i64>)
    ensures
        sat(negated(c), env) == match sat(c, env) {
            Some(b) => Some(!b),
            None => None::<bool>,
        },
{
}

/// Negating twice gives the constraint back.
pub proof fn lemma_negate_twice(c: Cons)
    ensures
        negated(negated(c)) == c,
{
}

impl Constraint {
    /// A copy of the constraint.
    pub fn copy(&self) -> (r: Constraint)
        ensures
            r@ == self@,
    {
        match self {
            Constraint::Eq(a, b) => Constraint::Eq(a.copy(), b.copy()),
            Constraint::Ne(a, b) => Constraint::Ne(a.copy(), b.copy()),
            Constraint::Gt(a, b) => Constraint::Gt(a.copy(), b.copy()),
            Constraint::Ge(a, b) => Constraint::Ge(a.copy(), b.copy()),
            Constraint::Lt(a, b) => Constraint::Lt(a.copy(), b.copy()),
            Constraint::Le(a, b) => Constraint::Le(a.copy(), b.copy()),
        }
    }

    /// Whether the constraint holds under `env`; `None` where a side has no value.
    pub fn is_satisfied(&self, env: &StrMap<i64>) -> (r: Option<bool>)
        requires
            env.wf(),
        ensures
            r == sat(self@, env@),
    {
        let (a, b) = match self {
            Constraint::Eq(a, b) => (a, b),
            Constraint::Ne(a, b) => (a, b),
            Constraint::Gt(a, b) => (a, b),
            Constraint::Ge(a, b) => (a, b),
            Constraint::Lt(a, b) => (a, b),
            Constraint::Le(a, b) => (a, b),
        };
        let x = match a.evaluate(env) {
            Some(x) => x,
            None => return None,
        };
        let y = match b.evaluate(env) {
            Some(y) => y,
            None => return None,
        };
        Some(
            match self {
                Constraint::Eq(_, _) => x == y,
                Constraint::Ne(_, _) => x != y,
                Constraint::Gt(_, _) => x > y,
                Constraint::Ge(_, _) => x >= y,
                Constraint::Lt(_, _) => x < y,
                Constraint::Le(_, _) => x <= y,
            },
        )
    }

    /// The opposite comparison: `==` and `!=` swap, `>` becomes `<=`, `>=` becomes `<`, and
    /// the other way round.
    pub fn negate(&self) -> (r: Constraint)
        ensures
            r@ == negated(self@),
    {
        match self {
            Constraint::Eq(a, b) => Constraint::Ne(a.copy(), b.copy()),
            Constraint::Ne(a, b) => Constraint::Eq(a.copy(), b.copy()),
            Constraint::Gt(a, b) => Constraint::Le(a.copy(), b.copy()),
            Constraint::Ge(a, b) => Constraint::Lt(a.copy(), b.copy()),
            Constraint::Lt(a, b) => Constraint::Ge(a.copy(), b.copy()),
            Constraint::Le(a, b) => Constraint::Gt(a.copy(), b.copy()),
        }
    }
}

/// The range of values a variable may still take.
#[derive(Clone, Copy, Debug, PartialEq, Eq, Structural)]
pub struct IntervalDomain {
    pub min: i64,
    pub max: i64,
}

impl View for IntervalDomain {
    type V = IntervalDomain;

    open spec fn view(&self) -> IntervalDomain {
        *self
    }
}

impl Duplicate for IntervalDomain {
    fn duplicate(&self) -> (r: IntervalDomain) {
        *self
    }
}

/// The lower end of a fresh domain, `i64::MIN / 4`.
pub const DOMAIN_MIN: i64 = -2305843009213693952;

/// The upper end of a fresh domain, `i64::MAX / 4`.
pub const DOMAIN_MAX: i64 = 2305843009213693951;

pub open spec fn default_domain() -> IntervalDomain {
    IntervalDomain { min: DOMAIN_MIN, max: DOMAIN_MAX }
}

impl Default for IntervalDomain {
    fn default() -> (r: IntervalDomain)
        ensures
            r == default_domain(),
    {
        IntervalDomain { min: DOMAIN_MIN, max: DOMAIN_MAX }
    }
}

/// The variable whose domain a constraint narrows: a comparison of a variable with a
/// constant, on either side.
pub open spec fn refined_var(c: Cons) -> Option<Seq<char>> {
    match c {
        Cons::Eq(Sym::Var(v), Sym::Const(_)) | Cons::Eq(Sym::Const(_), Sym::Var(v)) => Some(v),
        Cons::Gt(Sym::Var(v), Sym::Const(_)) | Cons::Gt(Sym::Const(_), Sym::Var(v)) => Some(v),
        Cons::Ge(Sym::Var(v), Sym::Const(_)) | Cons::Ge(Sym::Const(_), Sym::Var(v)) => Some(v),
        Cons::Lt(Sym::Var(v), Sym::Const(_)) | Cons::Lt(Sym::Const(_), Sym::Var(v)) => Some(v),
        Cons::Le(Sym::Var(v), Sym::Const(_)) | Cons::Le(Sym::Const(_), Sym::Var(v)) => Some(v),
        _ => None,
    }
}

/// Narrowing would step past the range of `i64` (`x > i64::MAX` or `x < i64::MIN`).
pub open spec fn refine_overflows(c: Cons) -> bool {
    match c {
        Cons::Gt(Sym::Var(_), Sym::Const(k)) | Cons::Lt(Sym::Const(k), Sym::Var(_)) => k == i64::MAX,
        Cons::Lt(Sym::Var(_), Sym::Const(k)) | Cons::Gt(Sym::Const(k), Sym::Var(_)) => k == i64::MIN,
        _ => false,
    }
}

pub open spec fn max_i64(a: i64, b: i64) -> i64 {
    if a >= b {
        a
    } else {
        b
    }
}

pub open spec fn min_i64(a: i64, b: i64) -> i64 {
    if a <= b {
        a
    } else {
        b
    }
}

/// The domain after the constraint `c` on its variable.
pub open spec fn refined(d: IntervalDomain, c: Cons) -> IntervalDomain {
    match c {
        Cons::Ge(Sym::Var(_), Sym::Const(k)) | Cons::Le(Sym::Const(k), Sym::Var(_)) => IntervalDomain {
            min: max_i64(d.min, k),
            max: d.max,
        },
        Cons::Gt(Sym::Var(_), Sym::Const(k)) | Cons::Lt(Sym::Const(k), Sym::Var(_)) => IntervalDomain {
            min: max_i64(d.min, (k + 1) as i64),
            max: d.max,
        },
        Cons::Le(Sym::Var(_), Sym::Const(k)) | Cons::Ge(Sym::Const(k), Sym::Var(_)) => IntervalDomain {
            min: d.min,
            max: min_i64(d.max, k),
        },
        Cons::Lt(Sym::Var(_), Sym::Const(k)) | Cons::Gt(Sym::Const(k), Sym::Var(_)) => IntervalDomain {
            min: d.min,
            max: min_i64(d.max, (k - 1) as i64),
        },
        Cons::Eq(Sym::Var(_), Sym::Const(k)) | Cons::Eq(Sym::Const(k), Sym::Var(_)) => IntervalDomain {
            min: max_i64(d.min, k),
            max: min_i64(d.max, k),
        },
        _ => d,
    }
}

/// The domain of `v`: its recorded one, else a fresh one.
pub open spec fn domain_of(doms: Map<Seq<char>, IntervalDomain>, v: Seq<char>) -> IntervalDomain {
    if doms.dom().contains(v) {
        doms[v]
    } else {
        default_domain()
    }
}

pub open spec fn cons_views(cs: Seq<Constraint>) -> Seq<Cons> {
    cs.map_values(|c: Constraint| c@)
}

/// A feasibility solver over integer intervals: the constraints seen so far, and for each
/// variable compared with a constant, the interval that such comparisons leave it.
pub struct ConstraintSolver {
    pub constraints: Vec<Constraint>,
    pub domains: StrMap<IntervalDomain>,
}

impl ConstraintSolver {
    /// Recorded domains stay within the fresh domain.
    pub open spec fn wf(&self) -> bool {
        &&& self.domains.wf()
        &&& forall|v: Seq<char>|
            #[trigger] self.domains@.dom().contains(v) ==> DOMAIN_MIN <= self.domains@[v].min
                && self.domains@[v].max <= DOMAIN_MAX
    }

    pub open spec fn constraint_seq(&self) -> Seq<Cons> {
        cons_views(self.constraints@)
    }

    pub fn new() -> (s: Self)
        ensures
            s.wf(),
            s.constraints@.len() == 0,
            s.domains@ == Map::<Seq<char>, IntervalDomain>::empty(),
    {
        ConstraintSolver { constraints: Vec::new(), domains: StrMap::new() }
    }

    /// Records a constraint and narrows its variable's domain; returns whether that domain is
    /// still non-empty (`true` when the constraint narrows nothing).
    pub fn add_constraint(&mut self, c: Constraint) -> (feasible: bool)
        requires
            old(self).wf(),
            !refine_overflows(c@),
        ensures
            final(self).wf(),
            final(self).constraint_seq() == old(self).constraint_seq().push(c@),
            match refined_var(c@) {
                Some(v) => {
                    let d = refined(domain_of(old(self).domains@, v), c@);
                    &&& final(self).domains@ == old(self).domains@.insert(v, d)
                    &&& feasible == (d.min <= d.max)
                },
                None => final(self).domains@ == old(self).domains@ && feasible,
            },
    {
        let ghost before = self.constraint_seq();
        self.constraints.push(c.copy());
        assert(self.constraint_seq() =~= before.push(c@));
        self.refine_domains(&c)
    }

    fn refine_domains(&mut self, c: &Constraint) -> (feasible: bool)
        requires
            old(self).wf(),
            !refine_overflows(c@),
        ensures
            final(self).wf(),
            final(self).constraints@ == old(self).constraints@,
            match refined_var(c@) {
                Some(v) => {
                    let d = refined(domain_of(old(self).domains@, v), c@);
                    &&& final(self).domains@ == old(self).domains@.insert(v, d)
                    &&& feasible == (d.min <= d.max)
                },
                None => final(self).domains@ == old(self).domains@ && feasible,
            },
    {
        let (name, lower, upper): (&String, Option<i64>, Option<i64>) = match c {
            Constraint::Ge(SymExpr::Var(v), SymExpr::Const(k)) => (v, Some(*k), None),
            Constraint::Le(SymExpr::Const(k), SymExpr::Var(v)) => (v, Some(*k), None),
            Constraint::Gt(SymExpr::Var(v), SymExpr::Const(k)) => (v, Some(*k + 1), None),
            Constraint::Lt(SymExpr::Const(k), SymExpr::Var(v)) => (v, Some(*k + 1), None),
            Constraint::Le(SymExpr::Var(v), SymExpr::Const(k)) => (v, None, Some(*k)),
            Constraint::Ge(SymExpr::Const(k), SymExpr::Var(v)) => (v, None, Some(*k)),
            Constraint::Lt(SymExpr::Var(v), SymExpr::Const(k)) => (v, None, Some(*k - 1)),
            Constraint::Gt(SymExpr::Const(k), SymExpr::Var(v)) => (v, None, Some(*k - 1)),
            Constraint::Eq(SymExpr::Var(v), SymExpr::Const(k)) => (v, Some(*k), Some(*k)),
            Constraint::Eq(SymExpr::Const(k), SymExpr::Var(v)) => (v, Some(*k), Some(*k)),
            _ => {
                return true;
            },
        };
        let mut dom = match self.domains.get(name) {
            Some(d) => *d,
            None => IntervalDomain::default(),
        };
        match lower {
            Some(k) => {
                if k > dom.min {
                    dom.min = k;
                }
            },
            None => {},
        }
        match upper {
            Some(k) => {
                if k < dom.max {
                    dom.max = k;
                }
            },
            None => {},
        }
        self.domains.insert(name.clone(), dom);
        dom.min <= dom.max
    }
}

/// Halving toward zero, as Rust's `/ 2` does.
pub open spec fn half(s: int) -> int {
    if s >= 0 {
        s / 2
    } else {
        -((-s) / 2)
    }
}

/// The points of `s` within `lo..=hi`, in order.
pub open spec fn keep_in(s: Seq<i64>, lo: i64, hi: i64) -> Seq<i64>
    decreases s.len(),
{
    if s.len() == 0 {
        s
    } else {
        let r = keep_in(s.drop_last(), lo, hi);
        if lo <= s.last() <= hi {
            r.push(s.last())
        } else {
            r
        }
    }
}

/// `s` without consecutive repeats (`Vec::dedup`).
pub open spec fn dedup(s: Seq<i64>) -> Seq<i64>
    decreases s.len(),
{
    if s.len() == 0 {
        s
    } else {
        let r = dedup(s.drop_last());
        if s.len() >= 2 && s[s.len() - 2] == s.last() {
            r
        } else {
            r.push(s.last())
        }
    }
}

/// The values tried for a variable: the ends of its domain, its middle, and
/// 0, 1, -1, 10, -10, those within the domain, consecutive repeats dropped.
pub open spec fn probe_points(d: IntervalDomain) -> Seq<i64> {
    dedup(keep_in(seq![d.min, d.max, half(d.min + d.max) as i64, 0i64, 1i64, -1i64, 10i64, -10i64], d.min, d.max))
}

pub open spec fn names(vars: Seq<String>) -> Seq<Seq<char>> {
    vars.map_values(|v: String| v@)
}

/// The points tried for each of the variables.
pub open spec fn probe_map(doms: Map<Seq<char>, IntervalDomain>, vars: Seq<Seq<char>>) -> Map<Seq<char>, Seq<i64>> {
    Map::new(|v: Seq<char>| vars.contains(v), |v: Seq<char>| probe_points(domain_of(doms, v)))
}

/// Every constraint holds under `env`.
pub open spec fn all_sat(cs: Seq<Cons>, env: Map<Seq<char>, i64>) -> bool {
    forall|i: int| 0 <= i < cs.len() ==> sat(#[trigger] cs[i], env) == Some(true)
}

/// The depth-first search for a model: at level `idx`, variable `vars[idx]` takes its `k`-th
/// point and the search goes one level deeper; where that fails the next point is tried, and
/// once the points run out the variable is unassigned again. At the bottom the constraints are
/// checked. Gives whether a model was found and the assignment it leaves.
pub open spec fn search(
    cs: Seq<Cons>,
    vars: Seq<Seq<char>>,
    idx: nat,
    cands: Map<Seq<char>, Seq<i64>>,
    env: Map<Seq<char>, i64>,
    k: nat,
) -> (bool, Map<Seq<char>, i64>)
    decreases vars.len() - idx, (if idx < vars.len() && cands.dom().contains(vars[idx as int]) {
        cands[vars[idx as int]].len() - k
    } else {
        0
    }),
{
    if idx >= vars.len() {
        (all_sat(cs, env), env)
    } else if !cands.dom().contains(vars[idx as int]) || k >= cands[vars[idx as int]].len() {
        (false, env.remove(vars[idx as int]))
    } else {
        let v = vars[idx as int];
        let (ok, after) = search(cs, vars, idx + 1, cands, env.insert(v, cands[v][k as int]), 0);
        if ok {
            (true, after)
        } else {
            search(cs, vars, idx, cands, after, k + 1)
        }
    }
}

/// A model that the search finds satisfies every constraint.
pub proof fn lemma_search_sound(
    cs: Seq<Cons>,
    vars: Seq<Seq<char>>,
    idx: nat,
    cands: Map<Seq<char>, Seq<i64>>,
    env: Map<Seq<char>, i64>,
    k: nat,
)
    ensures
        search(cs, vars, idx, cands, env, k).0 ==> all_sat(cs, search(cs, vars, idx, cands, env, k).1),
    decreases vars.len() - idx, (if idx < vars.len() && cands.dom().contains(vars[idx as int]) {
        cands[vars[idx as int]].len() - k
    } else {
        0
    }),
{
    if idx >= vars.len() {
    } else if !cands.dom().contains(vars[idx as int]) || k >= cands[vars[idx as int]].len() {
    } else {
        let v = vars[idx as int];
        let env2 = env.insert(v, cands[v][k as int]);
        lemma_search_sound(cs, vars, idx + 1, cands, env2, 0);
        let (ok, after) = search(cs, vars, idx + 1, cands, env2, 0);
        if !ok {
            lemma_search_sound(cs, vars, idx, cands, after, k + 1);
        }
    }
}

/// Some recorded domain is empty.
pub open spec fn some_domain_empty(doms: Map<Seq<char>, IntervalDomain>) -> bool {
    exists|v: Seq<char>| #[trigger] doms.dom().contains(v) && doms[v].min > doms[v].max
}

proof fn lemma_probe_map_push(doms: Map<Seq<char>, IntervalDomain>, vs: Seq<Seq<char>>, v: Seq<char>)
    ensures
        probe_map(doms, vs.push(v)) == probe_map(doms, vs).insert(v, probe_points(domain_of(doms, v))),
{
    let a = probe_map(doms, vs.push(v));
    let b = probe_map(doms, vs).insert(v, probe_points(domain_of(doms, v)));
    assert forall|x: Seq<char>| #[trigger] a.dom().contains(x) <==> b.dom().contains(x) by {
        if vs.push(v).contains(x) {
            let i = choose|i: int| 0 <= i < vs.push(v).len() && vs.push(v)[i] == x;
            if i < vs.len() {
                assert(vs[i] == x);
            }
        }
        if vs.contains(x) {
            let i = choose|i: int| 0 <= i < vs.len() && vs[i] == x;
            assert(vs.push(v)[i] == x);
        }
        if x == v {
            assert(vs.push(v)[vs.len() as int] == x);
        }
    }
    assert forall|x: Seq<char>| #[trigger] a.dom().contains(x) implies a[x] == b[x] by {}
    assert(a =~= b);
}

fn probe_points_of(d: IntervalDomain) -> (r: Vec<i64>)
    requires
        DOMAIN_MIN <= d.min <= d.max <= DOMAIN_MAX,
    ensures
        r@ == probe_points(d),
{
    let s = d.min + d.max;
    let mid = match s.checked_div(2) {
        Some(m) => m,
        None => 0,
    };
    assert(mid == half(s as int));
    let raw: Vec<i64> = vec![d.min, d.max, mid, 0, 1, -1, 10, -10];
    let ghost rs = seq![d.min, d.max, half(d.min + d.max) as i64, 0i64, 1i64, -1i64, 10i64, -10i64];
    assert(raw@ =~= rs);
    let mut kept: Vec<i64> = Vec::new();
    let mut i: usize = 0;
    while i < raw.len()
        invariant
            i <= raw@.len(),
            raw@ == rs,
            kept@ == keep_in(rs.take(i as int), d.min, d.max),
        decreases raw@.len() - i,
    {
        let p = raw[i];
        assert(rs.take(i + 1).drop_last() =~= rs.take(i as int));
        if d.min <= p && p <= d.max {
            kept.push(p);
        }
        i = i + 1;
    }
    assert(rs.take(8) =~= rs);
    let ghost ks = kept@;
    let mut out: Vec<i64> = Vec::new();
    let mut j: usize = 0;
    while j < kept.len()
        invariant
            j <= ks.len(),
            kept@ == ks,
            out@ == dedup(ks.take(j as int)),
        decreases ks.len() - j,
    {
        let p = kept[j];
        assert(ks.take(j + 1).drop_last() =~= ks.take(j as int));
        if j >= 1 && kept[j - 1] == p {
            assert(ks.take(j + 1)[j - 1] == ks[j - 1]);
        } else {
            out.push(p);
        }
        j = j + 1;
    }
    assert(ks.take(ks.len() as int) =~= ks);
    out
}

impl ConstraintSolver {
    /// Looks for values of `var_names` that satisfy every recorded constraint, trying for each
    /// variable the points of its domain (`probe_points`) in order, depth first. `None` at once
    /// when some recorded domain is empty.
    pub fn find_model(&self, var_names: &[String]) -> (r: Option<StrMap<i64>>)
        requires
            self.wf(),
        ensures
            some_domain_empty(self.domains@) ==> r is None,
            !some_domain_empty(self.domains@) ==> match search(
                self.constraint_seq(),
                names(var_names@),
                0,
                probe_map(self.domains@, names(var_names@)),
                Map::empty(),
                0,
            ) {
                (true, m) => r matches Some(model) && model.wf() && model@ == m,
                (false, _) => r is None,
            },
            r matches Some(model) ==> all_sat(self.constraint_seq(), model@),
    {
        let mut i: usize = 0;
        while i < self.domains.entries.len()
            invariant
                self.wf(),
                i <= self.domains.entries@.len(),
                forall|j: int| 0 <= j < i ==> (#[trigger] self.domains.entries@[j]).1.min
                    <= self.domains.entries@[j].1.max,
            decreases self.domains.entries@.len() - i,
        {
            let d = self.domains.entries[i].1;
            if d.min > d.max {
                proof {
                    lemma_map_of_value(self.domains.entries@, i as int);
                }
                return None;
            }
            i = i + 1;
        }
        proof {
            if some_domain_empty(self.domains@) {
                let v = choose|v: Seq<char>| #[trigger] self.domains@.dom().contains(v) && self.domains@[v].min > self.domains@[v].max;
                lemma_map_of_contains(self.domains.entries@, v);
                let j = choose|j: int| 0 <= j < self.domains.entries@.len() && #[trigger] self.domains.entries@[j].0@ == v;
                lemma_map_of_value(self.domains.entries@, j);
            }
        }
        let ghost nv = names(var_names@);
        let mut candidates: StrMap<Vec<i64>> = StrMap::new();
        let mut k: usize = 0;
        while k < var_names.len()
            invariant
                self.wf(),
                !some_domain_empty(self.domains@),
                k <= var_names@.len(),
                nv == names(var_names@),
                candidates.wf(),
                candidates@ == probe_map(self.domains@, nv.take(k as int)),
            decreases var_names@.len() - k,
        {
            let v = &var_names[k];
            let d = match self.domains.get(v) {
                Some(d) => *d,
                None => IntervalDomain::default(),
            };
            assert(d == domain_of(self.domains@, v@));
            assert(self.domains@.dom().contains(v@) ==> !(self.domains@[v@].min > self.domains@[v@].max));
            let pts = probe_points_of(d);
            candidates.insert(v.clone(), pts);
            proof {
                assert(nv[k as int] == v@);
                assert(nv.take(k + 1) =~= nv.take(k as int).push(v@));
                lemma_probe_map_push(self.domains@, nv.take(k as int), v@);
            }
            k = k + 1;
        }
        assert(nv.take(var_names@.len() as int) =~= nv);
        let mut env: StrMap<i64> = StrMap::new();
        let found = self.search_model_recursive(var_names, 0, &candidates, &mut env);
        proof {
            lemma_search_sound(self.constraint_seq(), nv, 0, candidates@, Map::empty(), 0);
        }
        if found {
            Some(env)
        } else {
            None
        }
    }

    fn search_model_recursive(
        &self,
        vars: &[String],
        idx: usize,
        candidates: &StrMap<Vec<i64>>,
        env: &mut StrMap<i64>,
    ) -> (found: bool)
        requires
            old(env).wf(),
            candidates.wf(),
            idx <= vars@.len(),
        ensures
            final(env).wf(),
            (found, final(env)@) == search(self.constraint_seq(), names(vars@), idx as nat, candidates@, old(env)@, 0),
        decreases vars@.len() - idx,
    {
        let ghost cs = self.constraint_seq();
        let ghost nv = names(vars@);
        let n = vars.len();
        assert(nv.len() == vars@.len());
        assert(cs.len() == self.constraints@.len());
        if idx == n {
            let mut i: usize = 0;
            while i < self.constraints.len()
                invariant
                    i <= self.constraints@.len(),
                    cs == self.constraint_seq(),
                    env.wf(),
                    env@ == old(env)@,
                    idx as nat >= nv.len(),
                    nv == names(vars@),
                    forall|j: int| 0 <= j < i ==> sat(#[trigger] cs[j], env@) == Some(true),
                decreases self.constraints@.len() - i,
            {
                match self.constraints[i].is_satisfied(env) {
                    Some(true) => {
                        assert(cs[i as int] == self.constraints@[i as int]@);
                    },
                    _ => {
                        assert(cs[i as int] == self.constraints@[i as int]@);
                        assert(sat(cs[i as int], env@) != Some(true));
                        assert(!all_sat(cs, env@));
                        return false;
                    },
                }
                i = i + 1;
            }
            return true;
        }
        let var = &vars[idx];
        assert(nv[idx as int] == var@);
        match candidates.get(var) {
            Some(pts) => {
                let mut k: usize = 0;
                while k < pts.len()
                    invariant
                        k <= pts@.len(),
                        env.wf(),
                        candidates.wf(),
                        idx < n,
                        n == vars@.len(),
                        cs == self.constraint_seq(),
                        nv == names(vars@),
                        nv[idx as int] == var@,
                        candidates@.dom().contains(var@),
                        pts@ == candidates@[var@],
                        search(cs, nv, idx as nat, candidates@, old(env)@, 0) == search(
                            cs,
                            nv,
                            idx as nat,
                            candidates@,
                            env@,
                            k as nat,
                        ),
                    decreases pts@.len() - k,
                {
                    env.insert(var.clone(), pts[k]);
                    if self.search_model_recursive(vars, idx + 1, candidates, env) {
                        return true;
                    }
                    k = k + 1;
                }
            },
            None => {},
        }
        env.remove(var);
        false
    }
}

/// The outcome of checking one function: whether its contracts hold on every path explored,
/// a counter-example where one fails, and the hazards found.
pub struct VerificationReport {
    pub function_name: String,
    pub is_verified: bool,
    pub paths_explored: usize,
    pub counter_example: Option<StrMap<i64>>,
    pub diagnostic: String,
    pub vulnerabilities: Vec<String>,
}

/// Collects the reports of the functions checked so far.
pub struct SymbolicVerifier {
    pub reports: Vec<VerificationReport>,
}

impl SymbolicVerifier {
    pub fn new() -> (v: Self)
        ensures
            v.reports@.len() == 0,
    {
        SymbolicVerifier { reports: Vec::new() }
    }
}

} // verus!
