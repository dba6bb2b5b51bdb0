use aether_vm::strmap::StrMap;
use aether_vm::symbolic::{Constraint, ConstraintSolver, IntervalDomain, SymExpr, SymbolicVerifier};

fn c(v: i64) -> SymExpr {
    SymExpr::Const(v)
}

fn var(n: &str) -> SymExpr {
    SymExpr::Var(n.to_string())
}

fn add(a: SymExpr, b: SymExpr) -> SymExpr {
    SymExpr::Add(Box::new(a), Box::new(b))
}

fn env(pairs: &[(&str, i64)]) -> StrMap<i64> {
    let mut m = StrMap::new();
    for (k, v) in pairs {
        m.insert(k.to_string(), *v);
    }
    m
}

fn is_const(e: &SymExpr, v: i64) -> bool {
    matches!(e, SymExpr::Const(x) if *x == v)
}

#[test]
fn constants_fold() {
    assert!(is_const(&add(c(2), c(3)).simplify(), 5));
    assert!(is_const(&SymExpr::Mul(Box::new(c(4)), Box::new(c(5))).simplify(), 20));
    assert!(is_const(&SymExpr::Div(Box::new(c(7)), Box::new(c(-2))).simplify(), -3));
    assert!(is_const(&SymExpr::Sub(Box::new(var("x")), Box::new(var("x"))).simplify(), 0));
    assert!(is_const(&SymExpr::Mul(Box::new(var("x")), Box::new(c(0))).simplify(), 0));
}

#[test]
fn identities_drop_neutral_operands() {
    match add(var("x"), c(0)).simplify() {
        SymExpr::Var(n) => assert_eq!(n, "x"),
        _ => panic!("x + 0 is x"),
    }
    match SymExpr::Mul(Box::new(c(1)), Box::new(var("y"))).simplify() {
        SymExpr::Var(n) => assert_eq!(n, "y"),
        _ => panic!("1 * y is y"),
    }
    match SymExpr::Div(Box::new(var("z")), Box::new(c(1))).simplify() {
        SymExpr::Var(n) => assert_eq!(n, "z"),
        _ => panic!("z / 1 is z"),
    }
    assert!(matches!(SymExpr::Div(Box::new(c(1)), Box::new(c(0))).simplify(), SymExpr::Div(_, _)));
    assert!(matches!(SymExpr::Mod(Box::new(add(c(1), c(1))), Box::new(c(3))).simplify(), SymExpr::Mod(_, _)));
}

#[test]
fn evaluation() {
    let e = env(&[("x", 7), ("y", -2)]);
    assert_eq!(add(var("x"), var("y")).evaluate(&e), Some(5));
    assert_eq!(SymExpr::Div(Box::new(var("x")), Box::new(var("y"))).evaluate(&e), Some(-3));
    assert_eq!(SymExpr::Mod(Box::new(c(-7)), Box::new(c(2))).evaluate(&e), Some(-1));
    assert_eq!(SymExpr::Div(Box::new(var("x")), Box::new(c(0))).evaluate(&e), None);
    assert_eq!(var("missing").evaluate(&e), None);
    assert_eq!(add(c(i64::MAX), c(1)).evaluate(&e), None);
}

#[test]
fn simplification_keeps_values() {
    let e = env(&[("x", 11)]);
    let exprs = vec![
        add(add(var("x"), c(0)), c(4)),
        SymExpr::Mul(Box::new(c(1)), Box::new(SymExpr::Sub(Box::new(var("x")), Box::new(c(3))))),
        SymExpr::Div(Box::new(add(c(10), c(5))), Box::new(c(1))),
    ];
    for x in exprs {
        assert_eq!(x.simplify().evaluate(&e), x.evaluate(&e));
    }
}

#[test]
fn constraints_and_negation() {
    let e = env(&[("x", 3)]);
    let gt = Constraint::Gt(var("x"), c(2));
    assert_eq!(gt.is_satisfied(&e), Some(true));
    assert_eq!(gt.negate().is_satisfied(&e), Some(false));
    assert!(matches!(gt.negate(), Constraint::Le(_, _)));
    assert!(matches!(Constraint::Eq(c(1), c(1)).negate(), Constraint::Ne(_, _)));
    assert_eq!(Constraint::Lt(var("nope"), c(1)).is_satisfied(&e), None);
}

#[test]
fn default_domain_is_a_quarter_of_the_range() {
    let d = IntervalDomain::default();
    assert_eq!(d.min, i64::MIN / 4);
    assert_eq!(d.max, i64::MAX / 4);
}

#[test]
fn solver_narrows_domains() {
    let mut s = ConstraintSolver::new();
    assert!(s.add_constraint(Constraint::Ge(var("x"), c(5))));
    assert!(s.add_constraint(Constraint::Lt(var("x"), c(9))));
    let d = *s.domains.get(&"x".to_string()).unwrap();
    assert_eq!((d.min, d.max), (5, 8));
    assert!(!s.add_constraint(Constraint::Gt(c(3), var("x"))));
    assert_eq!(s.constraints.len(), 3);
}

#[test]
fn model_search_finds_candidate_points() {
    let mut s = ConstraintSolver::new();
    s.add_constraint(Constraint::Ge(var("x"), c(5)));
    s.add_constraint(Constraint::Le(var("x"), c(20)));
    s.add_constraint(Constraint::Eq(add(var("x"), var("y")), c(30)));
    let names = vec!["x".to_string(), "y".to_string()];
    let m = s.find_model(&names).unwrap();
    let x = *m.get(&"x".to_string()).unwrap();
    let y = *m.get(&"y".to_string()).unwrap();
    assert_eq!(x + y, 30);
    assert_eq!((x, y), (20, 10));
}

#[test]
fn empty_domain_has_no_model() {
    let mut s = ConstraintSolver::new();
    s.add_constraint(Constraint::Gt(var("x"), c(5)));
    s.add_constraint(Constraint::Lt(var("x"), c(3)));
    assert!(s.find_model(&["x".to_string()]).is_none());
}

#[test]
fn unsatisfiable_constraints_have_no_model() {
    let mut s = ConstraintSolver::new();
    s.add_constraint(Constraint::Eq(SymExpr::Mul(Box::new(var("x")), Box::new(c(2))), c(7)));
    assert!(s.find_model(&["x".to_string()]).is_none());
}

#[test]
fn verifier_starts_without_reports() {
    assert_eq!(SymbolicVerifier::new().reports.len(), 0);
}
