use aether_vm::bytecode::Span;
use aether_vm::expr_compiler::{AssignOp, BinaryOp, Expr, Literal, Statement};
use aether_vm::prover::{eval_sym_expr, explore_block, expr_to_constraint};
use aether_vm::strmap::StrMap;
use aether_vm::symbolic::{Constraint, ConstraintSolver, SymExpr};

fn at(line: usize) -> Span {
    Span { line, col: 1 }
}

fn lit(v: i64) -> Expr {
    Expr::Literal(Literal::Int(v), at(1))
}

fn float(f: f64) -> Expr {
    Expr::Literal(Literal::Float(f.to_bits()), at(1))
}

fn ident(n: &str) -> Expr {
    Expr::Ident(n.to_string(), at(1))
}

fn bin(l: Expr, op: BinaryOp, r: Expr, line: usize) -> Expr {
    Expr::Binary(Box::new(l), op, Box::new(r), at(line))
}

fn konst(e: &SymExpr) -> Option<i64> {
    match e {
        SymExpr::Const(c) => Some(*c),
        _ => None,
    }
}

#[test]
fn symbolic_evaluation_folds_constants_and_keeps_names() {
    let env: StrMap<SymExpr> = StrMap::new();
    let mut found: Vec<String> = Vec::new();
    let e = bin(lit(2), BinaryOp::Mul, bin(lit(3), BinaryOp::Add, lit(4), 1), 1);
    assert_eq!(konst(&eval_sym_expr(&e, &env, &mut found)), Some(14));
    match eval_sym_expr(&bin(ident("x"), BinaryOp::Add, lit(0), 1), &env, &mut found) {
        SymExpr::Var(n) => assert_eq!(n, "x"),
        _ => panic!("expected the variable itself"),
    }
    assert_eq!(konst(&eval_sym_expr(&Expr::Literal(Literal::Bool(true), at(1)), &env, &mut found)), Some(1));
    assert_eq!(konst(&eval_sym_expr(&Expr::Literal(Literal::Nil, at(1)), &env, &mut found)), Some(0));
    assert!(found.is_empty());
}

#[test]
fn symbolic_evaluation_reports_zero_divisors() {
    let env: StrMap<SymExpr> = StrMap::new();
    let mut found: Vec<String> = Vec::new();
    let e = bin(ident("a"), BinaryOp::Div, bin(lit(1), BinaryOp::Sub, lit(1), 7), 7);
    eval_sym_expr(&e, &env, &mut found);
    let m = bin(ident("a"), BinaryOp::Mod, lit(0), 12);
    eval_sym_expr(&m, &env, &mut found);
    assert_eq!(
        found,
        vec![
            "Division by Zero Vulnerability at line 7: divisor evaluates to 0".to_string(),
            "Modulo by Zero Vulnerability at line 12: divisor evaluates to 0".to_string(),
        ]
    );
}

#[test]
fn float_literals_truncate_toward_zero() {
    let env: StrMap<SymExpr> = StrMap::new();
    let mut found: Vec<String> = Vec::new();
    let cases: Vec<(f64, i64)> = vec![
        (2.9, 2),
        (-2.9, -2),
        (0.5, 0),
        (1024.0, 1024),
        (f64::NAN, 0),
        (1e30, i64::MAX),
        (f64::NEG_INFINITY, i64::MIN),
        (-9.3e18, i64::MIN),
        (4503599627370497.0, 4503599627370497),
    ];
    for (f, want) in cases {
        assert_eq!(konst(&eval_sym_expr(&float(f), &env, &mut found)), Some(want));
        assert_eq!(f as i64, want);
    }
}

#[test]
fn comparisons_become_constraints() {
    let mut env: StrMap<SymExpr> = StrMap::new();
    env.insert("y".to_string(), SymExpr::Const(5));
    match expr_to_constraint(&bin(ident("x"), BinaryOp::Greater, ident("y"), 1), &env) {
        Some(Constraint::Gt(SymExpr::Var(n), SymExpr::Const(5))) => assert_eq!(n, "x"),
        _ => panic!("expected x > 5"),
    }
    assert!(expr_to_constraint(&bin(ident("x"), BinaryOp::Add, lit(1), 1), &env).is_none());
    assert!(expr_to_constraint(&ident("x"), &env).is_none());
}

#[test]
fn exploring_a_body_follows_assignments_to_the_return() {
    let stmts = vec![
        Statement::Let { name: "y".to_string(), initializer: Some(bin(ident("x"), BinaryOp::Mul, lit(2), 1)), span: at(1) },
        Statement::Assign { target: "y".to_string(), target_span: at(2), op: AssignOp::AddAssign, value: lit(0), span: at(2) },
        Statement::Return { value: Some(ident("y")), span: at(3) },
        Statement::Let { name: "z".to_string(), initializer: Some(bin(lit(1), BinaryOp::Div, lit(0), 4)), span: at(4) },
    ];
    let mut paths = Vec::new();
    let mut found: Vec<String> = Vec::new();
    explore_block(&stmts, &None, StrMap::new(), ConstraintSolver::new(), &mut paths, &mut found);
    assert_eq!(paths.len(), 1);
    match &paths[0].2 {
        Some(SymExpr::Mul(a, b)) => {
            assert!(matches!(**a, SymExpr::Var(_)));
            assert_eq!(konst(b), Some(2));
        },
        _ => panic!("expected x * 2"),
    }
    assert!(paths[0].0.get(&"z".to_string()).is_none());
    assert!(found.is_empty());
}

#[test]
fn exploring_a_body_without_return_uses_its_result() {
    let stmts = vec![Statement::Let { name: "q".to_string(), initializer: Some(lit(10)), span: at(1) }];
    let mut paths = Vec::new();
    let mut found: Vec<String> = Vec::new();
    let result = Some(bin(ident("q"), BinaryOp::Div, lit(0), 9));
    explore_block(&stmts, &result, StrMap::new(), ConstraintSolver::new(), &mut paths, &mut found);
    assert_eq!(paths.len(), 1);
    assert!(matches!(paths[0].2, Some(SymExpr::Div(_, _))));
    assert_eq!(found, vec!["Division by Zero Vulnerability at line 9: divisor evaluates to 0".to_string()]);
    let mut none_paths = Vec::new();
    explore_block(&Vec::new(), &None, StrMap::new(), ConstraintSolver::new(), &mut none_paths, &mut found);
    assert!(none_paths[0].2.is_none());
}
