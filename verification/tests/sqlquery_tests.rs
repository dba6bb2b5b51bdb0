use aether_vm::sql::SqlParser;
use aether_vm::sqlquery::{number_pieces_of, parse_expr, SqlExpr, SqlQuery};
use aether_vm::value::Value;

fn parser(q: &str) -> SqlParser {
    let mut p = SqlParser::new(q);
    for t in p.number_texts() {
        if let Ok(f) = t.parse::<f64>() {
            p.numbers.insert(t, f.to_bits());
        }
    }
    p
}

fn query(q: &str) -> Result<SqlQuery, String> {
    parser(q).parse_query()
}

fn show(e: &SqlExpr) -> String {
    match e {
        SqlExpr::Column(c) => c.clone(),
        SqlExpr::Literal(Value::Int(i)) => format!("{}", i),
        SqlExpr::Literal(Value::Float(b)) => format!("{}f", f64::from_bits(*b)),
        SqlExpr::Literal(Value::Bool(b)) => format!("{}", b),
        SqlExpr::Literal(Value::String(s)) => format!("'{}'", s),
        SqlExpr::Literal(_) => "?".to_string(),
        SqlExpr::VectorLiteral(v) => format!("{:?}", v.iter().map(|b| f64::from_bits(*b)).collect::<Vec<_>>()),
        SqlExpr::BinaryOp { op, left, right } => format!("({} {} {})", show(left), op, show(right)),
        SqlExpr::FunctionCall { name, args } => {
            format!("{}({})", name, args.iter().map(show).collect::<Vec<_>>().join(", "))
        },
    }
}

#[test]
fn full_query() {
    let q = query("SELECT name, age * 2 AS double FROM people WHERE age >= 18 AND city = 'Oslo' ORDER BY age DESC LIMIT 10").unwrap();
    assert_eq!(q.select.len(), 2);
    assert_eq!(show(&q.select[0].expr), "name");
    assert_eq!(q.select[0].alias, None);
    assert_eq!(show(&q.select[1].expr), "(age * 2)");
    assert_eq!(q.select[1].alias, Some("double".to_string()));
    assert_eq!(q.from, "people");
    assert_eq!(show(q.where_clause.as_ref().unwrap()), "((age >= 18) AND (city = 'Oslo'))");
    assert_eq!(q.order_by, Some(("age".to_string(), true)));
    assert_eq!(q.limit, Some(10));
}

#[test]
fn star_and_defaults() {
    let q = query("select * from t").unwrap();
    assert_eq!(q.select.len(), 1);
    assert_eq!(show(&q.select[0].expr), "*");
    assert!(q.where_clause.is_none());
    assert_eq!(q.order_by, None);
    assert_eq!(q.limit, None);
    let q = query("SELECT a FROM t ORDER BY a asc").unwrap();
    assert_eq!(q.order_by, Some(("a".to_string(), false)));
    let q = query("SELECT a FROM t ORDER BY a LIMIT 3").unwrap();
    assert_eq!(q.order_by, Some(("a".to_string(), false)));
    assert_eq!(q.limit, Some(3));
}

#[test]
fn precedence_and_associativity() {
    let q = query("SELECT a + b * c - d / 2, x OR y AND z, f(1, g(2), 'k'), now() FROM t").unwrap();
    assert_eq!(show(&q.select[0].expr), "((a + (b * c)) - (d / 2))");
    assert_eq!(show(&q.select[1].expr), "(x OR (y AND z))");
    assert_eq!(show(&q.select[2].expr), "f(1, g(2), 'k')");
    assert_eq!(show(&q.select[3].expr), "now()");
}

#[test]
fn literals() {
    let q = query("SELECT 1.5, 7, TRUE, false, [1.0, 2.5, x], \"dq\", COS_SIM(v, [0.5]), 1e3 FROM t").unwrap();
    let shown: Vec<String> = q.select.iter().map(|i| show(&i.expr)).collect();
    assert_eq!(shown, vec!["1.5f", "7", "true", "false", "[1.0, 2.5]", "'dq'", "cos_sim(v, [0.5])", "1000f"]);
}

#[test]
fn a_minus_sign_is_its_own_token() {
    assert_eq!(query("SELECT -7 FROM t").err(), Some("Expected FROM clause".to_string()));
}

#[test]
fn errors() {
    assert_eq!(query("UPDATE t").err(), Some("Expected SELECT statement".to_string()));
    assert_eq!(query("SELECT a").err(), Some("Expected FROM clause".to_string()));
    assert_eq!(query("SELECT a FROM").err(), Some("Expected table name after FROM".to_string()));
    assert_eq!(query("SELECT a FROM t ORDER a").err(), Some("Expected BY after ORDER".to_string()));
    assert_eq!(query("SELECT a FROM t ORDER BY").err(), Some("Expected column after ORDER BY".to_string()));
    assert_eq!(query("SELECT a FROM t LIMIT").err(), Some("Expected number after LIMIT".to_string()));
    assert_eq!(query("SELECT a FROM t LIMIT x").err(), Some("Invalid LIMIT number".to_string()));
    assert_eq!(query("SELECT a FROM t LIMIT +3").err(), Some("Invalid LIMIT number".to_string()));
    assert_eq!(query("SELECT FROM t").err(), Some("Expected FROM clause".to_string()));
    assert_eq!(query("SELECT f(a b FROM t").err(), Some("Expected closing ')' after function call 'f'".to_string()));
    assert_eq!(query("SELECT a, FROM t").err(), Some("Expected FROM clause".to_string()));
    assert_eq!(query("SELECT a +").err(), Some("Unexpected end of expression".to_string()));
}

#[test]
fn expressions_and_vector_pieces() {
    let p = parser("x <> 3");
    let (e, end) = parse_expr(&p.tokens, &p.numbers, 0).unwrap();
    assert_eq!(show(&e), "(x <> 3)");
    assert_eq!(end, 3);
    assert_eq!(number_pieces_of("[ 1.0 ,2, a ]"), vec!["1.0".to_string(), "2".to_string(), "a".to_string()]);
    assert!(number_pieces_of("plain").is_empty());
}

#[test]
fn a_lone_quote_stops_the_parse_only_where_it_is_read_as_text() {
    assert!(parser("SELECT '").try_parse_query().is_none());
    let q = parser("SELECT a FROM '").try_parse_query().unwrap().unwrap();
    assert_eq!(q.from, "'");
    assert!(matches!(parser("SELECT x FROM t").try_parse_query(), Some(Ok(_))));
    assert_eq!(
        parser("DELETE").try_parse_query().unwrap().err(),
        Some("Expected SELECT statement".to_string())
    );
}
