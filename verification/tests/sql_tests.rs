use aether_vm::sql::{tokenize, SqlParser};

fn toks(s: &str) -> Vec<String> {
    SqlParser::new(s).tokens
}

#[test]
fn tokenizes_a_query() {
    assert_eq!(
        toks("SELECT name, age FROM people WHERE age >= 30 AND name != 'Bob Smith' LIMIT 5"),
        vec![
            "SELECT", "name", ",", "age", "FROM", "people", "WHERE", "age", ">=", "30", "AND", "name", "!=",
            "'Bob Smith'", "LIMIT", "5",
        ]
    );
}

#[test]
fn operators_vectors_and_quotes() {
    assert_eq!(toks("a<>b<c=d"), vec!["a", "<>", "b", "<", "c", "=", "d"]);
    assert_eq!(toks("cos(v,[1.0, 2.5])*2"), vec!["cos", "(", "v", ",", "[1.0, 2.5]", ")", "*", "2"]);
    assert_eq!(toks("\"unterminated"), vec!["\"unterminated"]);
    assert_eq!(toks("x-1/2+y"), vec!["x", "-", "1", "/", "2", "+", "y"]);
    assert!(toks("   ").is_empty());
}

#[test]
fn stray_bracket_stops_the_tokenizer() {
    assert!(tokenize("a ] b").is_none());
    assert!(SqlParser::try_new("x]").is_none());
    assert!(SqlParser::try_new("[x]").is_some());
}

#[test]
fn cursor_and_keywords() {
    let mut p = SqlParser::new("select * from t");
    assert_eq!(p.peek().map(|s| s.as_str()), Some("select"));
    assert!(p.match_keyword("SELECT"));
    assert!(!p.match_keyword("FROM"));
    assert_eq!(p.next_token(), Some("*".to_string()));
    assert!(p.match_keyword("From"));
    assert_eq!(p.next_token(), Some("t".to_string()));
    assert_eq!(p.next_token(), None);
    assert!(p.peek().is_none());
}
