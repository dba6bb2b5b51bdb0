use aether_vm::builtins::{keys_builtin, len_builtin, range_builtin};
use aether_vm::value::Value;

fn ints(v: Result<Value, String>) -> Vec<i64> {
    match v {
        Ok(Value::Array(items)) => items
            .iter()
            .map(|x| match x {
                Value::Int(i) => *i,
                _ => panic!("expected integers"),
            })
            .collect(),
        _ => panic!("expected a list"),
    }
}

#[test]
fn range_forms() {
    assert_eq!(ints(range_builtin(&vec![Value::Int(4)])), vec![0, 1, 2, 3]);
    assert_eq!(ints(range_builtin(&vec![Value::Int(2), Value::Int(5)])), vec![2, 3, 4]);
    assert_eq!(ints(range_builtin(&vec![Value::Int(0), Value::Int(10), Value::Int(3)])), vec![0, 3, 6, 9]);
    assert_eq!(ints(range_builtin(&vec![Value::Int(5), Value::Int(0), Value::Int(-2)])), vec![5, 3, 1]);
    assert!(ints(range_builtin(&vec![Value::Int(0), Value::Int(5), Value::Int(0)])).is_empty());
    assert!(ints(range_builtin(&vec![Value::Int(-3)])).is_empty());
}

#[test]
fn range_near_the_end_of_i64() {
    let v = ints(range_builtin(&vec![Value::Int(i64::MAX - 2), Value::Int(i64::MAX), Value::Int(1)]));
    assert_eq!(v, vec![i64::MAX - 2, i64::MAX - 1]);
}

#[test]
fn range_errors() {
    assert_eq!(range_builtin(&vec![]).err().unwrap(), "range(end) or range(start, end, step?) expects arguments");
    assert_eq!(range_builtin(&vec![Value::Nil]).err().unwrap(), "range() arguments must be integers");
    assert_eq!(range_builtin(&vec![Value::Nil, Value::Int(1)]).err().unwrap(), "range() start must be int");
    assert_eq!(range_builtin(&vec![Value::Int(1), Value::Nil]).err().unwrap(), "range() end must be int");
    assert_eq!(
        range_builtin(&vec![Value::Int(1), Value::Int(2), Value::Bool(true)]).err().unwrap(),
        "range() step must be int"
    );
}

#[test]
fn len_of_texts_and_containers() {
    assert!(matches!(len_builtin(&vec![Value::String("héllo".to_string())]), Ok(Value::Int(5))));
    assert!(matches!(len_builtin(&vec![Value::Array(vec![Value::Nil, Value::Nil])]), Ok(Value::Int(2))));
    assert!(matches!(len_builtin(&vec![Value::Tuple(vec![])]), Ok(Value::Int(0))));
    assert!(matches!(
        len_builtin(&vec![Value::MapEntries(vec![("a".to_string(), Value::Int(1))])]),
        Ok(Value::Int(1))
    ));
    assert_eq!(len_builtin(&vec![]).err(), Some("len() expects at least 1 argument".to_string()));
    assert_eq!(len_builtin(&vec![Value::Int(3)]).err(), Some("len() not supported on type 'int'".to_string()));
}

#[test]
fn keys_are_sorted_and_distinct() {
    let m = Value::MapEntries(vec![
        ("b".to_string(), Value::Int(1)),
        ("a".to_string(), Value::Int(2)),
        ("c".to_string(), Value::Int(3)),
    ]);
    match keys_builtin(&vec![m]) {
        Ok(Value::Array(items)) => {
            let names: Vec<String> = items
                .iter()
                .map(|v| match v {
                    Value::String(s) => s.clone(),
                    _ => panic!("expected text"),
                })
                .collect();
            assert_eq!(names, vec!["a".to_string(), "b".to_string(), "c".to_string()]);
        },
        _ => panic!("expected a list"),
    }
    assert_eq!(keys_builtin(&vec![]).err(), Some("keys(dict) expects 1 argument".to_string()));
    assert_eq!(
        keys_builtin(&vec![Value::Nil]).err(),
        Some("keys() expects dictionary, got 'nil'".to_string())
    );
}
