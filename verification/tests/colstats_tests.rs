use aether_vm::dataframe::TypedColumn;
use aether_vm::value::Value;

fn s(xs: &[&str]) -> Vec<String> {
    xs.iter().map(|x| x.to_string()).collect()
}

#[test]
fn column_sum_by_kind() {
    assert!(matches!(TypedColumn::Int(vec![3, -1, 10]).sum(0), Value::Int(12)));
    assert!(matches!(TypedColumn::Bool(vec![true, false, true]).sum(0), Value::Int(2)));
    let f = 4.5f64.to_bits();
    assert!(matches!(TypedColumn::Float(vec![1.0f64.to_bits()]).sum(f), Value::Float(b) if b == f));
    assert!(matches!(TypedColumn::String(s(&["a"])).sum(0), Value::Nil));
    assert!(matches!(TypedColumn::Int(vec![]).sum(0), Value::Int(0)));
}

#[test]
fn column_min_max_ints() {
    let c = TypedColumn::Int(vec![5, -2, 9, 3]);
    assert!(matches!(c.min(0), Value::Int(-2)));
    assert!(matches!(c.max(0), Value::Int(9)));
    assert!(matches!(TypedColumn::Int(vec![]).min(0), Value::Nil));
}

#[test]
fn column_min_max_texts() {
    let c = TypedColumn::String(s(&["pear", "apple", "zoo", "apricot"]));
    match c.min(0) {
        Value::String(t) => assert_eq!(t, "apple"),
        _ => panic!("expected a string"),
    }
    match c.max(0) {
        Value::String(t) => assert_eq!(t, "zoo"),
        _ => panic!("expected a string"),
    }
}

#[test]
fn column_min_max_bools() {
    let c = TypedColumn::Bool(vec![true, false, true]);
    assert!(matches!(c.min(0), Value::Bool(false)));
    assert!(matches!(c.max(0), Value::Bool(true)));
    let t = TypedColumn::Bool(vec![true, true]);
    assert!(matches!(t.min(0), Value::Bool(true)));
    let f = TypedColumn::Bool(vec![false]);
    assert!(matches!(f.max(0), Value::Bool(false)));
}

#[test]
fn column_min_max_floats_and_vectors() {
    let lo = 1.5f64.to_bits();
    let hi = 9.0f64.to_bits();
    let c = TypedColumn::Float(vec![hi, lo]);
    assert!(matches!(c.min(lo), Value::Float(b) if b == lo));
    assert!(matches!(c.max(hi), Value::Float(b) if b == hi));
    assert!(matches!(TypedColumn::Float(vec![]).min(lo), Value::Nil));
    assert!(matches!(TypedColumn::Vector(vec![vec![1]]).max(0), Value::Nil));
}
