use aether_vm::dataframe::{get_df, register_df, sort_order, DataFrameRegistry, NativeDataFrame, TypedColumn};
use aether_vm::strmap::StrMap;
use aether_vm::value::Value;

fn ints(c: &TypedColumn) -> Vec<i64> {
    match c {
        TypedColumn::Int(v) => v.clone(),
        _ => panic!("an integer column"),
    }
}

fn strs(c: &TypedColumn) -> Vec<String> {
    match c {
        TypedColumn::String(v) => v.clone(),
        _ => panic!("a text column"),
    }
}

fn people() -> NativeDataFrame {
    let mut cols = StrMap::new();
    cols.insert("name".to_string(), TypedColumn::String(vec!["cy".into(), "al".into(), "bo".into(), "di".into()]));
    cols.insert("age".to_string(), TypedColumn::Int(vec![30, 25, 30, 19]));
    cols.insert("ok".to_string(), TypedColumn::Bool(vec![true, false, true, false]));
    cols.insert("score".to_string(), TypedColumn::Float(vec![1.5f64.to_bits(), 0.5f64.to_bits(), 2.5f64.to_bits(), 0.0f64.to_bits()]));
    NativeDataFrame::new(vec!["name".into(), "age".into(), "ok".into(), "score".into()], cols)
}

fn col<'a>(df: &'a NativeDataFrame, n: &str) -> &'a TypedColumn {
    df.columns.get(&n.to_string()).unwrap()
}

#[test]
fn columns_and_cells() {
    let df = people();
    assert_eq!(df.shape(), (4, 4));
    let age = col(&df, "age");
    assert_eq!(age.len(), 4);
    assert_eq!(age.kind_name(), "int64");
    assert_eq!(col(&df, "score").kind_name(), "float64");
    assert!(matches!(age.get(1), Some(Value::Int(25))));
    assert!(age.get(4).is_none());
    assert!(matches!(col(&df, "score").get(2), Some(Value::Float(b)) if f64::from_bits(b) == 2.5));
    let v = TypedColumn::Vector(vec![vec![1.0f64.to_bits(), 2.0f64.to_bits()]]);
    assert_eq!(v.kind_name(), "vector");
    match v.get(0) {
        Some(Value::Array(items)) => assert_eq!(items.len(), 2),
        _ => panic!("a vector cell is an array"),
    }
    assert_eq!(col(&df, "name").to_values().len(), 4);
}

#[test]
fn mask_indices_and_slices() {
    let age = TypedColumn::Int(vec![1, 2, 3, 4, 5]);
    assert_eq!(ints(&age.filter_by_mask(&[true, false, true])), vec![1, 3]);
    assert_eq!(ints(&age.reorder_by_indices(&vec![4, 0, 0])), vec![5, 1, 1]);
    assert_eq!(ints(&age.slice(1, 2)), vec![2, 3]);
    assert_eq!(ints(&age.slice(3, 10)), vec![4, 5]);
    assert_eq!(ints(&age.slice(5, 1)), Vec::<i64>::new());
}

#[test]
fn frame_operations() {
    let df = people();
    let sel = df.select(&vec!["age".into(), "missing".into(), "name".into()]);
    assert_eq!(sel.column_names, vec!["age".to_string(), "name".to_string()]);
    assert_eq!(sel.row_count, 4);
    let f = df.filter(&[false, true, true, false]);
    assert_eq!(ints(col(&f, "age")), vec![25, 30]);
    assert_eq!(f.row_count, 2);
    let w = df.with_column("age".into(), TypedColumn::Int(vec![1, 2]));
    assert_eq!(w.column_names.len(), 4);
    assert_eq!(w.row_count, 4);
    let w2 = df.with_column("extra".into(), TypedColumn::Bool(vec![true]));
    assert_eq!(w2.column_names.last().unwrap(), "extra");
    let h = df.head(2);
    assert_eq!(h.row_count, 2);
    assert_eq!(strs(col(&h, "name")), vec!["cy".to_string(), "al".to_string()]);
    assert_eq!(df.head(10).row_count, 4);
}

#[test]
fn stable_sorting() {
    let df = people();
    let by_age = df.sort_by("age", false, &vec![]).unwrap();
    assert_eq!(ints(col(&by_age, "age")), vec![19, 25, 30, 30]);
    assert_eq!(strs(col(&by_age, "name")), vec!["di", "al", "cy", "bo"]);
    let desc = df.sort_by("age", true, &vec![]).unwrap();
    assert_eq!(strs(col(&desc, "name")), vec!["cy", "bo", "al", "di"]);
    let by_name = df.sort_by("name", false, &vec![]).unwrap();
    assert_eq!(strs(col(&by_name, "name")), vec!["al", "bo", "cy", "di"]);
    let by_ok = df.sort_by("ok", true, &vec![]).unwrap();
    assert_eq!(strs(col(&by_ok, "name")), vec!["cy", "bo", "al", "di"]);
    let by_score = df.sort_by("score", false, &vec![3, 1, 0, 2]).unwrap();
    assert_eq!(strs(col(&by_score, "name")), vec!["di", "al", "cy", "bo"]);
    assert_eq!(df.sort_by("nope", false, &vec![]).err(), Some("Column 'nope' not found".to_string()));
    assert_eq!(sort_order(&TypedColumn::Int(vec![3, 1, 3, 0]), 4, false), vec![3, 1, 0, 2]);
}

#[test]
fn frames_in_registry() {
    let mut reg = DataFrameRegistry::new();
    assert_eq!(register_df(&mut reg, people()), 1);
    assert_eq!(register_df(&mut reg, people()), 2);
    assert_eq!(get_df(&reg, 2).unwrap().row_count, 4);
    assert_eq!(get_df(&reg, 7).err(), Some("DataFrame with ID 7 not found".to_string()));
}
