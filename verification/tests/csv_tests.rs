use aether_vm::csv::csv_table;

fn strs(v: &[&str]) -> Vec<String> {
    v.iter().map(|s| s.to_string()).collect()
}

#[test]
fn csv_table_reads_headers_and_columns() {
    let (headers, cols) = csv_table("a, b\n1,2\n\n3\n");
    assert_eq!(headers, strs(&["a", "b"]));
    assert_eq!(cols, vec![strs(&["1", "3"]), strs(&["2"])]);
}

#[test]
fn csv_table_of_blank_text_is_empty() {
    let (headers, cols) = csv_table("  \n\n   \n");
    assert!(headers.is_empty());
    assert!(cols.is_empty());
}

#[test]
fn csv_table_trims_fields_and_drops_extra_ones() {
    let (headers, cols) = csv_table("  name , age  \r\n bob , 42 , extra\r\n ann,7\n");
    assert_eq!(headers, strs(&["name", "age"]));
    assert_eq!(cols, vec![strs(&["bob", "ann"]), strs(&["42", "7"])]);
}

#[test]
fn csv_table_header_only() {
    let (headers, cols) = csv_table("x,y,z");
    assert_eq!(headers, strs(&["x", "y", "z"]));
    assert_eq!(cols, vec![Vec::<String>::new(), Vec::new(), Vec::new()]);
}
