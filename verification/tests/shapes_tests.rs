use aether_vm::shapes::{compute_strides, next_random_u64, parse_dims, RNG_SEED};
use aether_vm::value::Value;

#[test]
fn grid_dimensions() {
    assert_eq!(parse_dims(&Value::Int(8)), Ok([8, 1, 1]));
    assert_eq!(parse_dims(&Value::Int(0)), Ok([1, 1, 1]));
    assert_eq!(
        parse_dims(&Value::Array(vec![Value::Int(4), Value::String("x".to_string()), Value::Int(0)])),
        Ok([4, 1, 1])
    );
    assert_eq!(parse_dims(&Value::Array(vec![Value::Int(2), Value::Int(3)])), Ok([2, 3, 1]));
    assert_eq!(parse_dims(&Value::Array(vec![])), Ok([1, 1, 1]));
    assert_eq!(
        parse_dims(&Value::Bool(true)),
        Err("Dimensions must be an array [x, y, z] or single integer".to_string())
    );
}

#[test]
fn row_major_strides() {
    assert_eq!(compute_strides(&[2, 3, 4]), vec![12, 4, 1]);
    assert_eq!(compute_strides(&[5]), vec![1]);
    assert_eq!(compute_strides(&[]), Vec::<usize>::new());
    assert_eq!(compute_strides(&[3, 0, 2]), vec![0, 2, 1]);
}

#[test]
fn random_sequence_from_the_seed() {
    let mut s = RNG_SEED;
    assert_eq!(next_random_u64(&mut s), 0xfe10ab7382e8e160);
    assert_eq!(s, 0x2373c39ff3da66b0);
    assert_eq!(next_random_u64(&mut s), 0xae54d7f999835fc4);
    let mut z = 0u64;
    assert_eq!(next_random_u64(&mut z), 0);
}
