use aether_vm::tensor::{TensorData, ONE_BITS, ZERO_BITS};

fn bits(xs: &[f64]) -> Vec<u64> {
    xs.iter().map(|x| x.to_bits()).collect()
}

#[test]
fn tensor_new_keeps_shape_and_data() {
    let t = TensorData::new(vec![2, 3], bits(&[1.0, 2.0, 3.0, 4.0, 5.0, 6.0])).unwrap();
    assert_eq!(t.shape, vec![2, 3]);
    assert_eq!(t.strides, vec![3, 1]);
    assert_eq!(t.data, bits(&[1.0, 2.0, 3.0, 4.0, 5.0, 6.0]));
}

#[test]
fn tensor_new_strides_of_three_dims() {
    let t = TensorData::new(vec![2, 3, 4], vec![0; 24]).unwrap();
    assert_eq!(t.strides, vec![12, 4, 1]);
}

#[test]
fn tensor_new_rejects_wrong_length() {
    let err = TensorData::new(vec![2, 2], vec![1, 2, 3]).err().unwrap();
    assert_eq!(err, "Shape [2, 2] requires 4 elements, but provided data has 3");
}

#[test]
fn tensor_new_empty_shape_holds_one_element() {
    let t = TensorData::new(vec![], vec![7]).unwrap();
    assert!(t.shape.is_empty());
    assert!(t.strides.is_empty());
    let err = TensorData::new(vec![], vec![]).err().unwrap();
    assert_eq!(err, "Shape [] requires 1 elements, but provided data has 0");
}

#[test]
fn tensor_zeros_and_ones() {
    let z = TensorData::zeros(vec![2, 3]);
    assert_eq!(z.data, vec![ZERO_BITS; 6]);
    assert_eq!(z.strides, vec![3, 1]);
    let o = TensorData::ones(vec![4]);
    assert_eq!(o.data, vec![1.0f64.to_bits(); 4]);
    assert_eq!(ONE_BITS, 1.0f64.to_bits());
    assert_eq!(ZERO_BITS, 0.0f64.to_bits());
}

#[test]
fn tensor_zero_dimension_is_empty() {
    let z = TensorData::zeros(vec![3, 0]);
    assert!(z.data.is_empty());
    assert_eq!(z.strides, vec![0, 1]);
}

#[test]
fn tensor_eye_is_identity() {
    let e = TensorData::eye(3);
    assert_eq!(e.shape, vec![3, 3]);
    assert_eq!(e.strides, vec![3, 1]);
    assert_eq!(e.data, bits(&[1.0, 0.0, 0.0, 0.0, 1.0, 0.0, 0.0, 0.0, 1.0]));
    assert!(TensorData::eye(0).data.is_empty());
}

#[test]
fn tensor_transpose_matrix() {
    let t = TensorData::new(vec![2, 3], bits(&[1.0, 2.0, 3.0, 4.0, 5.0, 6.0])).unwrap();
    let tt = t.transpose().unwrap();
    assert_eq!(tt.shape, vec![3, 2]);
    assert_eq!(tt.strides, vec![2, 1]);
    assert_eq!(tt.data, bits(&[1.0, 4.0, 2.0, 5.0, 3.0, 6.0]));
}

#[test]
fn tensor_transpose_twice_gives_back_matrix() {
    let t = TensorData::new(vec![3, 4], (0..12).collect()).unwrap();
    let back = t.transpose().unwrap().transpose().unwrap();
    assert_eq!(back.shape, t.shape);
    assert_eq!(back.data, t.data);
}

#[test]
fn tensor_transpose_requires_matrix() {
    let t = TensorData::new(vec![4], vec![1, 2, 3, 4]).unwrap();
    assert_eq!(t.transpose().err().unwrap(), "transpose requires 2D matrix, got shape [4]");
    let c = TensorData::new(vec![1, 2, 2], vec![0; 4]).unwrap();
    assert_eq!(c.transpose().err().unwrap(), "transpose requires 2D matrix, got shape [1, 2, 2]");
}

#[test]
fn tensor_reshape_keeps_elements() {
    let t = TensorData::new(vec![2, 3], (1..=6).collect()).unwrap();
    let r = t.reshape(vec![3, 2]).unwrap();
    assert_eq!(r.shape, vec![3, 2]);
    assert_eq!(r.strides, vec![2, 1]);
    assert_eq!(r.data, t.data);
    let err = t.reshape(vec![4, 2]).err().unwrap();
    assert_eq!(err, "Shape [4, 2] requires 8 elements, but provided data has 6");
}

#[test]
fn tensor_like_constructors() {
    let t = TensorData::new(vec![2, 2], vec![5, 6, 7, 8]).unwrap();
    let z = t.zeros_like();
    assert_eq!(z.shape, vec![2, 2]);
    assert_eq!(z.data, vec![ZERO_BITS; 4]);
    let o = t.ones_like();
    assert_eq!(o.data, vec![ONE_BITS; 4]);
}
