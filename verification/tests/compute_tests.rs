use aether_vm::compute::{chunk_bounds, ComputeBuffer};

#[test]
fn compute_buffer_new_and_size_error() {
    let b = ComputeBuffer::new([2, 3, 1], vec![1, 2, 3, 4, 5, 6]).unwrap();
    assert_eq!(b.dims, [2, 3, 1]);
    assert_eq!(b.len(), 6);
    assert!(!b.is_empty());
    let err = ComputeBuffer::new([2, 2, 2], vec![1, 2, 3]).err().unwrap();
    assert_eq!(err, "Buffer size mismatch: expected 8 elements for dims [2, 2, 2], got 3");
}

#[test]
fn compute_buffer_zeros() {
    let b = ComputeBuffer::zeros([2, 2, 1]);
    assert_eq!(b.data, vec![0u64; 4]);
    assert_eq!(b.data[0], 0.0f64.to_bits());
    assert!(ComputeBuffer::zeros([0, 1, 1]).is_empty());
}

#[test]
fn compute_buffer_linear_index() {
    let b = ComputeBuffer::zeros([4, 5, 6]);
    assert_eq!(b.linear_index(1, 2, 3), 69);
    assert_eq!(b.linear_index(0, 0, 0), 0);
    assert_eq!(b.linear_index(3, 4, 5), 119);
}

#[test]
fn compute_buffer_get_and_set() {
    let mut b = ComputeBuffer::zeros([4, 5, 6]);
    assert_eq!(b.set(1, 2, 3, 2.5f64.to_bits()), Ok(()));
    assert_eq!(b.get(1, 2, 3), Some(2.5f64.to_bits()));
    assert_eq!(b.data[69], 2.5f64.to_bits());
    assert_eq!(b.get(4, 0, 0), None);
    assert_eq!(b.get(0, 5, 0), None);
    assert_eq!(b.get(0, 0, 6), None);
    let err = b.set(4, 0, 0, 1).err().unwrap();
    assert_eq!(err, "Index out of bounds: (4, 0, 0) for dims [4, 5, 6]");
    assert_eq!(b.data[4], 0);
}

#[test]
fn compute_chunk_bounds_split() {
    assert_eq!(chunk_bounds(10, 4), vec![(0, 3), (3, 6), (6, 9), (9, 10)]);
    assert_eq!(chunk_bounds(6, 4), vec![(0, 2), (2, 4), (4, 6)]);
    assert_eq!(chunk_bounds(5, 8), vec![(0, 1), (1, 2), (2, 3), (3, 4), (4, 5)]);
    assert_eq!(chunk_bounds(7, 1), vec![(0, 7)]);
    assert!(chunk_bounds(0, 3).is_empty());
}

#[test]
fn compute_chunk_bounds_tile_the_range() {
    for total in 0..40usize {
        for workers in 1..9usize {
            let r = chunk_bounds(total, workers);
            assert!(r.len() <= workers);
            let mut at = 0;
            for &(s, e) in &r {
                assert_eq!(s, at);
                assert!(s < e);
                at = e;
            }
            assert_eq!(at, total);
        }
    }
}
