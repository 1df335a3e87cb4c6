use aeronum::{broadcast_shape, c_strides, checked_size, unravel_index, NdArray};

#[test]
fn shape_stride_invariants_c_contiguous() {
    let a = NdArray::<f32>::zeros(&[3, 4]);
    assert_eq!(a.shape(), &[3, 4]);
    assert_eq!(a.strides(), &[4, 1]);
    assert_eq!(a.offset(), 0);
    assert!(a.is_contiguous());
}

#[test]
fn indexing_get_set() {
    let mut a = NdArray::<f32>::zeros(&[2, 3]);
    assert!(a.set(&[1, 2], 7.5));
    assert_eq!(a.get(&[1, 2]), Some(7.5));
    assert_eq!(a.get(&[2, 0]), None);
}

#[test]
fn view_uses_strides_and_offset() {
    let base = NdArray::<f32>::arange(10);
    let v = base.view(&[3], &[2], 2);
    assert_eq!(v.shape(), &[3]);
    assert_eq!(v.strides(), &[2]);
    assert_eq!(v.offset(), 2);
    assert_eq!(v.to_vec(), vec![2.0, 4.0, 6.0]);
}

#[test]
fn broadcasting_matrix_3x1_plus_1x4() {
    let a = NdArray::from_list(vec![1f32, 2., 3.], Some(&[3, 1]));
    let b = NdArray::from_list(vec![10f32, 20., 30., 40.], Some(&[1, 4]));
    let c = a.add(&b);
    assert_eq!(c.shape(), &[3, 4]);
    assert_eq!(
        c.to_vec(),
        vec![11., 21., 31., 41., 12., 22., 32., 42., 13., 23., 33., 43.,]
    );
}

#[test]
fn broadcasting_vector_plus_matrix() {
    let v = NdArray::from_list(vec![1f32, 2., 3., 4.], Some(&[4]));
    let m = NdArray::from_list((0..12).map(|x| x as f32).collect(), Some(&[3, 4]));
    let out = v.add(&m);
    assert_eq!(out.shape(), &[3, 4]);
    assert_eq!(
        out.to_vec(),
        vec![1., 3., 5., 7., 5., 7., 9., 11., 9., 11., 13., 15.,]
    );
}

#[test]
fn matmul_2d() {
    let a = NdArray::from_list(vec![1f32, 2., 3., 4., 5., 6.], Some(&[2, 3]));
    let b = NdArray::from_list(vec![7f32, 8., 9., 10., 11., 12.], Some(&[3, 2]));
    let c = a.matmul(&b);
    assert_eq!(c.shape(), &[2, 2]);
    assert_eq!(c.to_vec(), vec![58., 64., 139., 154.,]);
}

#[test]
fn sum_axis_none_scalar() {
    let a = NdArray::from_list(vec![1f32, 2., 3., 4.], Some(&[2, 2]));
    let s = a.sum(None, false);
    assert_eq!(s.shape(), &[] as &[usize]);
    assert_eq!(s.to_vec(), vec![10.]);
}

#[test]
fn sum_axis_0_and_1_shapes_and_values() {
    let a = NdArray::from_list(vec![1f32, 2., 3., 4., 5., 6.], Some(&[2, 3]));
    let s0 = a.sum(Some(0), false);
    assert_eq!(s0.shape(), &[3]);
    assert_eq!(s0.to_vec(), vec![5., 7., 9.]);

    let s1 = a.sum(Some(1), false);
    assert_eq!(s1.shape(), &[2]);
    assert_eq!(s1.to_vec(), vec![6., 15.]);

    let s1k = a.sum(Some(1), true);
    assert_eq!(s1k.shape(), &[2, 1]);
    assert_eq!(s1k.to_vec(), vec![6., 15.]);

    assert!((s0.to_vec()[0] - 5.0).abs() <= f32::EPSILON * 5.0);
}

#[test]
fn reshape_contiguous_preserves_row_major_order() {
    let a = NdArray::from_list((0..12).map(|x| x as f32).collect(), Some(&[3, 4]));
    let b = a
        .reshape(&[2, 2, 3])
        .expect("contiguous reshape should succeed");
    assert_eq!(b.shape(), &[2, 2, 3]);
    assert_eq!(b.to_vec(), (0..12).map(|x| x as f32).collect::<Vec<_>>());
    assert!(b.is_contiguous());
}

#[test]
fn reshape_size_mismatch_returns_none() {
    let a = NdArray::<f32>::zeros(&[2, 3]);
    assert!(a.reshape(&[4]).is_none());
    assert!(a.reshape(&[2, 2, 2]).is_none());
}

#[test]
fn reshape_non_contiguous_returns_none() {
    let base = NdArray::<f32>::arange(10);
    let v = base.view(&[3], &[2], 2);
    assert!(!v.is_contiguous());
    assert!(v.reshape(&[1, 3]).is_none());
}

#[test]
fn reshape_contiguous_view_with_offset_allowed() {
    let base = NdArray::<f32>::arange(6);
    let v = base.view(&[3], &[1], 2);
    assert!(v.is_contiguous());
    let r = v.reshape(&[1, 3]).unwrap();
    assert_eq!(r.shape(), &[1, 3]);
    assert_eq!(r.to_vec(), vec![2.0, 3.0, 4.0]);
}

#[test]
fn broadcast_scalar_plus_matrix() {
    let s = NdArray::from_list(vec![2.0f32], Some(&[]));
    let m = NdArray::from_list((0..6).map(|x| x as f32).collect(), Some(&[2, 3]));
    let out = s.add(&m);
    assert_eq!(out.shape(), &[2, 3]);
    assert_eq!(out.to_vec(), vec![2., 3., 4., 5., 6., 7.]);

    let out2 = m.add(&s);
    assert_eq!(out2.to_vec(), out.to_vec());
}

#[test]
fn broadcasting_higher_rank_edge_case() {
    let a = NdArray::from_list((0..6).map(|x| x as f32).collect(), Some(&[2, 1, 3]));
    let b = NdArray::from_list((0..4).map(|x| (100 + x) as f32).collect(), Some(&[1, 4, 1]));
    let out = a.add(&b);
    assert_eq!(out.shape(), &[2, 4, 3]);
    assert_eq!(out.get(&[0, 0, 0]), Some(0.0 + 100.0));
    assert_eq!(out.get(&[0, 3, 2]), Some(2.0 + 103.0));
    assert_eq!(out.get(&[1, 1, 1]), Some(4.0 + 101.0));
}

#[test]
fn zeros_strides_are_row_major_for_several_shapes() {
    for shape in [vec![], vec![5], vec![2, 3, 4], vec![3, 0, 2], vec![1, 1, 7]] {
        let a = NdArray::<f64>::zeros(&shape);
        assert_eq!(a.strides(), c_strides(&shape).as_slice());
        assert!(a.is_contiguous());
        assert!(a.to_vec().iter().all(|&x| x == 0.0));
    }
    assert_eq!(NdArray::<f64>::zeros(&[2, 3, 4]).strides(), &[12, 4, 1]);
    assert_eq!(NdArray::<f64>::zeros(&[]).len(), 1);
}

#[test]
fn set_then_get_every_index() {
    let mut a = NdArray::<i64>::zeros(&[2, 3]);
    for i in 0..2 {
        for j in 0..3 {
            let v = (i * 10 + j) as i64;
            assert!(a.set(&[i, j], v));
            assert_eq!(a.get(&[i, j]), Some(v));
        }
    }
    assert_eq!(a.to_vec(), vec![0, 1, 2, 10, 11, 12]);
}

#[test]
fn out_of_range_get_and_set_do_nothing() {
    let mut a = NdArray::<i64>::ones(&[2, 3]);
    assert_eq!(a.get(&[0, 3]), None);
    assert_eq!(a.get(&[0]), None);
    assert_eq!(a.get(&[0, 0, 0]), None);
    assert!(!a.set(&[2, 0], 9));
    assert!(!a.set(&[1], 9));
    assert_eq!(a.to_vec(), vec![1; 6]);
}

#[test]
fn view_with_negative_resolved_offset_reads_nothing() {
    let base = NdArray::<i64>::arange(4);
    let v = base.view(&[2], &[-1], 0);
    assert_eq!(v.get(&[0]), Some(0));
    assert_eq!(v.get(&[1]), None);
}

#[test]
fn broadcast_shape_rules() {
    assert_eq!(broadcast_shape(&[3, 1], &[1, 4]), Some(vec![3, 4]));
    assert_eq!(broadcast_shape(&[4], &[3, 4]), Some(vec![3, 4]));
    assert_eq!(broadcast_shape(&[], &[2, 3]), Some(vec![2, 3]));
    assert_eq!(broadcast_shape(&[2, 3], &[2, 2]), None);
}

#[test]
fn incompatible_shapes_are_rejected_before_any_arithmetic() {
    let a = NdArray::<f32>::zeros(&[2, 3]);
    let b = NdArray::<f32>::zeros(&[2, 2]);
    assert_eq!(broadcast_shape(a.shape(), b.shape()), None);
}

#[test]
fn unravel_index_row_major() {
    assert_eq!(unravel_index(0, &[2, 3]), vec![0, 0]);
    assert_eq!(unravel_index(4, &[2, 3]), vec![1, 1]);
    assert_eq!(unravel_index(5, &[2, 3]), vec![1, 2]);
    assert_eq!(unravel_index(0, &[]), Vec::<usize>::new());
}

#[test]
fn checked_size_overflow_and_zero() {
    assert_eq!(checked_size(&[2, 3, 4]), Some(24));
    assert_eq!(checked_size(&[]), Some(1));
    assert_eq!(checked_size(&[usize::MAX, 0, 2]), Some(0));
    assert_eq!(checked_size(&[usize::MAX, 2]), None);
}

#[test]
fn elementwise_ops_on_integers() {
    let a = NdArray::from_list(vec![6i64, 8, 10, 12], Some(&[2, 2]));
    let b = NdArray::from_list(vec![2i64, 4], Some(&[2]));
    assert_eq!(a.add(&b).to_vec(), vec![8, 12, 12, 16]);
    assert_eq!(a.sub(&b).to_vec(), vec![4, 4, 8, 8]);
    assert_eq!(a.mul(&b).to_vec(), vec![12, 32, 20, 48]);
    assert_eq!(a.div(&b).to_vec(), vec![3, 2, 5, 3]);
}

#[test]
fn sum_keepdims_per_row() {
    let a = NdArray::from_list(vec![1i64, 2, 3, 4], Some(&[2, 2]));
    let s = a.sum(Some(1), true);
    assert_eq!(s.shape(), &[2, 1]);
    assert_eq!(s.to_vec(), vec![3, 7]);
    let t = a.sum(None, true);
    assert_eq!(t.shape(), &[1, 1]);
    assert_eq!(t.to_vec(), vec![10]);
}

#[test]
fn sum_of_view_uses_logical_elements() {
    let base = NdArray::<i64>::arange(10);
    let v = base.view(&[3], &[2], 2);
    assert_eq!(v.sum(None, false).to_vec(), vec![12]);
}

#[test]
fn from_list_without_shape_is_one_dimensional() {
    let a = NdArray::from_list(vec![5i64, 6, 7], None);
    assert_eq!(a.shape(), &[3]);
    assert_eq!(a.len(), 3);
    assert!(!a.is_empty());
    assert!(NdArray::<i64>::zeros(&[0, 3]).is_empty());
}

#[test]
fn matmul_integers_and_transposed_view() {
    let a = NdArray::from_list(vec![1i64, 2, 3, 4], Some(&[2, 2]));
    let at = a.view(&[2, 2], &[1, 2], 0);
    assert_eq!(at.to_vec(), vec![1, 3, 2, 4]);
    assert_eq!(a.matmul(&at).to_vec(), vec![5, 11, 11, 25]);
}
