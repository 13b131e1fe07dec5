use dense_nn::matrix::{Error, Matrix};

#[test]
fn constructors_have_expected_contents() {
    let z: Matrix<i64> = Matrix::new(2, 3);
    assert_eq!(z.rows, 2);
    assert_eq!(z.cols, 3);
    assert_eq!(z.data, vec![0; 6]);

    let o: Matrix<i64> = Matrix::ones(3, 1);
    assert_eq!(o.data, vec![1, 1, 1]);

    let e: Matrix<i64> = Matrix::empty();
    assert_eq!(e.rows, 0);
    assert_eq!(e.cols, 0);
    assert!(e.data.is_empty());
}

#[test]
fn get_and_set_follow_row_major_layout() {
    let mut m: Matrix<i64> = Matrix::from_vec(2, 3, vec![1, 2, 3, 4, 5, 6]);
    assert_eq!(m.get(0, 0).unwrap(), 1);
    assert_eq!(m.get(1, 2).unwrap(), 6);
    assert_eq!(m.get(2, 0).unwrap_err(), Error::IndexOutOfRange);
    assert_eq!(m.get(0, 3).unwrap_err(), Error::IndexOutOfRange);
    m.set(1, 0, 40).unwrap();
    assert_eq!(m.data, vec![1, 2, 3, 40, 5, 6]);
    assert_eq!(m.set(1, 3, 0).unwrap_err(), Error::IndexOutOfRange);
}

#[test]
fn row_and_col_extract_expected_slices() {
    let m: Matrix<i64> = Matrix::from_vec(2, 3, vec![1, 2, 3, 4, 5, 6]);
    let r = m.row(1).unwrap();
    assert_eq!(r.rows, 1);
    assert_eq!(r.cols, 3);
    assert_eq!(r.data, vec![4, 5, 6]);
    let c = m.col(2).unwrap();
    assert_eq!(c.rows, 2);
    assert_eq!(c.cols, 1);
    assert_eq!(c.data, vec![3, 6]);
    assert_eq!(m.row(2).unwrap_err(), Error::IndexOutOfRange);
    assert_eq!(m.col(3).unwrap_err(), Error::IndexOutOfRange);
}

#[test]
fn transpose_swaps_entries() {
    let m: Matrix<i64> = Matrix::from_vec(2, 3, vec![1, 2, 3, 4, 5, 6]);
    let t = m.t();
    assert_eq!(t.rows, 3);
    assert_eq!(t.cols, 2);
    assert_eq!(t.data, vec![1, 4, 2, 5, 3, 6]);
    let tt = t.t();
    assert_eq!(tt.data, m.data);
}

#[test]
fn elementwise_arithmetic_has_exact_values() {
    let a: Matrix<i64> = Matrix::from_vec(2, 2, vec![5, -6, 7, 8]);
    let b: Matrix<i64> = Matrix::from_vec(2, 2, vec![1, 2, -3, 4]);
    assert_eq!(a.add_mat(&b).unwrap().data, vec![6, -4, 4, 12]);
    assert_eq!(a.sub_mat(&b).unwrap().data, vec![4, -8, 10, 4]);
    assert_eq!(a.mul_mat(&b).unwrap().data, vec![5, -12, -21, 32]);
    assert_eq!(a.div_mat(&b).unwrap().data, vec![5, -3, -2, 2]);
    assert_eq!(a.add_scalar(10).data, vec![15, 4, 17, 18]);
    assert_eq!(a.sub_scalar(1).data, vec![4, -7, 6, 7]);
    assert_eq!(a.mul_scalar(-2).data, vec![-10, 12, -14, -16]);
    assert_eq!(a.div_scalar(2).data, vec![2, -3, 3, 4]);
}

#[test]
fn elementwise_ops_reject_shape_mismatch() {
    let a: Matrix<i64> = Matrix::new(2, 2);
    let b: Matrix<i64> = Matrix::new(2, 3);
    assert_eq!(a.add_mat(&b).unwrap_err(), Error::ShapeMismatch);
    assert_eq!(a.sub_mat(&b).unwrap_err(), Error::ShapeMismatch);
    assert_eq!(a.mul_mat(&b).unwrap_err(), Error::ShapeMismatch);
    assert_eq!(a.div_mat(&b).unwrap_err(), Error::ShapeMismatch);
}

#[test]
fn division_by_zero_entries_yields_zero() {
    let a: Matrix<i64> = Matrix::from_vec(1, 2, vec![9, -9]);
    let z: Matrix<i64> = Matrix::new(1, 2);
    assert_eq!(a.div_mat(&z).unwrap().data, vec![0, 0]);
}

#[test]
fn dot_product_uses_result_stride() {
    let a: Matrix<i64> = Matrix::from_vec(2, 3, vec![1, 2, 3, 4, 5, 6]);
    let b: Matrix<i64> = Matrix::from_vec(3, 1, vec![7, 8, 9]);
    let r = a.dot(&b).unwrap();
    assert_eq!(r.rows, 2);
    assert_eq!(r.cols, 1);
    assert_eq!(r.data, vec![50, 122]);

    let c: Matrix<i64> = Matrix::from_vec(1, 2, vec![10, 20]);
    let outer = b.dot(&c).unwrap();
    assert_eq!(outer.rows, 3);
    assert_eq!(outer.cols, 2);
    assert_eq!(outer.data, vec![70, 140, 80, 160, 90, 180]);
}

#[test]
fn sum_totals_all_entries() {
    let a: Matrix<i64> = Matrix::from_vec(2, 2, vec![1, -2, 30, 4]);
    assert_eq!(a.sum(), 33);
    let e: Matrix<i64> = Matrix::empty();
    assert_eq!(e.sum(), 0);
}

#[test]
fn duplicate_copies_without_sharing() {
    let a: Matrix<i64> = Matrix::from_vec(1, 3, vec![1, 2, 3]);
    let mut d = a.duplicate();
    d.set(0, 0, 99).unwrap();
    assert_eq!(a.data, vec![1, 2, 3]);
    assert_eq!(d.data, vec![99, 2, 3]);
}

#[test]
fn dot_with_identity_is_exact() {
    let a: Matrix<i64> = Matrix::from_vec(2, 3, vec![7, -8, 9, 10, 0, -11]);
    let mut ident: Matrix<i64> = Matrix::new(3, 3);
    for i in 0..3 {
        ident.set(i, i, 1).unwrap();
    }
    let r = a.dot(&ident).unwrap();
    assert_eq!(r.rows, 2);
    assert_eq!(r.cols, 3);
    assert_eq!(r.data, a.data);
}

#[test]
fn add_then_sub_is_exact() {
    let a: Matrix<i64> = Matrix::from_vec(2, 2, vec![i64::MAX, -5, 0, 77]);
    let b: Matrix<i64> = Matrix::from_vec(2, 2, vec![3, 12, -6, -77]);
    let r = a.add_mat(&b).unwrap().sub_mat(&b).unwrap();
    assert_eq!(r.data, a.data);
}
