use quadratic_sieve::congruence_class::CongruenceClass;
use quadratic_sieve::matrix::Matrix;

fn mat_i64(rows: Vec<Vec<i64>>) -> Matrix<i64> {
    Matrix::from_array(rows)
}

fn row_cc2(vals: &[u32]) -> Vec<CongruenceClass<2>> {
    vals.iter().map(|&v| CongruenceClass::<2>::new(v)).collect()
}

fn row_cc5(vals: &[u32]) -> Vec<CongruenceClass<5>> {
    vals.iter().map(|&v| CongruenceClass::<5>::new(v)).collect()
}

#[test]
fn matrix_test_addition() {
    let a = mat_i64(vec![vec![1, 1, 1], vec![1, 1, 1], vec![1, 1, 1]]);
    let b = mat_i64(vec![vec![2, 2, 2], vec![2, 2, 2], vec![2, 2, 2]]);
    let res = mat_i64(vec![vec![3, 3, 3], vec![3, 3, 3], vec![3, 3, 3]]);
    assert_eq!(a.add(&b), res);
}

#[test]
fn test_subtraction() {
    let a = mat_i64(vec![vec![1, 1, 1], vec![1, 1, 1], vec![1, 1, 1]]);
    let b = mat_i64(vec![vec![2, 2, 2], vec![2, 2, 2], vec![2, 2, 2]]);
    let res = mat_i64(vec![vec![-1, -1, -1], vec![-1, -1, -1], vec![-1, -1, -1]]);
    assert_eq!(a.sub(&b), res);
}

#[test]
fn matrix_test_multiplication() {
    let a = mat_i64(vec![vec![1, 2, 0], vec![0, 0, 1], vec![3, 0, 1]]);
    let b = mat_i64(vec![vec![2, 0, 3], vec![1, 0, 0], vec![2, 2, 0]]);
    let res = mat_i64(vec![vec![4, 0, 3], vec![2, 2, 0], vec![8, 2, 9]]);
    assert_eq!(a.mul(&b), res);
}

#[test]
fn test_multiplication_over_zz5() {
    let a = Matrix::from_array(vec![
        row_cc5(&[1, 2, 0]),
        row_cc5(&[0, 0, 1]),
        row_cc5(&[3, 0, 1]),
    ]);
    let b = Matrix::from_array(vec![
        row_cc5(&[2, 0, 3]),
        row_cc5(&[1, 0, 0]),
        row_cc5(&[2, 2, 0]),
    ]);
    let res = Matrix::from_array(vec![
        row_cc5(&[4, 0, 3]),
        row_cc5(&[2, 2, 0]),
        row_cc5(&[8, 2, 9]),
    ]);
    assert_eq!(a.mul(&b), res);
}

#[test]
fn test_augment() {
    let a = mat_i64(vec![vec![0, 1], vec![2, 3], vec![4, 5], vec![6, 7]]);
    let res = mat_i64(vec![
        vec![0, 1, 1, 0, 0, 0],
        vec![2, 3, 0, 1, 0, 0],
        vec![4, 5, 0, 0, 1, 0],
        vec![6, 7, 0, 0, 0, 1],
    ]);
    assert_eq!(a.augment(), res);
}

#[test]
fn test_to_echelon() {
    let a = mat_i64(vec![vec![0, 0, 3, 1], vec![2, 2, 1, 1], vec![1, 3, 3, 3]]);
    let res = mat_i64(vec![vec![2, 2, 1, 1], vec![0, 4, 5, 5], vec![0, 0, 3, 1]]);
    assert_eq!(a.to_echelon(), res);
}

#[test]
fn test_to_echelon_zz2() {
    let a = Matrix::from_array(vec![
        row_cc2(&[0, 0, 0, 1]),
        row_cc2(&[0, 0, 0, 0]),
        row_cc2(&[1, 1, 1, 0]),
        row_cc2(&[1, 1, 1, 1]),
    ]);
    let res = Matrix::from_array(vec![
        row_cc2(&[1, 1, 1, 0]),
        row_cc2(&[0, 0, 0, 1]),
        row_cc2(&[0, 0, 0, 0]),
        row_cc2(&[0, 0, 0, 0]),
    ]);
    assert_eq!(a.to_echelon(), res);
}

#[test]
fn test_lnull_span_zz2() {
    let a = Matrix::from_array(vec![
        row_cc2(&[0, 0, 0, 1]),
        row_cc2(&[0, 0, 0, 0]),
        row_cc2(&[1, 1, 1, 0]),
        row_cc2(&[1, 1, 1, 1]),
    ]);
    let vs = a.iter_lnull_span();
    assert_eq!(vs[0], row_cc2(&[1, 0, 1, 1]));
    assert_eq!(vs[1], row_cc2(&[0, 1, 0, 0]));
}

#[test]
fn lnull_vectors_combine_rows_to_zero() {
    // the weighted sum of the original rows under every returned null-space
    // vector vanishes
    let rows = vec![
        row_cc2(&[0, 0, 0, 1]),
        row_cc2(&[0, 0, 0, 0]),
        row_cc2(&[1, 1, 1, 0]),
        row_cc2(&[1, 1, 1, 1]),
    ];
    let a = Matrix::from_array(rows.clone());
    for v in a.iter_lnull_span() {
        for j in 0..4 {
            let mut sum = CongruenceClass::<2>::new(0);
            for t in 0..4 {
                sum = sum.add(v[t].mul(rows[t][j]));
            }
            assert_eq!(sum, CongruenceClass::<2>::new(0));
        }
    }
}

#[test]
fn echelon_is_idempotent_on_integers() {
    let a = mat_i64(vec![vec![0, 0, 3, 1], vec![2, 2, 1, 1], vec![1, 3, 3, 3]]);
    let e = a.to_echelon();
    assert_eq!(e.to_echelon(), e);
}

#[test]
fn echelon_is_idempotent_over_zz2() {
    let a = Matrix::from_array(vec![
        row_cc2(&[0, 1, 1, 1]),
        row_cc2(&[1, 1, 0, 1]),
        row_cc2(&[1, 0, 1, 0]),
    ]);
    let e = a.to_echelon();
    assert_eq!(e.to_echelon(), e);
}

#[test]
fn matrix_accessors() {
    let a = mat_i64(vec![vec![1, 2, 3], vec![4, 5, 6]]);
    assert_eq!(a.nrows(), 2);
    assert_eq!(a.ncols(), 3);
    assert_eq!(a.index(1, 2), 5);
    assert_eq!(a.get(1, 2), Some(&6));
    assert_eq!(a.get(2, 0), None);
    assert_eq!(*a.get_unchecked(0, 1), 2);
    assert_eq!(a.iter_row_major(), vec![1, 2, 3, 4, 5, 6]);
    assert_eq!(a.iter(), vec![1, 2, 3, 4, 5, 6]);
    assert_eq!(a.iter_col_major(), vec![1, 4, 2, 5, 3, 6]);
    assert_eq!(a.iter_row(1), vec![4, 5, 6]);
    assert_eq!(a.iter_col(2), vec![3, 6]);
    assert_eq!(a.col(1), Ok(vec![2, 5]));
    assert_eq!(a.col(3), Err(()));
    assert_eq!(a.iter_diag(), vec![1, 5]);
    assert_eq!(a.iter_supdiag(1), vec![2, 6]);
    assert_eq!(a.iter_subdiag(1), vec![4]);
    let t = a.transpose();
    assert_eq!(t, mat_i64(vec![vec![1, 4], vec![2, 5], vec![3, 6]]));
}

#[test]
fn matrix_constructors() {
    let z = Matrix::<i64>::zeros(2, 3);
    assert_eq!(z, mat_i64(vec![vec![0, 0, 0], vec![0, 0, 0]]));
    assert_eq!(Matrix::<i64>::new(2, 3), z);
    let e = Matrix::<i64>::eye(3);
    assert_eq!(e, mat_i64(vec![vec![1, 0, 0], vec![0, 1, 0], vec![0, 0, 1]]));
    let f = Matrix::<i64>::from_value(2, 2, 7);
    assert_eq!(f, mat_i64(vec![vec![7, 7], vec![7, 7]]));
    assert_eq!(
        z.find_nonzero_in_col(0),
        None
    );
    let a = mat_i64(vec![vec![0, 1], vec![2, 0]]);
    assert_eq!(a.find_nonzero_in_col(0), Some(1));
    assert_eq!(a.find_nonzero_in_col_after(1, 1), None);
    assert_eq!(a.find_nonzero_in_row(0), Some(1));
    assert_eq!(a.find_nonzero_in_row_after(1, 1), None);
}
