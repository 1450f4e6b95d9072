use matrix_mlp::error::MathError;
use matrix_mlp::fixed::SCALE;
use matrix_mlp::matrix::Matrix;
use matrix_mlp::rng::RngSource;

#[test]
pub fn matrix_2_multiply() {
    let mut m1 = Matrix::zeros(3, 3);
    m1.data = [1, 2, 3, 4, 5, 6, 7, 8, 9].to_vec();

    let mut m2 = Matrix::zeros(3, 3);
    m2.data = [1, 2, 3, 4, 5, 6, 7, 8, 9].to_vec();

    let res = m1.multiply(&m2).unwrap();

    assert_eq!([30, 36, 42, 66, 81, 96, 102, 126, 150].to_vec(), res.data);
}

#[test]
pub fn matrix_1_vs_matrix_2_multiply() {
    let m1 = Matrix::from(
        [[1, 2, 3].to_vec(), [4, 5, 6].to_vec(), [7, 8, 9].to_vec()].to_vec(),
    )
    .unwrap();

    let m2 = Matrix::from(
        [[1, 2, 3].to_vec(), [4, 5, 6].to_vec(), [7, 8, 9].to_vec()].to_vec(),
    )
    .unwrap();

    let res = m1.multiply(&m2).unwrap();

    assert_eq!([30, 36, 42, 66, 81, 96, 102, 126, 150].to_vec(), res.data);
}

#[test]
pub fn matrix_2_add() {
    let mut m1 = Matrix::zeros(3, 3);
    m1.data = [1, 2, 3, 4, 5, 6, 7, 8, 9].to_vec();

    let mut m2 = Matrix::zeros(3, 3);
    m2.data = [1, 2, 3, 4, 5, 6, 7, 8, 9].to_vec();

    let res = m1.add(&m2).unwrap();

    assert_eq!(res.data, [2, 4, 6, 8, 10, 12, 14, 16, 18].to_vec());
}

#[test]
pub fn matrix_2_dot_multiply() {
    assert_eq!(1, 1)
}

#[test]
fn subtract_values() {
    let a = Matrix::from(vec![vec![10, 20], vec![30, 40]]).unwrap();
    let b = Matrix::from(vec![vec![1, 2], vec![3, 4]]).unwrap();
    let d = a.subtract(&b).unwrap();
    assert_eq!(d.data, vec![9, 18, 27, 36]);
}

#[test]
fn dot_multiply_values() {
    let a = Matrix::from(vec![vec![2, 3], vec![4, 5]]).unwrap();
    let b = Matrix::from(vec![vec![10, 10], vec![10, 10]]).unwrap();
    let p = a.dot_multiply(&b).unwrap();
    assert_eq!(p.data, vec![20, 30, 40, 50]);
}

#[test]
fn multiply_shape_mismatch() {
    let a = Matrix::zeros(2, 3);
    let b = Matrix::zeros(2, 3);
    assert_eq!(
        a.multiply(&b),
        Err(MathError::ShapeMismatch {
            left_rows: 2,
            left_cols: 3,
            right_rows: 2,
            right_cols: 3,
        })
    );
}

#[test]
fn add_shape_mismatch() {
    let a = Matrix::zeros(2, 3);
    let b = Matrix::zeros(3, 2);
    assert_eq!(
        a.add(&b),
        Err(MathError::ShapeMismatch {
            left_rows: 2,
            left_cols: 3,
            right_rows: 3,
            right_cols: 2,
        })
    );
}

#[test]
fn subtract_shape_mismatch() {
    let a = Matrix::zeros(1, 4);
    let b = Matrix::zeros(4, 1);
    assert!(matches!(
        a.subtract(&b),
        Err(MathError::ShapeMismatch { .. })
    ));
}

#[test]
fn dot_multiply_shape_mismatch() {
    let a = Matrix::zeros(2, 2);
    let b = Matrix::zeros(2, 3);
    assert!(matches!(
        a.dot_multiply(&b),
        Err(MathError::ShapeMismatch { .. })
    ));
}

#[test]
fn from_rejects_ragged_rows() {
    let r = Matrix::from(vec![vec![1, 2, 3], vec![4, 5]]);
    assert!(matches!(r, Err(MathError::ShapeMismatch { .. })));
}

#[test]
fn add_overflow_is_recoverable() {
    let mut a = Matrix::zeros(1, 1);
    a.data = vec![i64::MAX];
    let mut b = Matrix::zeros(1, 1);
    b.data = vec![1];
    assert_eq!(a.add(&b), Err(MathError::Overflow));
}

#[test]
fn multiply_overflow_is_recoverable() {
    let mut a = Matrix::zeros(1, 1);
    a.data = vec![i64::MAX];
    let mut b = Matrix::zeros(1, 1);
    b.data = vec![2];
    assert_eq!(a.multiply(&b), Err(MathError::Overflow));
}

#[test]
fn dot_multiply_overflow_is_recoverable() {
    let mut a = Matrix::zeros(1, 1);
    a.data = vec![i64::MAX];
    let mut b = Matrix::zeros(1, 1);
    b.data = vec![i64::MAX];
    assert_eq!(a.dot_multiply(&b), Err(MathError::Overflow));
}

#[test]
fn transpose_involution() {
    let a = Matrix::from(vec![vec![1, 2, 3], vec![4, 5, 6]]).unwrap();
    let t = a.transpose();
    assert_eq!(t.rows, 3);
    assert_eq!(t.cols, 2);
    assert_eq!(t.data, vec![1, 4, 2, 5, 3, 6]);
    let tt = t.transpose();
    assert_eq!(tt.rows, a.rows);
    assert_eq!(tt.cols, a.cols);
    assert_eq!(tt.data, a.data);
}

#[test]
fn map_identity_preserves_matrix() {
    let a = Matrix::from(vec![vec![-7, 0], vec![3, SCALE]]).unwrap();
    let r = a.map(|x: i64| x);
    assert_eq!(r.rows, a.rows);
    assert_eq!(r.cols, a.cols);
    assert_eq!(r.data, a.data);
}

#[test]
fn map_applies_the_function() {
    let a = Matrix::from(vec![vec![1, -2], vec![3, -4]]).unwrap();
    let r = a.map(|x: i64| x.wrapping_mul(10));
    assert_eq!(r.data, vec![10, -20, 30, -40]);
}

#[test]
fn random_is_seeded_and_in_range() {
    let mut s1 = RngSource::from_seed(7);
    let mut s2 = RngSource::from_seed(7);
    let a = Matrix::random(4, 5, &mut s1);
    let b = Matrix::random(4, 5, &mut s2);
    assert_eq!(a.rows, 4);
    assert_eq!(a.cols, 5);
    assert_eq!(a.data.len(), 20);
    assert_eq!(a.data, b.data);
    for v in a.data.iter() {
        assert!(-SCALE <= *v && *v < SCALE);
    }
    let mut s3 = RngSource::from_seed(8);
    let c = Matrix::random(4, 5, &mut s3);
    assert_ne!(a.data, c.data);
}

#[test]
fn zeros_is_all_zero() {
    let z = Matrix::zeros(3, 2);
    assert_eq!(z.rows, 3);
    assert_eq!(z.cols, 2);
    assert_eq!(z.data, vec![0; 6]);
}
