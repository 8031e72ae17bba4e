use solar_dc::matrix::{Matrix, MatrixError};

#[test]
fn test_new_and_size() {
    let m: Matrix<f64> = Matrix::new(1.5, 2, 3);
    assert_eq!(m.size(), (2, 3));
    assert!(!m.is_empty());
    for r in 0..2 {
        for c in 0..3 {
            assert_eq!(m.get(r, c).unwrap(), 1.5);
        }
    }
}

#[test]
fn test_empty() {
    let m: Matrix<f64> = Matrix::empty();
    assert_eq!(m.size(), (0, 0));
    assert!(m.is_empty());
    assert_eq!(m.get(0, 0), Err(MatrixError::OutOfBounds { row: 0, col: 0 }));
}

#[test]
fn test_get_set_out_of_bounds() {
    let mut m: Matrix<f64> = Matrix::new(0.0, 2, 2);
    assert_eq!(m.set(0, 1, 4.25), Ok(()));
    assert_eq!(m.get(0, 1), Ok(4.25));
    assert_eq!(m.get(2, 0), Err(MatrixError::OutOfBounds { row: 2, col: 0 }));
    assert_eq!(m.get(0, 2), Err(MatrixError::OutOfBounds { row: 0, col: 2 }));
    assert_eq!(m.set(5, 1, 1.0), Err(MatrixError::OutOfBounds { row: 5, col: 1 }));
    // The failed set left the matrix unchanged.
    assert_eq!(m.get(0, 1), Ok(4.25));
}

#[test]
fn test_from_vec() {
    let m = Matrix::from_vec(2, 2, vec![1.0f64, 2.0, 3.0, 4.0]).unwrap();
    assert_eq!(m.get(0, 0), Ok(1.0));
    assert_eq!(m.get(0, 1), Ok(2.0));
    assert_eq!(m.get(1, 0), Ok(3.0));
    assert_eq!(m.get(1, 1), Ok(4.0));
    let bad = Matrix::from_vec(2, 2, vec![1.0f64, 2.0, 3.0]);
    assert_eq!(bad.unwrap_err(), MatrixError::SizeMismatch { rows: 2, cols: 2, len: 3 });
}

#[test]
fn test_concat_rows_matching() {
    // Matching column counts succeed and produce r1 + r2 rows.
    let mut a = Matrix::from_vec(2, 2, vec![1.0f64, 2.0, 3.0, 4.0]).unwrap();
    let b = Matrix::from_vec(1, 2, vec![5.0f64, 6.0]).unwrap();
    assert_eq!(a.concat_rows(&b), Ok(()));
    assert_eq!(a.size(), (3, 2));
    assert_eq!(a.get(2, 0), Ok(5.0));
    assert_eq!(a.get(2, 1), Ok(6.0));
    assert_eq!(a.get(0, 0), Ok(1.0));
}

#[test]
fn test_concat_rows_mismatch() {
    // Differing column counts fail and leave the left matrix unchanged.
    let mut a = Matrix::from_vec(2, 2, vec![1.0f64, 2.0, 3.0, 4.0]).unwrap();
    let b = Matrix::from_vec(1, 3, vec![5.0f64, 6.0, 7.0]).unwrap();
    assert_eq!(
        a.concat_rows(&b),
        Err(MatrixError::DimensionMismatch { left_cols: 2, right_cols: 3 })
    );
    assert_eq!(a.size(), (2, 2));
    assert_eq!(a.get(1, 1), Ok(4.0));
}
