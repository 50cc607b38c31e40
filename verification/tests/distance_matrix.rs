use phomo::error::DistanceMatrixError;
use phomo::error::PhomoError;
use phomo::DistanceMatrix;

#[test]
fn test_new() {
    let d_matrix = DistanceMatrix::new(2, 3, vec![1, 2, 3, 4, 5, 6]);
    assert!(d_matrix.is_ok());
}

#[test]
fn test_new_bad_size() {
    let d_matrix = DistanceMatrix::new(2, 3, vec![1, 2, 3, 4]);
    assert!(d_matrix.is_err());
}

#[test]
fn test_tile() {
    let d_matrix = DistanceMatrix::new(2, 3, vec![1, 2, 3, 4, 5, 6]).unwrap();
    let d_matrix_repeat = d_matrix.tile(2);
    assert!(d_matrix_repeat.data == vec![1, 2, 3, 1, 2, 3, 4, 5, 6, 4, 5, 6]);
}

#[test]
fn new_reports_wrong_length() {
    let res = DistanceMatrix::new(2, 3, vec![1, 2, 3, 4]);
    assert!(matches!(
        res,
        Err(PhomoError::DistanceMatrixError(DistanceMatrixError::WrongLength))
    ));
}

#[test]
fn new_reports_empty_row_and_column() {
    assert!(matches!(
        DistanceMatrix::new(0, 3, vec![]),
        Err(PhomoError::DistanceMatrixError(DistanceMatrixError::EmptyRow))
    ));
    assert!(matches!(
        DistanceMatrix::new(2, 0, vec![]),
        Err(PhomoError::DistanceMatrixError(DistanceMatrixError::EmptyCol))
    ));
}

#[test]
fn get_reads_row_major() {
    let d_matrix = DistanceMatrix::new(2, 3, vec![1, 2, 3, 4, 5, 6]).unwrap();
    assert_eq!(d_matrix.get(0, 0), 1);
    assert_eq!(d_matrix.get(0, 2), 3);
    assert_eq!(d_matrix.get(1, 0), 4);
    assert_eq!(d_matrix.get(1, 2), 6);
}
