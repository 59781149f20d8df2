use m4ri_rust::matrix::{
    mzd_first_row, mzd_read_bit, mzd_row, mzd_set_ui, mzd_write_bit, BinMatrix,
};

#[test]
fn mzd_init() {
    for _ in 0..100 {
        let matrix = BinMatrix::random(10, 10);
        assert_eq!(matrix.nrows(), 10);
        assert_eq!(matrix.ncols(), 10);
        assert!(matrix == matrix);
        let copy = matrix.clone();
        assert!(copy == matrix);
        let m2 = BinMatrix::random(10, 10);
        assert!(!(m2 == matrix));
    }
}

#[test]
fn test_mzd_first_row() {
    for _ in 0..100 {
        let mut matrix = BinMatrix::zero(10, 10);
        mzd_set_ui(&mut matrix, 0);
        mzd_first_row(&matrix);
    }
}

#[test]
fn test_mzd_row() {
    for _ in 0..100 {
        let mut matrix = BinMatrix::zero(10, 10);
        mzd_set_ui(&mut matrix, 0);
        mzd_row(&matrix, 5);
    }
}

#[test]
fn test_mzd_read_bit() {
    for _ in 0..10 {
        let mut matrix = BinMatrix::zero(1000, 1000);
        mzd_set_ui(&mut matrix, 1);
        for i in 0..1000 {
            for j in 0..1000 {
                let bit = mzd_read_bit(&matrix, i, j);
                assert_eq!(bit, i == j, "Should be unit matrix");
            }
        }
    }
}

#[test]
fn test_mzd_write_bit() {
    for _ in 0..10 {
        let mut matrix = BinMatrix::zero(1000, 1000);
        for i in 0..1000 {
            for j in 0..1000 {
                mzd_write_bit(&mut matrix, i, j, i == j);
            }
        }
        for i in 0..1000 {
            for j in 0..1000 {
                let bit = mzd_read_bit(&matrix, i, j);
                assert_eq!(bit, i == j, "Should be unit matrix");
            }
        }
    }
}
