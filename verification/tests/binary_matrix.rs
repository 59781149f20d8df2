use m4ri_rust::matrix::{mzd_read_bit, BinMatrix};
use m4ri_rust::vector::BinVector;
use rand::Rng;
use vob::Vob;

fn vob_of(bits: &[bool]) -> Vob {
    let mut v = Vob::with_capacity(bits.len());
    for b in bits {
        v.push(*b);
    }
    v
}

#[test]
fn binary_matrix_new() {
    let _m = BinMatrix::new(vec![
        BinVector::from(vob_of(&[true, false, true])),
        BinVector::from(vob_of(&[true, true, true])),
    ]);
}

#[test]
fn binary_matrix_identity() {
    let id = BinMatrix::new(vec![
        BinVector::from(vob_of(&[
            true, false, false, false, false, false, false, false, false, false,
        ])),
        BinVector::from(vob_of(&[
            false, true, false, false, false, false, false, false, false, false,
        ])),
        BinVector::from(vob_of(&[
            false, false, true, false, false, false, false, false, false, false,
        ])),
        BinVector::from(vob_of(&[
            false, false, false, true, false, false, false, false, false, false,
        ])),
        BinVector::from(vob_of(&[
            false, false, false, false, true, false, false, false, false, false,
        ])),
        BinVector::from(vob_of(&[
            false, false, false, false, false, true, false, false, false, false,
        ])),
        BinVector::from(vob_of(&[
            false, false, false, false, false, false, true, false, false, false,
        ])),
        BinVector::from(vob_of(&[
            false, false, false, false, false, false, false, true, false, false,
        ])),
        BinVector::from(vob_of(&[
            false, false, false, false, false, false, false, false, true, false,
        ])),
        BinVector::from(vob_of(&[
            false, false, false, false, false, false, false, false, false, true,
        ])),
    ]);

    let id_gen = BinMatrix::identity(10);
    assert_eq!(id.nrows(), id_gen.nrows());
    assert_eq!(id.ncols(), id_gen.ncols());
    for i in 0..8 {
        for j in 0..8 {
            assert_eq!(
                mzd_read_bit(&id, i, j),
                mzd_read_bit(&id_gen, i, j),
                "({}, {})",
                i,
                j
            );
        }
    }
    assert!(id == id_gen);
    assert_eq!(id, id_gen);
}

#[test]
fn binary_matrix_mul() {
    let m1 = BinMatrix::identity(8);
    let m2 = BinMatrix::identity(8);
    let m3 = BinMatrix::identity(8);
    let prod = m1 * m2;
    assert!(prod == m3);
}

#[test]
fn binary_matrix_vecmul() {
    let m1 = BinMatrix::identity(10);
    let binvec = BinVector::from(Vob::from_elem(true, 10));

    let result: BinVector = &m1 * &binvec;
    assert_eq!(result, binvec);

    let result: BinVector = &binvec * &m1;
    assert_eq!(result, binvec);

    let m1 = BinMatrix::random(10, 3);
    let result = &binvec * &m1;
    assert_eq!(result.len(), 3);
}

#[test]
fn binary_matrix_test_random() {
    BinMatrix::random(10, 1);
}

#[test]
fn binary_matrix_test_as_vector_column() {
    for i in 1..25 {
        let m1 = BinMatrix::random(i, 1);
        let vec = m1.as_vector();
        assert_eq!(vec.len(), i);
        assert!(m1 == vec.as_column_matrix());
    }
}

#[test]
fn binary_matrix_test_as_vector_row() {
    for i in 1..25 {
        let m1 = BinMatrix::random(1, i);
        let vec = m1.as_vector();
        assert_eq!(vec.len(), i);
        assert!(m1 == vec.as_matrix());
    }
}

#[test]
fn binary_matrix_zero() {
    let m1 = BinMatrix::zero(10, 3);
    for i in 0..10 {
        for j in 0..3 {
            assert_eq!(m1.bit(i, j), false);
        }
    }
}

#[test]
fn binary_matrix_set_window() {
    let mut m1 = BinMatrix::zero(10, 10);
    m1.set_window(5, 5, &BinMatrix::identity(5));
    for i in 0..5 {
        for j in 0..5 {
            assert_eq!(m1.bit(i, j), false);
        }
    }
    for i in 5..10 {
        for j in 5..10 {
            let bit = m1.bit(i, j);
            assert_eq!(bit, i == j, "bit ({},{}) was {}", i, j, bit);
        }
    }

    let mut m1 = BinMatrix::random(10, 10);
    m1.set_window(5, 5, &BinMatrix::identity(5));
    for i in 5..10 {
        for j in 5..10 {
            let bit = m1.bit(i, j);
            assert_eq!(bit, i == j, "bit ({},{}) was {}", i, j, bit);
        }
    }
}

#[test]
fn test_random_unequal() {
    let m1 = BinMatrix::random(100, 100);
    let m2 = BinMatrix::random(100, 100);
    assert_ne!(m1, m2);
}

#[test]
fn test_count_ones() {
    let rng = &mut rand::thread_rng();
    for _ in 0..1000 {
        let size = rng.gen_range(1..1000);
        let v = BinVector::random(size);
        assert_eq!(v.count_ones(), v.as_matrix().count_ones());
        assert_eq!(v.count_ones(), v.as_column_matrix().count_ones());
    }
}
