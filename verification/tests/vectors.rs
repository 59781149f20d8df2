use m4ri_rust::matrix::BinMatrix;
use m4ri_rust::vector::BinVector;
use vob::Vob;

fn bits_of(v: &BinVector) -> Vec<bool> {
    (0..v.len()).map(|i| v.get(i).unwrap()).collect()
}

#[test]
fn new_and_default_are_empty() {
    assert_eq!(BinVector::new().len(), 0);
    assert!(BinVector::new().is_empty());
    assert!(BinVector::default().is_empty());
    assert!(BinVector::with_capacity(100).is_empty());
    assert_eq!(BinVector::new().get(0), None);
}

#[test]
fn from_elem_takes_the_length_first() {
    let ones = BinVector::from_elem(3, true);
    assert_eq!(bits_of(&ones), vec![true, true, true]);
    let zeros = BinVector::from_elem(70, false);
    assert_eq!(zeros.len(), 70);
    assert_eq!(zeros.count_ones(), 0);
    assert_eq!(ones.get(3), None);
}

#[test]
fn from_bools_keeps_the_order() {
    let v = BinVector::from_bools(&[true, false, false, true, true]);
    assert_eq!(bits_of(&v), vec![true, false, false, true, true]);
    assert_eq!(BinVector::from_bools(&[]).len(), 0);
}

#[test]
fn from_function_asks_for_each_index() {
    let v = BinVector::from_function(4, |i| i % 2 == 0);
    assert_eq!(v.get(0), Some(true));
    assert_eq!(v.get(1), Some(false));
    assert_eq!(bits_of(&v), vec![true, false, true, false]);
}

#[test]
fn from_bytes_puts_the_highest_bit_first() {
    let v = BinVector::from_bytes(&[0b1010_0000, 0b0001_0010]);
    assert_eq!(
        bits_of(&v),
        vec![
            true, false, true, false, false, false, false, false, false, false, false, true,
            false, false, true, false
        ]
    );
}

#[test]
fn push_get_and_len() {
    let mut v = BinVector::new();
    v.push(true);
    v.push(false);
    v.push(true);
    assert_eq!(v.len(), 3);
    assert_eq!(v.get(0), Some(true));
    assert_eq!(v.get(1), Some(false));
    assert_eq!(v.get(2), Some(true));
    assert_eq!(v.get(3), None);
}

#[test]
fn extend_appends() {
    let mut v = BinVector::from_bools(&[true, false]);
    v.extend_from_binvec(&BinVector::from_bools(&[false, true, true]));
    assert_eq!(bits_of(&v), vec![true, false, false, true, true]);
}

#[test]
fn into_vob_hands_the_bits_out() {
    let v = BinVector::from_bools(&[true, false, true]);
    let vob: Vob = v.clone().into_vob();
    assert_eq!(vob.len(), 3);
    assert_eq!(vob.get(0), Some(true));
    assert_eq!(vob.get(1), Some(false));
    assert_eq!(v.to_vob(), vob);
}

#[test]
fn as_numbers() {
    let v = BinVector::from_bools(&[true, false, true, true]);
    assert_eq!(v.as_u32(), 13);
    assert_eq!(v.as_u64(), 13);
    let high = BinVector::from_function(63, |i| i == 62);
    assert_eq!(high.as_u64(), 1u64 << 62);
    let top = BinVector::from_function(31, |i| i == 30 || i == 0);
    assert_eq!(top.as_u32(), (1u32 << 30) + 1);
    assert_eq!(BinVector::from_elem(1, false).as_u32(), 0);
}

#[test]
fn sum_is_exclusive_or() {
    let a = BinVector::from_bools(&[true, true, false, false]);
    let b = BinVector::from_bools(&[true, false, true, false]);
    let expected = BinVector::from_bools(&[false, true, true, false]);
    assert_eq!(&a + &b, expected);
    let mut c = a.clone();
    c.add_assign(&b);
    assert_eq!(c, expected);
    assert_eq!(a.add(&b), expected);
    assert_eq!(a + b, expected);
}

#[test]
fn inner_product_is_the_parity_of_common_ones() {
    let a = BinVector::from_bools(&[true, true, false, true]);
    let b = BinVector::from_bools(&[true, false, true, true]);
    assert_eq!(&a * &b, false);
    let c = BinVector::from_bools(&[true, false, false, false]);
    assert_eq!(&a * &c, true);
    assert_eq!(a.dot(&c), true);
    assert_eq!(a * b, false);
}

#[test]
fn equality_compares_length_and_bits() {
    assert_eq!(BinVector::from_elem(3, true), BinVector::from_bools(&[true, true, true]));
    assert_ne!(BinVector::from_elem(3, true), BinVector::from_elem(4, true));
    assert_ne!(BinVector::from_elem(3, true), BinVector::from_elem(3, false));
}

#[test]
fn count_ones_counts() {
    let v = BinVector::from_function(200, |i| i % 3 == 0);
    assert_eq!(v.count_ones(), 67);
}

#[test]
fn random_has_the_length_asked_for() {
    for n in [0, 1, 63, 64, 65, 1000] {
        assert_eq!(BinVector::random(n).len(), n);
    }
    let a = BinVector::random(200);
    let b = BinVector::random(200);
    assert_ne!(a, b);
}

#[test]
fn matrix_from_vectors_and_back() {
    let rows = vec![
        BinVector::from_bools(&[true, false, true]),
        BinVector::from_bools(&[false, false, true]),
    ];
    let m = BinMatrix::new(rows);
    assert_eq!(m.nrows(), 2);
    assert_eq!(m.ncols(), 3);
    let expected = [[true, false, true], [false, false, true]];
    for i in 0..2 {
        for j in 0..3 {
            assert_eq!(m.bit(i, j), expected[i][j]);
        }
    }
    let column = BinVector::from_bools(&[true, false, true]).as_column_matrix();
    assert_eq!(column.nrows(), 3);
    assert_eq!(column.ncols(), 1);
    assert!(column.bit(0, 0) && !column.bit(1, 0) && column.bit(2, 0));
    assert_eq!(column.as_vector(), BinVector::from_bools(&[true, false, true]));
}

#[test]
fn matrix_times_vector_and_vector_times_matrix() {
    let m = BinMatrix::new(vec![
        BinVector::from_bools(&[true, true, false]),
        BinVector::from_bools(&[false, true, true]),
    ]);
    let v = BinVector::from_bools(&[true, true, true]);
    assert_eq!(&m * &v, BinVector::from_bools(&[false, false]));
    assert_eq!(m.mul_vector(&v), BinVector::from_bools(&[false, false]));
    let w = BinVector::from_bools(&[true, true]);
    assert_eq!(&w * &m, BinVector::from_bools(&[true, false, true]));
    assert_eq!(w.mul_matrix(&m), BinVector::from_bools(&[true, false, true]));
    let u = BinVector::from_bools(&[true, false, false]);
    assert_eq!(m * u, BinVector::from_bools(&[true, false]));
}

#[test]
fn vector_from_a_vob() {
    let mut vob = Vob::new();
    vob.push(true);
    vob.push(false);
    let v: BinVector = vob.clone().into();
    assert_eq!(v, BinVector::from_bools(&[true, false]));
    assert_eq!(BinVector::from(vob), v);
}
