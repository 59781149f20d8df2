use m4ri_rust::vector::BinVector;
use vob::Vob;

#[test]
fn binary_vector_init() {
    let b = Vob::from_elem(false, 10);
    let b = BinVector::from(b);
    assert_eq!(b.len(), 10);
}

#[test]
fn binary_vector_from_bytes() {
    let b = BinVector::from_bytes(&[0b1111_1111]);
    assert_eq!(b.len(), 8);

    let b = BinVector::from_bytes(&[0b1000_0000]);
    assert_eq!(b.get(0), Some(true));
    assert_eq!(b.get(1), Some(false));
}

#[test]
fn binary_vector_add() {
    let a = BinVector::from(Vob::from_elem(false, 10));
    let b = BinVector::from(Vob::from_elem(false, 10));

    let c = &a + &b;

    assert_eq!(c.len(), 10, "length incorrect");
    assert_eq!(Vob::from_elem(false, 10), c.clone().into_vob());
    assert_eq!(c, a + b);
}

#[test]
fn binary_vector_mul() {
    let a = BinVector::from(Vob::from_elem(true, 10));
    let b = BinVector::from(Vob::from_elem(false, 10));

    let c = &a * &b;

    assert_eq!(false, c);
    assert_eq!(c, a * b);
}

#[test]
fn binary_vector_as_matrix() {
    let a = BinVector::random(10);
    let amat = a.as_matrix();
    assert_eq!(amat.ncols(), 10);
    assert_eq!(amat.nrows(), 1);
    assert_eq!(amat.as_vector(), a);
}

#[test]
fn binary_vector_as_column_matrix() {
    let a = BinVector::random(10);
    let amat = a.as_column_matrix();
    assert_eq!(amat.ncols(), 1);
    assert_eq!(amat.nrows(), 10);
    assert_eq!(amat.as_vector(), a);
}

#[test]
fn binary_vector_count_ones() {
    let a = BinVector::from_elem(10, true);
    let b = BinVector::from_elem(10, false);
    assert_eq!(a.count_ones(), 10);
    assert_eq!(b.count_ones(), 0);
    assert_eq!(BinVector::from_bytes(&[0b1010_1000]).count_ones(), 3);
}
