use m4ri_rust::matrix::BinMatrix;
use m4ri_rust::multiply::{ConfigError, MulStrategy};
use m4ri_rust::mzd::{
    mzd_free_window, mzd_init_window, mzd_init_window_mut, mzd_is_windowed, mzd_owns_blocks, Mzd,
};
use m4ri_rust::solve::mzd_solve_left;
use m4ri_rust::vector::BinVector;

#[test]
fn window_at_a_word_boundary_reads_the_parent() {
    let parent = BinMatrix::random(5, 200);
    let w = mzd_init_window(&parent, 1, 64, 4, 150);
    assert!(mzd_is_windowed(&w));
    assert!(!mzd_owns_blocks(&w));
    for i in 0..3 {
        for j in 0..86 {
            assert_eq!(w.bit(i, j), parent.bit(1 + i, 64 + j));
        }
    }
    match &w {
        Mzd::Windowed(window) => {
            assert_eq!(window.nrows(), 3);
            assert_eq!(window.ncols(), 86);
            assert_eq!(window.to_matrix(), parent.get_window(1, 64, 4, 150));
        }
        Mzd::Owned(_) => panic!("a window was asked for at a word boundary"),
    }
    assert_eq!(BinMatrix::from_mzd(w), parent.get_window(1, 64, 4, 150));
}

#[test]
fn window_off_a_word_boundary_is_a_copy() {
    let parent = BinMatrix::random(5, 200);
    let w = mzd_init_window(&parent, 0, 3, 5, 70);
    assert!(!mzd_is_windowed(&w));
    assert!(mzd_owns_blocks(&w));
    for i in 0..5 {
        for j in 0..67 {
            assert_eq!(w.bit(i, j), parent.bit(i, 3 + j));
        }
    }
    let copy = parent.clone();
    mzd_free_window(w);
    assert_eq!(parent, copy);
}

#[test]
fn window_at_column_zero() {
    let parent = BinMatrix::identity(4);
    let w = mzd_init_window(&parent, 2, 0, 4, 3);
    assert!(mzd_is_windowed(&w));
    assert!(!w.bit(0, 0) && !w.bit(0, 1) && w.bit(0, 2));
    assert!(!w.bit(1, 0) && !w.bit(1, 1) && !w.bit(1, 2));
}

#[test]
fn one_strategy_at_most() {
    assert_eq!(MulStrategy::from_flags(false, false, false), Ok(MulStrategy::Strassen));
    assert_eq!(MulStrategy::from_flags(true, false, false), Ok(MulStrategy::Naive));
    assert_eq!(MulStrategy::from_flags(false, true, false), Ok(MulStrategy::M4rm));
    assert_eq!(MulStrategy::from_flags(false, false, true), Ok(MulStrategy::Strassen));
    assert_eq!(
        MulStrategy::from_flags(true, true, false),
        Err(ConfigError::SeveralStrategies)
    );
    assert_eq!(
        MulStrategy::from_flags(true, false, true),
        Err(ConfigError::SeveralStrategies)
    );
    assert_eq!(
        MulStrategy::from_flags(false, true, true),
        Err(ConfigError::SeveralStrategies)
    );
    assert_eq!(
        MulStrategy::from_flags(true, true, true),
        Err(ConfigError::SeveralStrategies)
    );
    assert_eq!(MulStrategy::default(), MulStrategy::Strassen);
}

#[test]
fn solving_without_the_check_always_reports_success() {
    let a = BinMatrix::identity(3);
    let mut b = BinMatrix::random(3, 2);
    let rhs = b.clone();
    assert!(mzd_solve_left(&a, &mut b, false));
    assert_eq!(b, rhs);

    let mut singular = BinMatrix::identity(3);
    singular.clear_row(1);
    let mut c = BinMatrix::zero(3, 1);
    c.set_window(1, 0, &BinMatrix::identity(1));
    let before = c.clone();
    assert!(mzd_solve_left(&singular, &mut c, false));
    let mut d = before.clone();
    assert!(!mzd_solve_left(&singular, &mut d, true));
    assert_eq!(d, before);
}

#[test]
fn set_changes_one_bit() {
    let mut v = BinVector::from_elem(5, false);
    assert!(v.set(2, true));
    assert!(!v.set(2, true));
    assert!(!v.set(0, false));
    assert_eq!(v, BinVector::from_bools(&[false, false, true, false, false]));
    assert!(v.set(2, false));
    assert_eq!(v, BinVector::from_elem(5, false));
}

#[test]
fn writing_through_a_window_writes_the_parent() {
    let mut parent = BinMatrix::zero(4, 130);
    {
        let mut w = mzd_init_window_mut(&mut parent, 1, 64, 3, 130);
        assert_eq!(w.nrows, 2);
        assert_eq!(w.ncols, 66);
        assert!(!w.bit(0, 0));
        w.write_bit(0, 0, true);
        w.write_bit(1, 65, true);
        w.write_bit(1, 3, true);
        w.write_bit(1, 3, false);
        assert!(w.bit(0, 0));
        assert!(w.bit(1, 65));
        assert!(!w.bit(1, 3));
        let copy = w.to_matrix();
        for i in 0..2 {
            for j in 0..66 {
                assert_eq!(copy.bit(i, j), (i, j) == (0, 0) || (i, j) == (1, 65));
            }
        }
    }
    for i in 0..4 {
        for j in 0..130 {
            assert_eq!(parent.bit(i, j), (i, j) == (1, 64) || (i, j) == (2, 129));
        }
    }
}
