use m4ri_rust::echelon::{mzd_echelonize, mzd_echelonize_naive};
use m4ri_rust::m4ri::mzd_echelonize_m4ri;
use m4ri_rust::matrix::BinMatrix;
use m4ri_rust::multiply::{mzd_mul_naive, MulStrategy};
use m4ri_rust::russian::mzd_mul_m4rm;
use m4ri_rust::solve::{mzd_inv_m4ri, solve_left};
use m4ri_rust::strassen::mzd_mul;
use m4ri_rust::vector::BinVector;

fn matrix_of(rows: &[&[u8]]) -> BinMatrix {
    let mut m = BinMatrix::zero(rows.len(), rows[0].len());
    for (i, row) in rows.iter().enumerate() {
        for (j, bit) in row.iter().enumerate() {
            if *bit == 1 {
                let mut one = BinMatrix::zero(1, 1);
                one.set_window(0, 0, &BinMatrix::identity(1));
                m.set_window(i, j, &one);
            }
        }
    }
    m
}

#[test]
fn product_of_given_matrices() {
    let a = matrix_of(&[&[1, 0, 1], &[0, 1, 1]]);
    let b = matrix_of(&[&[1, 1], &[0, 1], &[1, 0]]);
    let expected = matrix_of(&[&[0, 1], &[1, 1]]);
    assert_eq!(&a * &b, expected);
    assert_eq!(mzd_mul_naive(&a, &b), expected);
    assert_eq!(mzd_mul_m4rm(&a, &b, 0), expected);
    assert_eq!(mzd_mul_m4rm(&a, &b, 2), expected);
    assert_eq!(mzd_mul(&a, &b, 2), expected);
}

#[test]
fn sum_of_given_matrices() {
    let a = matrix_of(&[&[1, 0, 1], &[0, 1, 1]]);
    let b = matrix_of(&[&[1, 1, 0], &[0, 1, 0]]);
    let expected = matrix_of(&[&[0, 1, 1], &[0, 0, 1]]);
    assert_eq!(&a + &b, expected);
    let mut c = a.clone();
    c.add_assign(&b);
    assert_eq!(c, expected);
    assert_eq!(a + b, expected);
}

#[test]
fn multiplication_is_associative() {
    for (m, n, p, q) in [(1, 1, 1, 1), (3, 5, 2, 4), (10, 70, 65, 3), (33, 17, 129, 64)] {
        let a = BinMatrix::random(m, n);
        let b = BinMatrix::random(n, p);
        let c = BinMatrix::random(p, q);
        assert_eq!(&(&a * &b) * &c, &a * &(&b * &c));
    }
}

#[test]
fn multiplication_distributes_over_addition() {
    for (m, n, p) in [(1, 1, 1), (3, 5, 2), (10, 70, 65), (64, 64, 64), (33, 129, 17)] {
        let a = BinMatrix::random(m, n);
        let b = BinMatrix::random(n, p);
        let c = BinMatrix::random(n, p);
        assert_eq!(&a * &(&b + &c), &(&a * &b) + &(&a * &c));
        let d = BinMatrix::random(m, n);
        assert_eq!(&(&a + &d) * &b, &(&a * &b) + &(&d * &b));
    }
}

#[test]
fn transpose_is_an_involution() {
    for (m, n) in [(1, 1), (1, 7), (7, 1), (10, 10), (64, 65), (130, 3)] {
        let a = BinMatrix::random(m, n);
        let t = a.transposed();
        assert_eq!(t.nrows(), n);
        assert_eq!(t.ncols(), m);
        for i in 0..m {
            for j in 0..n {
                assert_eq!(t.bit(j, i), a.bit(i, j));
            }
        }
        assert_eq!(t.transposed(), a);
        assert_eq!(a.transpose(), t);
    }
}

#[test]
fn identity_is_neutral() {
    for (m, n) in [(1, 1), (3, 5), (10, 10), (65, 64), (100, 130)] {
        let a = BinMatrix::random(m, n);
        assert_eq!(&BinMatrix::identity(m) * &a, a);
        assert_eq!(&a * &BinMatrix::identity(n), a);
    }
}

#[test]
fn rank_of_identity_and_zero() {
    for n in [1, 2, 10, 64, 65, 100] {
        assert_eq!(BinMatrix::identity(n).rank(), n);
    }
    for (r, c) in [(1, 1), (10, 3), (3, 10), (64, 64), (65, 130)] {
        assert_eq!(BinMatrix::zero(r, c).rank(), 0);
    }
}

#[test]
fn rank_is_at_most_the_smaller_dimension() {
    for (r, c) in [(1, 1), (10, 3), (3, 10), (64, 64), (65, 130), (200, 20)] {
        let a = BinMatrix::random(r, c);
        let rank = a.rank();
        assert!(rank <= r);
        assert!(rank <= c);
        let copy = a.clone();
        let _ = a.rank();
        assert_eq!(a, copy);
    }
}

#[test]
fn rank_of_given_matrices() {
    let a = matrix_of(&[&[1, 0, 1], &[0, 1, 1], &[1, 1, 0]]);
    assert_eq!(a.rank(), 2);
    let b = matrix_of(&[&[1, 1, 0], &[0, 1, 1], &[0, 0, 1]]);
    assert_eq!(b.rank(), 3);
    let c = matrix_of(&[&[0, 0, 1, 1], &[0, 0, 1, 1]]);
    assert_eq!(c.rank(), 1);
}

#[test]
fn echelon_form_of_given_matrix() {
    let mut a = matrix_of(&[&[0, 1, 1], &[1, 1, 0], &[1, 0, 1]]);
    let rank = a.echelonize();
    assert_eq!(rank, 2);
    assert_eq!(a, matrix_of(&[&[1, 1, 0], &[0, 1, 1], &[0, 0, 0]]));

    let mut b = matrix_of(&[&[0, 1, 1], &[1, 1, 0], &[1, 0, 1]]);
    let rank = mzd_echelonize(&mut b, true);
    assert_eq!(rank, 2);
    assert_eq!(b, matrix_of(&[&[1, 0, 1], &[0, 1, 1], &[0, 0, 0]]));
}

#[test]
fn echelon_form_has_leading_ones_moving_right() {
    for (r, c) in [(5, 5), (10, 30), (30, 10), (70, 70)] {
        for full in [false, true] {
            let mut a = BinMatrix::random(r, c);
            let rank = mzd_echelonize(&mut a, full);
            let mut last: Option<usize> = None;
            for i in 0..r {
                let lead = (0..c).find(|j| a.bit(i, *j));
                if i < rank {
                    let lead = lead.expect("a pivot row is not zero");
                    if let Some(before) = last {
                        assert!(before < lead);
                    }
                    if full {
                        for k in 0..r {
                            assert_eq!(a.bit(k, lead), k == i);
                        }
                    }
                    last = Some(lead);
                } else {
                    assert_eq!(lead, None);
                }
            }
        }
    }
}

#[test]
fn inverse_of_given_matrix() {
    let a = matrix_of(&[&[1, 1, 0], &[0, 1, 1], &[0, 0, 1]]);
    let inv = a.inverted().expect("the matrix has full rank");
    assert_eq!(inv, matrix_of(&[&[1, 1, 1], &[0, 1, 1], &[0, 0, 1]]));
    assert_eq!(&inv * &a, BinMatrix::identity(3));
    assert_eq!(&a * &inv, BinMatrix::identity(3));
}

#[test]
fn inverse_times_matrix_is_identity() {
    for n in [1, 2, 5, 20, 64, 65, 100] {
        let mut found = false;
        for _ in 0..50 {
            let a = BinMatrix::random(n, n);
            let full = a.rank() == n;
            match a.inverted() {
                Some(inv) => {
                    assert!(full);
                    assert_eq!(&inv * &a, BinMatrix::identity(n));
                    assert_eq!(&a * &inv, BinMatrix::identity(n));
                    found = true;
                }
                None => assert!(!full),
            }
        }
        assert!(found);
    }
}

#[test]
fn singular_matrix_has_no_inverse() {
    let a = matrix_of(&[&[1, 0, 1], &[0, 0, 0], &[1, 1, 0]]);
    assert!(a.inverted().is_none());
    let b = matrix_of(&[&[1, 0, 1], &[0, 1, 1], &[1, 1, 0]]);
    assert!(b.inverted().is_none());
    assert!(BinMatrix::zero(4, 4).inverted().is_none());
    assert_eq!(BinMatrix::identity(7).inverted(), Some(BinMatrix::identity(7)));
}

#[test]
fn solve_left_of_given_system() {
    let a = matrix_of(&[&[1, 1, 0], &[0, 1, 1], &[0, 0, 1]]);
    let mut b = matrix_of(&[&[1, 0], &[1, 1], &[0, 1]]);
    let original = b.clone();
    assert!(solve_left(a.clone(), &mut b));
    assert_eq!(b, matrix_of(&[&[0, 0], &[1, 0], &[0, 1]]));
    assert_eq!(&a * &b, original);
}

#[test]
fn solve_left_with_full_rank() {
    for (n, k) in [(1, 1), (5, 3), (20, 1), (64, 65), (70, 10)] {
        let mut solved = 0;
        for _ in 0..50 {
            let a = BinMatrix::random(n, n);
            let b = BinMatrix::random(n, k);
            let mut x = b.clone();
            let ok = solve_left(a.clone(), &mut x);
            if a.rank() == n {
                assert!(ok);
                solved += 1;
            }
            if ok {
                assert_eq!(&a * &x, b);
            } else {
                assert_eq!(x, b);
            }
        }
        assert!(solved > 0);
    }
}

#[test]
fn solve_left_reports_an_inconsistent_system() {
    let a = matrix_of(&[&[1, 0, 1], &[0, 0, 0], &[1, 1, 0]]);
    let mut b = matrix_of(&[&[0], &[1], &[0]]);
    let original = b.clone();
    assert!(!solve_left(a.clone(), &mut b));
    assert_eq!(b, original);

    let mut c = matrix_of(&[&[1], &[0], &[1]]);
    let rhs = c.clone();
    assert!(solve_left(a.clone(), &mut c));
    assert_eq!(&a * &c, rhs);
}

#[test]
fn solve_left_with_more_rows_than_columns() {
    let a = matrix_of(&[&[1, 0], &[0, 1], &[1, 1]]);
    let mut b = matrix_of(&[&[1], &[1], &[0]]);
    assert!(solve_left(a.clone(), &mut b));
    assert_eq!(b, matrix_of(&[&[1], &[1], &[0]]));
    let x = b.get_window(0, 0, 2, 1);
    assert_eq!(&a * &x, matrix_of(&[&[1], &[1], &[0]]));

    let mut c = matrix_of(&[&[1], &[1], &[1]]);
    assert!(!solve_left(a, &mut c));
    assert_eq!(c, matrix_of(&[&[1], &[1], &[1]]));
}

#[test]
fn vector_round_trips_through_a_matrix() {
    for n in 1..70 {
        let v = BinVector::random(n);
        assert_eq!(v.as_matrix().as_vector(), v);
        assert_eq!(v.as_column_matrix().as_vector(), v);
    }
}

#[test]
fn strategies_agree() {
    let sizes = [
        (1, 1, 1),
        (2, 3, 4),
        (10, 10, 10),
        (100, 10, 100),
        (63, 64, 65),
        (129, 70, 33),
        (200, 200, 200),
    ];
    for (m, n, p) in sizes {
        let a = BinMatrix::random(m, n);
        let b = BinMatrix::random(n, p);
        let naive = a.mul_with(&b, MulStrategy::Naive);
        assert_eq!(a.mul_with(&b, MulStrategy::M4rm), naive);
        assert_eq!(a.mul_with(&b, MulStrategy::Strassen), naive);
        assert_eq!(a.mul_matrix(&b), naive);
        for k in 1..9 {
            assert_eq!(mzd_mul_m4rm(&a, &b, k), naive);
        }
        for cutoff in [1, 2, 3, 8, 64] {
            assert_eq!(mzd_mul(&a, &b, cutoff), naive);
        }
    }
}

#[test]
fn strategies_agree_on_a_large_product() {
    let a = BinMatrix::random(1000, 1000);
    let b = BinMatrix::random(1000, 1000);
    let naive = a.mul_with(&b, MulStrategy::Naive);
    assert_eq!(a.mul_with(&b, MulStrategy::M4rm), naive);
    assert_eq!(a.mul_with(&b, MulStrategy::Strassen), naive);
}

#[test]
fn identity_times_all_ones_vector() {
    let a = BinMatrix::identity(10);
    let b = BinVector::from_elem(10, true);
    assert_eq!(&a * &b, b);
    assert_eq!(&b * &a, b);
}

#[test]
fn both_eliminations_give_the_same_reduced_form() {
    for (r, c) in [(1, 1), (5, 5), (10, 30), (30, 10), (70, 70), (65, 130), (200, 100)] {
        for _ in 0..3 {
            let a = BinMatrix::random(r, c);
            let mut direct = a.clone();
            let rank = mzd_echelonize_naive(&mut direct, true);
            for k in [0, 1, 2, 3, 5, 8] {
                let mut blocked = a.clone();
                assert_eq!(mzd_echelonize_m4ri(&mut blocked, true, k), rank);
                assert_eq!(blocked, direct);
                let mut upper = a.clone();
                assert_eq!(mzd_echelonize_m4ri(&mut upper, false, k), rank);
            }
            let mut upper = a.clone();
            assert_eq!(mzd_echelonize_naive(&mut upper, false), rank);
        }
    }
}

#[test]
fn elimination_of_a_matrix_of_low_rank() {
    // rank at most 3: a product through three columns
    let a = &BinMatrix::random(40, 3) * &BinMatrix::random(3, 50);
    let mut direct = a.clone();
    let rank = mzd_echelonize_naive(&mut direct, true);
    assert!(rank <= 3);
    for k in [0, 1, 4, 7] {
        let mut blocked = a.clone();
        assert_eq!(mzd_echelonize_m4ri(&mut blocked, true, k), rank);
        assert_eq!(blocked, direct);
    }
    assert_eq!(a.rank(), rank);
}

#[test]
fn inverse_with_each_table_width() {
    let a = matrix_of(&[&[1, 1, 0], &[0, 1, 1], &[0, 0, 1]]);
    for k in 0..5 {
        assert_eq!(
            mzd_inv_m4ri(&a, k),
            Some(matrix_of(&[&[1, 1, 1], &[0, 1, 1], &[0, 0, 1]]))
        );
    }
}
