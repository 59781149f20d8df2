use m4ri_rust::bits::{get_bit, tail_mask, with_bit, words_for};
use m4ri_rust::djb::{Djb, Srctyp};
use m4ri_rust::graycode::{m4ri_build_code, m4ri_gray_code, m4ri_opt_k, two_pow};
use m4ri_rust::matrix::{mzd_first_row, mzd_row, mzd_set_ui, BinMatrix};
use m4ri_rust::permutation::{
    mzd_apply_p_left, mzd_apply_p_left_trans, mzd_apply_p_right, mzd_apply_p_right_trans, Mzp,
};
use m4ri_rust::pluq::mzd_pluq;
use m4ri_rust::russian::{mzd_addmul_m4rm, mzd_make_table, read_bits};
use m4ri_rust::multiply::mzd_addmul_naive;
use m4ri_rust::transpose::{mzd_transpose, transpose_block};

fn matrix_of(rows: &[&[u8]]) -> BinMatrix {
    let packed: Vec<Vec<u64>> = rows
        .iter()
        .map(|row| {
            let mut words = vec![0u64; (row.len() + 63) / 64];
            for (j, bit) in row.iter().enumerate() {
                if *bit == 1 {
                    words[j / 64] |= 1u64 << (j % 64);
                }
            }
            words
        })
        .collect();
    BinMatrix::from_slices(&packed, rows[0].len())
}

#[test]
fn words_and_masks() {
    assert_eq!(words_for(1), 1);
    assert_eq!(words_for(64), 1);
    assert_eq!(words_for(65), 2);
    assert_eq!(words_for(128), 2);
    assert_eq!(tail_mask(64), u64::MAX);
    assert_eq!(tail_mask(1), 1);
    assert_eq!(tail_mask(10), 0x3ff);
    assert_eq!(tail_mask(127), u64::MAX >> 1);
    assert!(get_bit(0b100, 2));
    assert!(!get_bit(0b100, 1));
    assert_eq!(with_bit(0, 63, true), 1u64 << 63);
    assert_eq!(with_bit(0b111, 1, false), 0b101);
    assert_eq!(with_bit(0b101, 0, true), 0b101);
}

#[test]
fn from_slices_reads_the_lowest_bit_first_and_cuts_the_tail() {
    let m = BinMatrix::from_slices(&[vec![0b101u64], vec![u64::MAX]], 3);
    assert_eq!(m.nrows(), 2);
    assert_eq!(m.ncols(), 3);
    assert_eq!(m, matrix_of(&[&[1, 0, 1], &[1, 1, 1]]));
    assert_eq!(mzd_row(&m, 1), &vec![0b111u64]);
    assert_eq!(mzd_first_row(&m), &vec![0b101u64]);

    let wide = BinMatrix::from_slices(&[vec![1u64 << 63, 0b11, 99]], 65);
    assert_eq!(wide.ncols(), 65);
    assert!(wide.bit(0, 63));
    assert!(wide.bit(0, 64));
    assert!(!wide.bit(0, 0));
    assert_eq!(mzd_row(&wide, 0), &vec![1u64 << 63, 1]);
}

#[test]
fn set_ui_makes_identity_or_zero() {
    let mut m = BinMatrix::random(5, 7);
    mzd_set_ui(&mut m, 1);
    for i in 0..5 {
        for j in 0..7 {
            assert_eq!(m.bit(i, j), i == j);
        }
    }
    mzd_set_ui(&mut m, 2);
    assert_eq!(m, BinMatrix::zero(5, 7));
    mzd_set_ui(&mut m, 3);
    assert!(m.bit(4, 4));
}

#[test]
fn row_operations() {
    let mut m = matrix_of(&[&[1, 0, 1, 1], &[0, 1, 1, 0], &[1, 1, 1, 1]]);
    m.add_row(0, 1);
    assert_eq!(m, matrix_of(&[&[1, 1, 0, 1], &[0, 1, 1, 0], &[1, 1, 1, 1]]));
    m.swap_rows(0, 2);
    assert_eq!(m, matrix_of(&[&[1, 1, 1, 1], &[0, 1, 1, 0], &[1, 1, 0, 1]]));
    m.swap_rows(1, 1);
    assert_eq!(m, matrix_of(&[&[1, 1, 1, 1], &[0, 1, 1, 0], &[1, 1, 0, 1]]));
    m.swap_cols(0, 2);
    assert_eq!(m, matrix_of(&[&[1, 1, 1, 1], &[1, 1, 0, 0], &[0, 1, 1, 1]]));
    m.add_row_from(1, 0, 2);
    assert_eq!(m, matrix_of(&[&[1, 1, 1, 1], &[1, 1, 1, 1], &[0, 1, 1, 1]]));
    m.add_row_from(1, 2, 4);
    assert_eq!(m, matrix_of(&[&[1, 1, 1, 1], &[1, 1, 1, 1], &[0, 1, 1, 1]]));
    m.copy_row(2, 0);
    assert_eq!(m, matrix_of(&[&[1, 1, 1, 1], &[1, 1, 1, 1], &[1, 1, 1, 1]]));
    m.clear_row(1);
    assert_eq!(m, matrix_of(&[&[1, 1, 1, 1], &[0, 0, 0, 0], &[1, 1, 1, 1]]));
    let other = matrix_of(&[&[1, 0, 0, 1]]);
    m.row_xor_from(1, &other, 0);
    assert_eq!(m, matrix_of(&[&[1, 1, 1, 1], &[1, 0, 0, 1], &[1, 1, 1, 1]]));
}

#[test]
fn row_addition_from_a_column_on_wide_rows() {
    for col0 in [0, 1, 63, 64, 65, 100, 128, 129, 130] {
        let a = BinMatrix::random(2, 130);
        let mut b = a.clone();
        b.add_row_from(0, 1, col0);
        for j in 0..130 {
            let expected = if j >= col0 { a.bit(0, j) != a.bit(1, j) } else { a.bit(0, j) };
            assert_eq!(b.bit(0, j), expected);
            assert_eq!(b.bit(1, j), a.bit(1, j));
        }
    }
}

#[test]
fn windows() {
    let m = matrix_of(&[&[1, 0, 1, 1], &[0, 1, 1, 0], &[1, 1, 0, 1]]);
    assert_eq!(m.get_window(1, 1, 3, 4), matrix_of(&[&[1, 1, 0], &[1, 0, 1]]));
    assert_eq!(m.get_window(0, 0, 3, 4), m);
    assert_eq!(m.get_window(2, 3, 3, 4), matrix_of(&[&[1]]));

    let mut target = BinMatrix::zero(3, 4);
    target.set_window(1, 2, &matrix_of(&[&[1, 1], &[0, 1]]));
    assert_eq!(target, matrix_of(&[&[0, 0, 0, 0], &[0, 0, 1, 1], &[0, 0, 0, 1]]));
}

#[test]
fn augmented_and_stacked() {
    let a = matrix_of(&[&[1, 0], &[0, 1]]);
    let b = matrix_of(&[&[1, 1, 1], &[0, 0, 1]]);
    assert_eq!(a.augmented(&b), matrix_of(&[&[1, 0, 1, 1, 1], &[0, 1, 0, 0, 1]]));
    let c = matrix_of(&[&[1, 1]]);
    assert_eq!(a.stacked(&c), matrix_of(&[&[1, 0], &[0, 1], &[1, 1]]));

    let wide = BinMatrix::random(3, 70);
    let more = BinMatrix::random(3, 60);
    let joined = wide.augmented(&more);
    assert_eq!(joined.ncols(), 130);
    assert_eq!(joined.get_window(0, 0, 3, 70), wide);
    assert_eq!(joined.get_window(0, 70, 3, 130), more);
}

#[test]
fn equality_is_bit_for_bit() {
    let a = matrix_of(&[&[1, 0], &[0, 1]]);
    assert!(a == BinMatrix::identity(2));
    assert!(a != matrix_of(&[&[1, 0], &[0, 0]]));
    assert!(a != matrix_of(&[&[1, 0, 0], &[0, 1, 0]]));
    assert!(matrix_of(&[&[1, 0]]) != matrix_of(&[&[1], &[0]]));
    assert_eq!(a.clone(), a);
}

#[test]
fn mul_slice_multiplies_by_a_packed_column() {
    let a = matrix_of(&[&[1, 0, 1], &[0, 1, 1], &[1, 1, 1]]);
    // the column vector (1, 1, 0), with bits beyond the third that play no part
    let product = a.mul_slice(&[0b11011]);
    assert_eq!(product, matrix_of(&[&[1], &[1], &[0]]));
}

#[test]
fn count_ones_of_a_row_and_of_a_column() {
    let row = matrix_of(&[&[1, 0, 1, 1, 0]]);
    assert_eq!(row.count_ones(), 3);
    assert_eq!(row.transposed().count_ones(), 3);
    assert_eq!(BinMatrix::zero(1, 100).count_ones(), 0);
    assert_eq!(matrix_of(&[&[1]]).count_ones(), 1);
}

#[test]
fn gray_code_table() {
    assert_eq!(two_pow(0), 1);
    assert_eq!(two_pow(16), 65536);
    let expected = [0, 1, 3, 2, 6, 7, 5, 4];
    for (i, v) in expected.iter().enumerate() {
        assert_eq!(m4ri_gray_code(i, 3), *v);
    }
    let code = m4ri_build_code(3);
    assert_eq!(code.k(), 3);
    assert_eq!(code.len(), 8);
    for (i, v) in expected.iter().enumerate() {
        assert_eq!(code.ord(i), *v);
    }
    let increments = [0, 0, 1, 0, 2, 0, 1, 0];
    for (i, p) in increments.iter().enumerate() {
        assert_eq!(code.inc(i), *p);
    }
}

#[test]
fn gray_code_enumerates_every_pattern_once() {
    for k in 1..11 {
        let code = m4ri_build_code(k);
        let n = 1usize << k;
        assert_eq!(code.len(), n);
        let mut seen = vec![false; n];
        for i in 0..n {
            let v = code.ord(i);
            assert!(v < n);
            assert!(!seen[v]);
            seen[v] = true;
            if i > 0 {
                assert!(code.inc(i) < k);
                assert_eq!(code.ord(i) ^ code.ord(i - 1), 1 << code.inc(i));
            }
        }
        assert_eq!(code.ord(0), 0);
    }
}

#[test]
fn table_width_follows_the_smaller_dimension() {
    assert_eq!(m4ri_opt_k(0, 0, 0), 1);
    assert_eq!(m4ri_opt_k(1, 1, 0), 1);
    assert_eq!(m4ri_opt_k(2, 100, 0), 1);
    assert_eq!(m4ri_opt_k(100, 4, 0), 2);
    assert_eq!(m4ri_opt_k(1000, 1000, 1000), 7);
    assert_eq!(m4ri_opt_k(1 << 20, 1 << 20, 0), 15);
    assert_eq!(m4ri_opt_k(usize::MAX, usize::MAX, 0), 16);
}

#[test]
fn table_of_row_sums() {
    let b = matrix_of(&[&[1, 0, 0, 1], &[0, 1, 0, 1], &[0, 0, 1, 1], &[1, 1, 1, 1]]);
    let code = m4ri_build_code(2);
    let table = mzd_make_table(&b, 1, 2, &code);
    assert_eq!(
        table,
        matrix_of(&[&[0, 0, 0, 0], &[0, 1, 0, 1], &[0, 0, 1, 1], &[0, 1, 1, 0]])
    );
    let a = matrix_of(&[&[1, 0, 1, 1, 0, 1]]);
    assert_eq!(read_bits(&a, 0, 0, 3), 0b101);
    assert_eq!(read_bits(&a, 0, 2, 4), 0b1011);
    assert_eq!(read_bits(&a, 0, 4, 1), 0);
}

#[test]
fn addmul_adds_the_product() {
    let a = matrix_of(&[&[1, 0, 1], &[0, 1, 1]]);
    let b = matrix_of(&[&[1, 1], &[0, 1], &[1, 0]]);
    let mut c = matrix_of(&[&[1, 1], &[1, 0]]);
    mzd_addmul_naive(&mut c, &a, &b);
    assert_eq!(c, matrix_of(&[&[1, 0], &[0, 1]]));
    let mut d = matrix_of(&[&[1, 1], &[1, 0]]);
    mzd_addmul_m4rm(&mut d, &a, &b, 2);
    assert_eq!(d, matrix_of(&[&[1, 0], &[0, 1]]));
}

#[test]
fn permutations() {
    let mut p = Mzp::new(4);
    assert_eq!(p.len(), 4);
    for i in 0..4 {
        assert_eq!(p.get(i), i);
    }
    p.swap(0, 2);
    p.swap(2, 3);
    // the images are now 2, 1, 3, 0
    assert_eq!((p.get(0), p.get(1), p.get(2), p.get(3)), (2, 1, 3, 0));
    let copy = p.clone();
    assert_eq!(copy.get(2), 3);

    let original = matrix_of(&[&[1, 0, 0, 0], &[0, 1, 0, 1], &[0, 0, 1, 1], &[1, 1, 1, 1]]);
    let mut a = original.clone();
    mzd_apply_p_left(&mut a, &p);
    assert_eq!(
        a,
        matrix_of(&[&[0, 0, 1, 1], &[0, 1, 0, 1], &[1, 1, 1, 1], &[1, 0, 0, 0]])
    );
    mzd_apply_p_left_trans(&mut a, &p);
    assert_eq!(a, original);

    mzd_apply_p_right(&mut a, &p);
    assert_eq!(
        a,
        matrix_of(&[&[0, 0, 0, 1], &[0, 1, 1, 0], &[1, 0, 1, 0], &[1, 1, 1, 1]])
    );
    mzd_apply_p_right_trans(&mut a, &p);
    assert_eq!(a, original);

    p.set_identity();
    for i in 0..4 {
        assert_eq!(p.get(i), i);
    }
}

#[test]
fn djb_runs_the_last_operation_first() {
    let mut z = Djb::new(2, 3);
    z.push_back(0, 1, Srctyp::SourceTarget);
    z.push_back(1, 2, Srctyp::SourceSource);
    z.push_back(0, 0, Srctyp::SourceSource);
    assert_eq!(z.len(), 3);
    let v = matrix_of(&[&[1, 0, 0], &[0, 1, 0], &[0, 0, 1]]);
    let mut w = BinMatrix::zero(2, 3);
    z.apply_mzd(&mut w, &v);
    // w[0] ^= v[0]; w[1] ^= v[2]; w[0] ^= w[1]
    assert_eq!(w, matrix_of(&[&[1, 0, 1], &[0, 0, 1]]));

    let mut clear = Djb::new(2, 3);
    clear.push_back(1, 1, Srctyp::SourceTarget);
    clear.apply_mzd(&mut w, &v);
    assert_eq!(w, matrix_of(&[&[1, 0, 1], &[0, 0, 0]]));
}

fn check_pluq(original: &BinMatrix) -> usize {
    let rows = original.nrows();
    let cols = original.ncols();
    let mut a = original.clone();
    let mut p = Mzp::new(rows);
    let mut q = Mzp::new(cols);
    let r = mzd_pluq(&mut a, &mut p, &mut q, 0);
    assert!(r <= rows && r <= cols);
    for i in r..rows {
        for j in r..cols {
            assert!(!a.bit(i, j));
        }
    }
    for i in 0..rows {
        for j in 0..cols {
            let mut sum = false;
            for k in 0..r {
                let l = i == k || (k < i && a.bit(i, k));
                let u = k <= j && a.bit(k, j);
                sum ^= l && u;
            }
            assert_eq!(original.bit(p.get(i), q.get(j)), sum);
        }
    }
    r
}

#[test]
fn pluq_of_given_matrices() {
    assert_eq!(check_pluq(&BinMatrix::identity(5)), 5);
    assert_eq!(check_pluq(&BinMatrix::zero(3, 4)), 0);
    assert_eq!(check_pluq(&matrix_of(&[&[0, 0, 1], &[0, 0, 1], &[0, 0, 0]])), 1);
    assert_eq!(check_pluq(&matrix_of(&[&[1, 0, 1], &[0, 1, 1], &[1, 1, 0]])), 2);
}

#[test]
fn pluq_gives_the_rank() {
    for (rows, cols) in [(1, 1), (5, 5), (10, 30), (30, 10), (70, 70), (65, 130)] {
        for _ in 0..5 {
            let a = BinMatrix::random(rows, cols);
            assert_eq!(check_pluq(&a), a.rank());
        }
    }
}

#[test]
fn block_of_64_rows_transposed() {
    let mut block = vec![0u64; 64];
    block[0] = 1 << 63;
    block[3] = 0b101;
    block[63] = 1;
    let t = transpose_block(&block);
    let mut expected = vec![0u64; 64];
    expected[63] = 1;
    expected[0] = (1 << 3) | (1 << 63);
    expected[2] = 1 << 3;
    assert_eq!(t, expected);
    assert_eq!(transpose_block(&t), block);

    let full: Vec<u64> = (0..64).map(|r| 0x9e37_79b9_7f4a_7c15u64.rotate_left(r)).collect();
    let turned = transpose_block(&full);
    for r in 0..64 {
        for c in 0..64 {
            assert_eq!((turned[r] >> c) & 1, (full[c] >> r) & 1);
        }
    }
}

#[test]
fn transpose_by_blocks_of_every_shape() {
    for (rows, cols) in [(1, 1), (1, 64), (64, 1), (63, 65), (64, 64), (65, 63), (128, 200), (3, 300)] {
        let a = BinMatrix::random(rows, cols);
        let t = mzd_transpose(&a);
        assert_eq!(t.nrows(), cols);
        assert_eq!(t.ncols(), rows);
        for i in 0..rows {
            for j in 0..cols {
                assert_eq!(t.bit(j, i), a.bit(i, j));
            }
        }
        assert_eq!(mzd_transpose(&t), a);
        assert_eq!(a.transposed(), t);
    }
}
