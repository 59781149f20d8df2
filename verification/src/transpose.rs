//! Transposition by blocks of 64 x 64 bits: a block is transposed in six
//! rounds, each of which exchanges, between rows and columns, one bit of
//! the position of every entry.
use crate::bits::{
    lemma_bit_zero, lemma_tail_mask_bits, lemma_words_equal, row_wf, spec_tail_mask,
    spec_words_for, word_bit, words_for,
};
use crate::gf2::{is_matrix, lemma_is_matrix_ext, transpose};
use crate::matrix::{zero_words, BinMatrix};
use vstd::prelude::*;

verus! {

/// The bits at the positions whose binary digit `j` is zero, for `j` a
/// power of two below 64.
pub open spec fn level_mask(j: u64) -> u64 {
    if j == 32 {
        0x0000_0000_ffff_ffffu64
    } else if j == 16 {
        0x0000_ffff_0000_ffffu64
    } else if j == 8 {
        0x00ff_00ff_00ff_00ffu64
    } else if j == 4 {
        0x0f0f_0f0f_0f0f_0f0fu64
    } else if j == 2 {
        0x3333_3333_3333_3333u64
    } else {
        0x5555_5555_5555_5555u64
    }
}

/// Whether `j` is one of the six digits of a position in a block.
pub open spec fn is_level(j: u64) -> bool {
    j == 32 || j == 16 || j == 8 || j == 4 || j == 2 || j == 1
}

/// Row `r` of a block after the round for digit `j`, from the row `x` as it
/// was and the row `y` whose number differs from `r` in digit `j`.
pub open spec fn mixed(x: u64, y: u64, r: u64, j: u64) -> u64 {
    if r & j == 0 {
        (x & level_mask(j)) | ((y & level_mask(j)) << j)
    } else {
        (x & !level_mask(j)) | ((y >> j) & level_mask(j))
    }
}

/// The row and the column exchange digit `j` of their numbers: the entry at
/// `(r, c)` comes from `(r ^ d, c ^ d)`, where `d` is `j` if the numbers
/// differ in that digit and zero if they do not.
proof fn lemma_mixed_bit(x: u64, y: u64, r: u64, c: u64, j: u64)
    requires
        is_level(j),
        r < 64,
        c < 64,
    ensures
        ((mixed(x, y, r, j) >> c) & 1 == 1) == (if (r ^ c) & j != 0 {
            (y >> (c ^ j)) & 1 == 1
        } else {
            (x >> c) & 1 == 1
        }),
        c ^ j < 64,
{
    if j == 32 {
        assert(((mixed(x, y, r, 32) >> c) & 1 == 1) == (if (r ^ c) & 32 != 0 {
            (y >> (c ^ 32)) & 1 == 1
        } else {
            (x >> c) & 1 == 1
        }) && c ^ 32 < 64) by (bit_vector)
            requires
                r < 64,
                c < 64,
        ;
    } else if j == 16 {
        assert(((mixed(x, y, r, 16) >> c) & 1 == 1) == (if (r ^ c) & 16 != 0 {
            (y >> (c ^ 16)) & 1 == 1
        } else {
            (x >> c) & 1 == 1
        }) && c ^ 16 < 64) by (bit_vector)
            requires
                r < 64,
                c < 64,
        ;
    } else if j == 8 {
        assert(((mixed(x, y, r, 8) >> c) & 1 == 1) == (if (r ^ c) & 8 != 0 {
            (y >> (c ^ 8)) & 1 == 1
        } else {
            (x >> c) & 1 == 1
        }) && c ^ 8 < 64) by (bit_vector)
            requires
                r < 64,
                c < 64,
        ;
    } else if j == 4 {
        assert(((mixed(x, y, r, 4) >> c) & 1 == 1) == (if (r ^ c) & 4 != 0 {
            (y >> (c ^ 4)) & 1 == 1
        } else {
            (x >> c) & 1 == 1
        }) && c ^ 4 < 64) by (bit_vector)
            requires
                r < 64,
                c < 64,
        ;
    } else if j == 2 {
        assert(((mixed(x, y, r, 2) >> c) & 1 == 1) == (if (r ^ c) & 2 != 0 {
            (y >> (c ^ 2)) & 1 == 1
        } else {
            (x >> c) & 1 == 1
        }) && c ^ 2 < 64) by (bit_vector)
            requires
                r < 64,
                c < 64,
        ;
    } else {
        assert(((mixed(x, y, r, 1) >> c) & 1 == 1) == (if (r ^ c) & 1 != 0 {
            (y >> (c ^ 1)) & 1 == 1
        } else {
            (x >> c) & 1 == 1
        }) && c ^ 1 < 64) by (bit_vector)
            requires
                r < 64,
                c < 64,
        ;
    }
}

/// Where the entry at `(r, c)` of a block comes from once the digits in
/// `done` have been exchanged: its row.
pub open spec fn source_row(r: u64, c: u64, done: u64) -> u64 {
    r ^ ((r ^ c) & done)
}

/// Where the entry at `(r, c)` of a block comes from once the digits in
/// `done` have been exchanged: its column.
pub open spec fn source_col(r: u64, c: u64, done: u64) -> u64 {
    c ^ ((r ^ c) & done)
}

/// Whether `cur` is the block `orig` with the digits in `done` exchanged
/// between the row and the column of every entry.
pub open spec fn exchanged(orig: Seq<u64>, cur: Seq<u64>, done: u64) -> bool {
    &&& cur.len() == 64
    &&& forall|r: u64, c: u64|
        r < 64 && c < 64 ==> #[trigger] word_bit(cur[r as int], c as int) == word_bit(
            orig[source_row(r, c, done) as int],
            source_col(r, c, done) as int,
        )
}

/// Exchanging one digit more.
proof fn lemma_exchange_more(r: u64, c: u64, done: u64, j: u64)
    requires
        r < 64,
        c < 64,
        done < 64,
        is_level(j),
        done & j == 0,
    ensures
        source_row(r, c, done) < 64,
        source_col(r, c, done) < 64,
        (r ^ c) & j != 0 ==> source_row((r ^ j) as u64, (c ^ j) as u64, done) == source_row(
            r,
            c,
            (done | j) as u64,
        ) && source_col((r ^ j) as u64, (c ^ j) as u64, done) == source_col(
            r,
            c,
            (done | j) as u64,
        ) && r ^ j < 64 && c ^ j < 64,
        (r ^ c) & j == 0 ==> source_row(r, c, done) == source_row(r, c, (done | j) as u64)
            && source_col(r, c, done) == source_col(r, c, (done | j) as u64),
{
    assert(r ^ ((r ^ c) & done) < 64 && c ^ ((r ^ c) & done) < 64) by (bit_vector)
        requires
            r < 64,
            c < 64,
            done < 64,
    ;
    assert((r ^ c) & j != 0 ==> (r ^ j) ^ (((r ^ j) ^ (c ^ j)) & done) == r ^ ((r ^ c) & (done
        | j)) && (c ^ j) ^ (((r ^ j) ^ (c ^ j)) & done) == c ^ ((r ^ c) & (done | j)) && r ^ j
        < 64 && c ^ j < 64) by (bit_vector)
        requires
            r < 64,
            c < 64,
            done < 64,
            j == 32 || j == 16 || j == 8 || j == 4 || j == 2 || j == 1,
            done & j == 0,
    ;
    assert((r ^ c) & j == 0 ==> r ^ ((r ^ c) & done) == r ^ ((r ^ c) & (done | j)) && c ^ ((r
        ^ c) & done) == c ^ ((r ^ c) & (done | j))) by (bit_vector)
        requires
            j == 32 || j == 16 || j == 8 || j == 4 || j == 2 || j == 1,
    ;
}

/// One round: exchanges digit `j` between the row and the column of every
/// entry of the block `a`.
fn exchange_level(a: &Vec<u64>, j: usize, mask: u64, Ghost(orig): Ghost<Seq<u64>>, Ghost(done): Ghost<
    u64,
>) -> (b: Vec<u64>)
    requires
        a@.len() == 64,
        orig.len() == 64,
        is_level(j as u64),
        mask == level_mask(j as u64),
        done < 64,
        done & (j as u64) == 0,
        exchanged(orig, a@, done),
    ensures
        exchanged(orig, b@, (done | (j as u64)) as u64),
{
    let mut b: Vec<u64> = Vec::new();
    let mut r: usize = 0;
    let jj: u64 = j as u64;
    while r < 64
        invariant
            r <= 64,
            a@.len() == 64,
            b@.len() == r,
            jj == j,
            is_level(jj),
            mask == level_mask(jj),
            forall|k: int| 0 <= k < r ==> #[trigger] b@[k] == mixed(
                a@[k],
                a@[((k as u64) ^ jj) as int],
                k as u64,
                jj,
            ),
        decreases 64 - r,
    {
        let rr: u64 = r as u64;
        assert((rr ^ jj) < 64) by (bit_vector)
            requires
                rr < 64,
                jj == 32 || jj == 16 || jj == 8 || jj == 4 || jj == 2 || jj == 1,
        ;
        let x = a[r];
        let y = a[(rr ^ jj) as usize];
        let w = if rr & jj == 0 {
            (x & mask) | ((y & mask) << jj)
        } else {
            (x & !mask) | ((y >> jj) & mask)
        };
        b.push(w);
        r += 1;
    }
    proof {
        assert forall|r: u64, c: u64| r < 64 && c < 64 implies #[trigger] word_bit(
            b@[r as int],
            c as int,
        ) == word_bit(
            orig[source_row(r, c, (done | jj) as u64) as int],
            source_col(r, c, (done | jj) as u64) as int,
        ) by {
            let partner = (r ^ jj) as u64;
            lemma_mixed_bit(a@[r as int], a@[partner as int], r, c, jj);
            lemma_exchange_more(r, c, done, jj);
            assert(b@[r as int] == mixed(a@[r as int], a@[partner as int], r, jj));
            if (r ^ c) & jj != 0 {
                let c2 = (c ^ jj) as u64;
                assert(word_bit(a@[partner as int], c2 as int) == word_bit(
                    orig[source_row(partner, c2, done) as int],
                    source_col(partner, c2, done) as int,
                ));
            } else {
                assert(word_bit(a@[r as int], c as int) == word_bit(
                    orig[source_row(r, c, done) as int],
                    source_col(r, c, done) as int,
                ));
            }
        }
    }
    b
}

/// The transpose of a block of 64 rows of 64 bits: bit `c` of row `r` of
/// the result is bit `r` of row `c` of `a`.
pub fn transpose_block(a: &Vec<u64>) -> (b: Vec<u64>)
    requires
        a@.len() == 64,
    ensures
        b@.len() == 64,
        forall|r: int, c: int|
            0 <= r < 64 && 0 <= c < 64 ==> #[trigger] word_bit(b@[r], c) == word_bit(a@[c], r),
{
    let ghost orig = a@;
    proof {
        assert forall|r: u64, c: u64| r < 64 && c < 64 implies source_row(r, c, 0) == r
            && source_col(r, c, 0) == c by {
            assert(r ^ ((r ^ c) & 0) == r && c ^ ((r ^ c) & 0) == c) by (bit_vector);
        }
        assert(32u64 | 16 == 48 && 48u64 | 8 == 56 && 56u64 | 4 == 60 && 60u64 | 2 == 62 && 62u64
            | 1 == 63 && 0u64 | 32 == 32 && 0u64 & 32 == 0 && 32u64 & 16 == 0 && 48u64 & 8 == 0
            && 56u64 & 4 == 0 && 60u64 & 2 == 0 && 62u64 & 1 == 0) by (bit_vector);
    }
    let b32 = exchange_level(a, 32, 0x0000_0000_ffff_ffffu64, Ghost(orig), Ghost(0));
    let b16 = exchange_level(&b32, 16, 0x0000_ffff_0000_ffffu64, Ghost(orig), Ghost(32));
    let b8 = exchange_level(&b16, 8, 0x00ff_00ff_00ff_00ffu64, Ghost(orig), Ghost(48));
    let b4 = exchange_level(&b8, 4, 0x0f0f_0f0f_0f0f_0f0fu64, Ghost(orig), Ghost(56));
    let b2 = exchange_level(&b4, 2, 0x3333_3333_3333_3333u64, Ghost(orig), Ghost(60));
    let b = exchange_level(&b2, 1, 0x5555_5555_5555_5555u64, Ghost(orig), Ghost(62));
    proof {
        assert forall|r: int, c: int| 0 <= r < 64 && 0 <= c < 64 implies #[trigger] word_bit(
            b@[r],
            c,
        ) == word_bit(a@[c], r) by {
            let ru = r as u64;
            let cu = c as u64;
            assert(ru ^ ((ru ^ cu) & 63) == cu && cu ^ ((ru ^ cu) & 63) == ru) by (bit_vector)
                requires
                    ru < 64,
                    cu < 64,
            ;
            assert(word_bit(b@[ru as int], cu as int) == word_bit(
                orig[source_row(ru, cu, 63) as int],
                source_col(ru, cu, 63) as int,
            ));
        }
    }
    b
}

/// Whether `word` holds, in word `w` of row `j` of the transpose of `src`,
/// what belongs there: bit `c` is entry `(64 w + c, j)` of `src`, and zero
/// beyond the last row of `src`.
pub open spec fn word_ok(word: u64, src: Seq<Seq<bool>>, j: int, w: int) -> bool {
    forall|c: int|
        0 <= c < 64 ==> #[trigger] word_bit(word, c) == (64 * w + c < src.len() && src[64 * w
            + c][j])
}

/// The 64 rows of `m` from row `64 * br` on, each cut to word `bc`; rows
/// beyond the last are zero.
fn load_block(m: &BinMatrix, br: usize, bc: usize) -> (a: Vec<u64>)
    requires
        m.wf(),
        64 * br < m.spec_nrows(),
        64 * bc < m.spec_ncols(),
    ensures
        a@.len() == 64,
        forall|k: int, c: int|
            0 <= k < 64 && 0 <= c < 64 ==> #[trigger] word_bit(a@[k], c) == (64 * br + k
                < m.spec_nrows() && 64 * bc + c < m.spec_ncols() && m@[64 * br + k][64 * bc + c]),
{
    let mut a: Vec<u64> = Vec::new();
    let left: usize = m.nrows - 64 * br;
    let mut k: usize = 0;
    while k < 64
        invariant
            k <= 64,
            m.wf(),
            64 * br < m.nrows,
            64 * bc < m.ncols,
            left == m.nrows - 64 * br,
            a@.len() == k,
            forall|x: int, c: int|
                0 <= x < k && 0 <= c < 64 ==> #[trigger] word_bit(a@[x], c) == (64 * br + x
                    < m.nrows && 64 * bc + c < m.ncols && m@[64 * br + x][64 * bc + c]),
        decreases 64 - k,
    {
        if k < left {
            let row = 64 * br + k;
            let word = m.rows[row][bc];
            proof {
                let words = m.rows[row as int]@;
                assert(row_wf(words, m.ncols as nat));
                assert forall|c: int| 0 <= c < 64 implies #[trigger] word_bit(word, c) == (64 * bc
                    + c < m.ncols && m@[row as int][64 * bc + c]) by {
                    if 64 * bc + c < m.ncols {
                        assert((64 * bc + c) / 64 == bc as int && (64 * bc + c) % 64 == c);
                    } else {
                        assert(bc == words.len() - 1);
                        lemma_tail_mask_bits(word, m.ncols as nat, c);
                    }
                }
            }
            a.push(word);
        } else {
            proof {
                assert forall|c: int| 0 <= c < 64 implies !#[trigger] word_bit(0, c) by {
                    lemma_bit_zero(c);
                }
            }
            a.push(0);
        }
        k += 1;
    }
    a
}

/// The transpose of `m`, block by block.
pub fn mzd_transpose(m: &BinMatrix) -> (t: BinMatrix)
    requires
        m.wf(),
    ensures
        t.wf(),
        t.spec_nrows() == m.spec_ncols(),
        t.spec_ncols() == m.spec_nrows(),
        t@ == transpose(m@),
{
    let tw = words_for(m.nrows);
    let sw = words_for(m.ncols);
    let mut data: Vec<Vec<u64>> = Vec::new();
    while data.len() < m.ncols
        invariant
            data@.len() <= m.ncols,
            forall|j: int| 0 <= j < data@.len() ==> (#[trigger] data@[j])@.len() == tw,
        decreases m.ncols - data@.len(),
    {
        data.push(zero_words(tw));
    }
    let mut br: usize = 0;
    while br < tw
        invariant
            br <= tw,
            m.wf(),
            tw == spec_words_for(m.nrows as nat),
            sw == spec_words_for(m.ncols as nat),
            (tw - 1) * 64 < m.nrows,
            (sw - 1) * 64 < m.ncols,
            data@.len() == m.ncols,
            forall|j: int| 0 <= j < m.ncols ==> (#[trigger] data@[j])@.len() == tw,
            forall|j: int, w: int|
                0 <= j < m.ncols && 0 <= w < br ==> word_ok(#[trigger] data@[j]@[w], m@, j, w),
        decreases tw - br,
    {
        let mut bc: usize = 0;
        while bc < sw
            invariant
                bc <= sw,
                br < tw,
                m.wf(),
                tw == spec_words_for(m.nrows as nat),
                sw == spec_words_for(m.ncols as nat),
                (tw - 1) * 64 < m.nrows,
                (sw - 1) * 64 < m.ncols,
                data@.len() == m.ncols,
                forall|j: int| 0 <= j < m.ncols ==> (#[trigger] data@[j])@.len() == tw,
                forall|j: int, w: int|
                    0 <= j < m.ncols && 0 <= w < br ==> word_ok(
                        #[trigger] data@[j]@[w],
                        m@,
                        j,
                        w,
                    ),
                forall|j: int|
                    0 <= j < m.ncols && j < 64 * bc ==> word_ok(
                        #[trigger] data@[j]@[br as int],
                        m@,
                        j,
                        br as int,
                    ),
            decreases sw - bc,
        {
            let a = load_block(m, br, bc);
            let b = transpose_block(&a);
            let left: usize = m.ncols - 64 * bc;
            let mut k: usize = 0;
            while k < 64 && k < left
                invariant
                    k <= 64,
                    k <= left,
                    left == m.ncols - 64 * bc,
                    br < tw,
                    bc < sw,
                    m.wf(),
                    64 * bc < m.ncols,
                    b@.len() == 64,
                    data@.len() == m.ncols,
                    forall|j: int| 0 <= j < m.ncols ==> (#[trigger] data@[j])@.len() == tw,
                    forall|j: int, w: int|
                        0 <= j < m.ncols && 0 <= w < br ==> word_ok(
                            #[trigger] data@[j]@[w],
                            m@,
                            j,
                            w,
                        ),
                    forall|j: int|
                        0 <= j < m.ncols && j < 64 * bc + k ==> word_ok(
                            #[trigger] data@[j]@[br as int],
                            m@,
                            j,
                            br as int,
                        ),
                    forall|x: int, c: int|
                        0 <= x < 64 && 0 <= c < 64 ==> #[trigger] word_bit(b@[x], c) == (64 * br
                            + c < m.nrows && 64 * bc + x < m.ncols && m@[64 * br + c][64 * bc
                            + x]),
                decreases 64 - k,
            {
                let j = 64 * bc + k;
                let word = b[k];
                proof {
                    assert forall|c: int| 0 <= c < 64 implies #[trigger] word_bit(word, c) == (64
                        * br + c < m@.len() && m@[64 * br + c][j as int]) by {
                        assert(word_bit(b@[k as int], c) == (64 * br + c < m.nrows && 64 * bc + k
                            < m.ncols && m@[64 * br + c][64 * bc + k]));
                    }
                }
                data[j][br] = word;
                k += 1;
            }
            bc += 1;
        }
        br += 1;
    }
    let t = BinMatrix { nrows: m.ncols, ncols: m.nrows, rows: data };
    proof {
        let rows = m.nrows as nat;
        let mask = spec_tail_mask(rows);
        assert forall|j: int| 0 <= j < t.nrows implies row_wf((#[trigger] t.rows[j])@, rows) by {
            let last = tw - 1;
            let word = t.rows[j]@[last];
            assert(word_ok(word, m@, j, last));
            assert forall|c: int| 0 <= c < 64 implies word_bit(word & mask, c) == word_bit(
                word,
                c,
            ) by {
                lemma_tail_mask_bits(word, rows, c);
            }
            lemma_words_equal(word & mask, word);
        }
        assert forall|j: int, i: int| 0 <= j < m.ncols && 0 <= i < m.nrows implies t@[j][i]
            == m@[i][j] by {
            assert(word_ok(t.rows[j]@[i / 64], m@, j, i / 64));
            assert(word_bit(t.rows[j]@[i / 64], i % 64) == (64 * (i / 64) + i % 64 < m@.len()
                && m@[64 * (i / 64) + i % 64][j]));
        }
        assert(is_matrix(t@, m.ncols as nat, m.nrows as nat));
        assert(is_matrix(transpose(m@), m.ncols as nat, m.nrows as nat));
        lemma_is_matrix_ext(t@, transpose(m@), m.ncols as nat, m.nrows as nat);
    }
    t
}

} // verus!
