//! Vectors and matrices of random bits, drawn from the thread's generator of
//! the `rand` crate.
use crate::bits::words_for;
use crate::matrix::BinMatrix;
use crate::vector::BinVector;
use vstd::prelude::*;

verus! {

/// `rand::rngs::ThreadRng`, the generator of a thread; nothing is known of
/// what it holds.
#[verifier::external_type_specification]
#[verifier::external_body]
pub struct ExThreadRng(rand::rngs::ThreadRng);

/// `rand::thread_rng`: the generator of the current thread. Nothing is
/// claimed of it.
#[verifier::external_body]
fn thread_rng() -> rand::rngs::ThreadRng {
    rand::thread_rng()
}

/// `Rng::gen` for `bool`: the next random bit. Nothing is claimed of it.
#[verifier::external_body]
fn random_bit(rng: &mut rand::rngs::ThreadRng) -> bool {
    rand::Rng::gen(rng)
}

/// `Rng::gen` for `u64`: the next 64 random bits. Nothing is claimed of them.
#[verifier::external_body]
fn random_word(rng: &mut rand::rngs::ThreadRng) -> u64 {
    rand::Rng::gen(rng)
}

impl BinVector {
    /// A vector of `len` random bits.
    pub fn random(len: usize) -> (v: BinVector)
        ensures
            v@.len() == len,
    {
        let mut rng = thread_rng();
        let mut v = BinVector::with_capacity(len);
        let mut i: usize = 0;
        while i < len
            invariant
                i <= len,
                v@.len() == i,
            decreases len - i,
        {
            let bit = random_bit(&mut rng);
            v.push(bit);
            i += 1;
        }
        v
    }
}

impl BinMatrix {
    /// A matrix of `rows` rows and `columns` columns of random bits.
    pub fn random(rows: usize, columns: usize) -> (m: BinMatrix)
        requires
            rows > 0,
            columns > 0,
        ensures
            m.wf(),
            m.spec_nrows() == rows,
            m.spec_ncols() == columns,
    {
        let mut rng = thread_rng();
        let width = words_for(columns);
        let mut data: Vec<Vec<u64>> = Vec::new();
        let mut i: usize = 0;
        while i < rows
            invariant
                i <= rows,
                data@.len() == i,
                width * 64 >= columns,
                forall|k: int| 0 <= k < i ==> (#[trigger] data@[k])@.len() == width,
            decreases rows - i,
        {
            let mut row: Vec<u64> = Vec::new();
            let mut c: usize = 0;
            while c < width
                invariant
                    c <= width,
                    row@.len() == c,
                decreases width - c,
            {
                let w = random_word(&mut rng);
                row.push(w);
                c += 1;
            }
            data.push(row);
            i += 1;
        }
        BinMatrix::from_slices(data.as_slice(), columns)
    }
}

} // verus!
