//! Dense linear algebra over GF(2) on bit-packed matrices: construction,
//! transposition, multiplication by three strategies, row echelon form and
//! rank, PLUQ decomposition, inversion and the solution of linear systems.
//!
//! What a matrix stands for is a sequence of rows of bits (`gf2`), and every
//! operation says in its contract which such sequence it returns or leaves
//! behind. The laws of the arithmetic are proved over these sequences:
//! associativity, distributivity and the neutral identity in `gf2`, the
//! agreement of the multiplication strategies in `multiply`, the rank of
//! the identity and of zero in `echelon`, the uniqueness of the rank in
//! `rank`, and the link between rank and invertibility in `solve`.
pub mod bits;
pub mod convert;
pub mod djb;
pub mod echelon;
pub mod gf2;
pub mod graycode;
pub mod m4ri;
pub mod matrix;
pub mod multiply;
pub mod mzd;
pub mod operators;
pub mod permutation;
pub mod pluq;
pub mod random;
pub mod rank;
pub mod rowops;
pub mod russian;
pub mod solve;
pub mod strassen;
pub mod transpose;
pub mod vector;
pub mod window;
