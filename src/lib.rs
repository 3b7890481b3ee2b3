//! Beam search over caller-defined evaluators, with the grid, bit-set,
//! token and table utilities that solutions are built from.

pub mod beam;
pub mod bits;
pub mod grid;
pub mod ij;
pub mod matrix;
pub mod multi_test;
pub mod referee;
pub mod source;
pub mod strct;
pub mod table;
