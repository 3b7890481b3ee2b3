//! Bit-set structures.

pub mod bit;
