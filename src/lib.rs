//! A growable sequence of booleans packed one bit each into machine words.

pub mod bits;
pub mod bitvec;
pub mod laws;

pub use bitvec::BitVec;
