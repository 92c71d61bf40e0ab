//! Succinct data structures with machine-checked contracts.
//!
//! - [`bv`]: bit-packed vectors of bits and of fixed-width integers.
//! - [`rank_select`]: rank in constant time and select by binary search
//!   over a bit vector, with a two-level index of counts.
//! - [`wt`]: wavelet trees over ASCII text, with access, rank and select.
//! - [`bloom_filter`]: a classical and a blocked Bloom filter.
//! - [`math`]: logarithms and rounding divisions.
//!
//! The modules [`bits`], [`levels`] and [`text`] hold the mathematics that
//! the contracts speak of: bits and numbers, the levels of a wavelet tree,
//! and texts with their alphabets.

pub mod bits;
pub mod bloom_filter;
pub mod bv;
pub mod levels;
pub mod math;
pub mod rank_select;
pub mod text;
pub mod wt;
