//! In-place selection of the value of a given rank ("nth element").
//!
//! `select` holds the algorithm over plain `u64` values in their natural
//! order; `float_bits` lifts it to IEEE 754 double-precision values carried
//! as their bit patterns.
use vstd::prelude::*;

pub mod select;
pub mod float_bits;
