//! Real-valued discrete Fourier transforms through a complex transform of half
//! the size: packing, butterfly recombination and spectrum expansion.
use vstd::prelude::*;

pub mod scalar;
pub mod complex;
pub mod unpack;
pub mod compose;
pub mod real_transform;
pub mod laws;

pub use unpack::unpack;
