//! Core of a Monte-Carlo path tracer: the deterministic pseudo-random
//! generator, the pixel-domain iterators, the chunk scheduler that partitions
//! the display among workers, the merge of per-worker buffers, and the
//! byte-level image encoders.
//!
//! The floating-point layers (vector kernel, geometry, shading) live in the
//! surrounding application; everything here is integer and byte logic with
//! proved contracts.

pub mod display;
pub mod material;
pub mod qoi;
pub mod rand;
pub mod render;
pub mod utils;
pub mod writer;
