//! Strided, offset-aware addressing of flat buffers and a batched matrix product built on it.
//!
//! [`layout`] maps a logical index of a three-axis view to a position in a flat
//! buffer and decides whether a view stays inside a buffer of a given length.
//! [`gemm`] multiplies the matrices of a batch, reading both operands through such views
//! and writing one dense block per batch; the elements' arithmetic is the caller's.
//! [`exact`] is that product for 32-bit integers, with sums that cannot overflow.
//! [`laws`] proves what holds of every such product: that skipping a batch by advancing
//! the offsets drops a block, that batches do not affect one another, and that the output
//! is a function of the inputs.

pub mod exact;
pub mod gemm;
pub mod laws;
pub mod layout;
