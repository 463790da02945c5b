//! Content-adaptive, block-based image downsampling with a custom binary
//! container format.
//!
//! An image is split into a row-major grid of pixel blocks; each block may be
//! shrunk by whole octaves according to a per-block detail value, and the grid
//! is serialized into a versioned container whose per-row length table allows
//! each row of blocks to be decoded independently.

pub mod block;
pub mod bytes;
pub mod encoding;
pub mod filter;
pub mod operations;
pub mod pixlzr;
pub mod semver;
