//! Harpocrates: a byte-substitution block cipher on 16-byte blocks.
//!
//! A 256-entry lookup table (a permutation of the byte values) drives the
//! substitution rounds; its structural inverse drives decryption. Bulk
//! operations apply the block primitive independently across a buffer whose
//! length is a multiple of 16, so disjoint chunks may be processed in any
//! order, or concurrently, with identical results.

pub mod tables;
pub mod block;
pub mod bulk;

pub use tables::{generate_lut, generate_ilut};
pub use block::{encrypt, decrypt};
pub use bulk::{encrypt_data, decrypt_data};
