//! tensorpeek — inspect safetensors, GGUF, npy and npz headers as JSON.
//!
//! The crate is a set of pure, individually verified modules glued together
//! by a thin CLI. Every parser reads only the header region of a file (plus,
//! for `.npz`, the ZIP central directory), so multi-gigabyte checkpoints are
//! inspected in milliseconds. There are no dependencies: JSON
//! parsing/serialization, ZIP reading and even DEFLATE decompression for
//! compressed `.npz` members are implemented here on top of `std` alone.

use vstd::prelude::*;

pub mod ascii;
pub mod bignat;
pub mod builder;
pub mod bytes;
pub mod cli;
pub mod float;
pub mod gguf;
pub mod inflate;
pub mod json;
pub mod laws;
pub mod npy;
pub mod npz;
pub mod render;
pub mod report;
pub mod safetensors;
pub mod shortest;
pub mod sniff;
pub mod text;

verus! {

/// The crate version.
pub const VERSION: &'static str = "0.1.0";

} // verus!
