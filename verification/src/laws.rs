//! What holds across the library: what one operation undoes, what is kept,
//! what does not depend on what.

pub mod archives;
pub mod arguments;
pub mod arrays;
pub mod checkpoints;
pub mod checksums;
pub mod command_line;
pub mod decimals;
pub mod deflate;
pub mod detection;
pub mod digits;
pub mod documents;
pub mod dtypes;
pub mod extents;
pub mod figures;
pub mod ggml;
pub mod globs;
pub mod huffman;
pub mod inspection;
pub mod json_layout;
pub mod json_limits;
pub mod json_syntax;
pub mod json_text;
pub mod layout;
pub mod lz77;
pub mod models;
pub mod prefixes;
pub mod presentation;
pub mod python_syntax;
pub mod recognition;
pub mod refusals;
pub mod runs;
pub mod sections;
pub mod selection;
pub mod writers;
pub mod zip;
