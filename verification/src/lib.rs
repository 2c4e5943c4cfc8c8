//! Codec and toolkit for the PF6/PF8 archive container format: a flat file that packs
//! named byte blobs behind an index, the payloads masked with a key that is derived
//! from the index itself.
//!
//! The library works on bytes and paths as values and performs no input or output.
//! Every function is verified against its contract; the laws of the format as a whole
//! are proved in [`laws`].

pub mod constants;
pub mod error;
pub mod text;
pub mod paths;
pub mod format;
pub mod layout;
pub mod crypto;
pub mod utils;
pub mod entry;
pub mod reader;
pub mod writer;
pub mod sorting;
pub mod callbacks;
pub mod operation;
pub mod builder;
pub mod extract;
pub mod archive;
pub mod display;
pub mod util;
pub mod laws;
