//! Run-length encoding of byte buffers, at the level of whole bytes and at
//! the level of single bits, together with the settings types of the file
//! compressor that drives them.

pub mod model;
pub mod memcompress;
pub mod rlecompress;
pub mod file;
pub mod cli;
pub mod laws;
