//! The settings and decisions of the file compressor: which compression a
//! file gets, how it is marked in the compressed file, and where the
//! compressed stream is cut into chunks.

pub mod filecompress;
pub mod fileanalyze;
pub mod fileformat;
