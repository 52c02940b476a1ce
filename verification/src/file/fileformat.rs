//! The settings of the formatter that frames a compressed file: one header
//! byte that marks the compression level, then the compressed chunks.

use vstd::prelude::*;
use crate::file::fileanalyze::{FileAnalyzer, FileAnalyzerSettings};

verus! {

/// The chunk size that the formatter uses when it is given no hint.
const DEFAULT_CHUNK_SIZE: usize = 4096;

#[derive(Debug, Clone)]
pub struct FileFormaterHints {
    pub chunk_size_hint: usize,
}

impl FileFormaterHints {
    /// Hints with the default chunk size of 4096 bytes.
    pub fn default() -> (r: Self)
        ensures
            r.chunk_size_hint == 4096,
    {
        Self { chunk_size_hint: DEFAULT_CHUNK_SIZE }
    }
}

#[derive(Debug)]
pub struct FileFormater {
    pub analyzer: FileAnalyzer,
}

impl FileFormater {
    /// A formatter with a copy of `analyzer`.
    pub fn new(analyzer: &FileAnalyzer) -> (r: Self)
        ensures
            r.analyzer == *analyzer,
    {
        Self {
            analyzer: FileAnalyzer {
                settings: FileAnalyzerSettings {
                    probe_chunk_size: analyzer.settings.probe_chunk_size,
                    thread_cnt: analyzer.settings.thread_cnt,
                },
            },
        }
    }
}

} // verus!
