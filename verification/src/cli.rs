//! The defaults of the command-line program.

use vstd::prelude::*;
use crate::file::filecompress::CompressorLevel;
use crate::file::fileanalyze::{FileAnalyzer, FileAnalyzerSettings};
use crate::file::fileformat::FileFormaterHints;

verus! {

/// The name under which the program reports a compression level.
pub fn compression_name(level: &CompressorLevel) -> (s: &'static str)
    ensures
        *level == CompressorLevel::CompressorByteLevel ==> s@ == "byte-level"@,
        *level == CompressorLevel::CompressorBitLevel ==> s@ == "bit-level"@,
{
    match level {
        CompressorLevel::CompressorByteLevel => "byte-level",
        CompressorLevel::CompressorBitLevel => "bit-level",
    }
}

/// The analyzer of the program: probes of 4096 bytes in four parts.
pub fn create_analyzer() -> (r: FileAnalyzer)
    ensures
        r.settings.probe_chunk_size == 4096,
        r.settings.thread_cnt == 4,
{
    let settings = FileAnalyzerSettings { probe_chunk_size: 4096, thread_cnt: 4 };

    FileAnalyzer::new(&settings)
}

/// The formatter hints of the program: chunks of 4096 bytes.
pub fn create_hints() -> (r: FileFormaterHints)
    ensures
        r.chunk_size_hint == 4096,
{
    FileFormaterHints { chunk_size_hint: 4096 }
}

} // verus!
