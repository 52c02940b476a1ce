//! Compression levels and the settings of the chunked file compressor.

use vstd::prelude::*;
use crate::memcompress::{
    bit_level_compress, byte_level_compress, bit_level_decompress, byte_level_decompress,
};
use crate::model::{
    is_bit_rle, is_byte_rle, bits, bit_stream, byte_decode, bit_decompress_padding, cluster_count,
};

verus! {

/// Compressor mode specifier.
/// Compressing either bits, or bytes.
#[derive(Clone, Copy, Debug, PartialEq, Eq, Structural)]
pub enum CompressorLevel {
    CompressorBitLevel,
    CompressorByteLevel,
}

/// `c` is what `level` compresses `data` into.
pub open spec fn is_compressed(level: CompressorLevel, c: Seq<u8>, data: Seq<u8>) -> bool {
    match level {
        CompressorLevel::CompressorBitLevel => is_bit_rle(c, bits(data)),
        CompressorLevel::CompressorByteLevel => is_byte_rle(c, data),
    }
}

/// `r` is what `level` decompresses `data` into: the expanded bytes, or the
/// error for an input that the level cannot decompress.
pub open spec fn is_decompressed(
    level: CompressorLevel,
    data: Seq<u8>,
    r: Result<Vec<u8>, &'static str>,
) -> bool {
    match level {
        CompressorLevel::CompressorBitLevel => {
            &&& (bit_stream(data).len() % 8 != 0 <==> r is Err)
            &&& (r matches Ok(v) ==> bits(v@) == bit_stream(data) + bit_decompress_padding(data))
            &&& (r matches Err(e) ==> e@ == "Bit bufor is misaligned"@)
        },
        CompressorLevel::CompressorByteLevel => {
            &&& (data.len() % 2 != 0 <==> r is Err)
            &&& (r matches Ok(v) ==> v@ == byte_decode(data))
            &&& (r matches Err(e) ==> e@ == "Invalid compressed file: bytes count is not even"@)
        },
    }
}

/// The header byte that marks a file compressed at `level`.
pub open spec fn marker_of(level: CompressorLevel) -> u8 {
    match level {
        CompressorLevel::CompressorBitLevel => 0x00u8,
        CompressorLevel::CompressorByteLevel => 0xFFu8,
    }
}

/// The level that the header byte `v` marks, if any.
pub open spec fn level_from_marker(v: u8) -> Option<CompressorLevel> {
    if v == marker_of(CompressorLevel::CompressorBitLevel) {
        Some(CompressorLevel::CompressorBitLevel)
    } else if v == marker_of(CompressorLevel::CompressorByteLevel) {
        Some(CompressorLevel::CompressorByteLevel)
    } else {
        None
    }
}

/// Differentiate between different
/// internal functions while parsing and compressing a file.
impl CompressorLevel {
    /// The in-memory compressor of this level.
    pub fn get_compressor_fn(&self) -> (f: impl Fn(&[u8]) -> Vec<u8>)
        ensures
            forall|buff: &[u8]| call_requires(f, (buff,)),
            forall|buff: &[u8], r: Vec<u8>|
                call_ensures(f, (buff,), r) ==> is_compressed(*self, r@, buff@),
            forall|buff: &[u8], r: Vec<u8>|
                call_ensures(f, (buff,), r) ==> (*self == CompressorLevel::CompressorByteLevel
                    ==> is_byte_rle(r@, buff@)),
            forall|buff: &[u8], r: Vec<u8>|
                call_ensures(f, (buff,), r) ==> (*self == CompressorLevel::CompressorBitLevel
                    ==> is_bit_rle(r@, bits(buff@))),
    {
        let level = *self;
        move |buff: &[u8]| -> (r: Vec<u8>)
            ensures
                is_compressed(level, r@, buff@),
                level == CompressorLevel::CompressorByteLevel ==> is_byte_rle(r@, buff@),
                level == CompressorLevel::CompressorBitLevel ==> is_bit_rle(r@, bits(buff@)),
            {
                match level {
                    CompressorLevel::CompressorBitLevel => bit_level_compress(buff),
                    CompressorLevel::CompressorByteLevel => byte_level_compress(buff),
                }
            }
    }

    /// The in-memory decompressor of this level.
    pub fn get_decompressor_fn(&self) -> (f: impl Fn(&[u8]) -> Result<Vec<u8>, &'static str>)
        ensures
            forall|buff: &[u8]| call_requires(f, (buff,)),
            forall|buff: &[u8], r: Result<Vec<u8>, &'static str>|
                call_ensures(f, (buff,), r) ==> is_decompressed(*self, buff@, r),
            forall|buff: &[u8], r: Result<Vec<u8>, &'static str>|
                call_ensures(f, (buff,), r) ==> (*self == CompressorLevel::CompressorByteLevel ==> {
                    &&& (buff@.len() % 2 == 0 <==> r is Ok)
                    &&& (r matches Ok(v) ==> v@ == byte_decode(buff@))
                }),
            forall|buff: &[u8], r: Result<Vec<u8>, &'static str>|
                call_ensures(f, (buff,), r) ==> (*self == CompressorLevel::CompressorBitLevel ==> {
                    &&& (bit_stream(buff@).len() % 8 == 0 <==> r is Ok)
                    &&& (r matches Ok(v) ==> bits(v@) == bit_stream(buff@) + bit_decompress_padding(
                        buff@,
                    ))
                }),
    {
        let level = *self;
        move |buff: &[u8]| -> (r: Result<Vec<u8>, &'static str>)
            ensures
                is_decompressed(level, buff@, r),
                level == CompressorLevel::CompressorByteLevel ==> {
                    &&& (buff@.len() % 2 == 0 <==> r is Ok)
                    &&& (r matches Ok(v) ==> v@ == byte_decode(buff@))
                },
                level == CompressorLevel::CompressorBitLevel ==> {
                    &&& (bit_stream(buff@).len() % 8 == 0 <==> r is Ok)
                    &&& (r matches Ok(v) ==> bits(v@) == bit_stream(buff@)
                        + bit_decompress_padding(buff@))
                },
            {
                match level {
                    CompressorLevel::CompressorBitLevel => bit_level_decompress(buff),
                    CompressorLevel::CompressorByteLevel => byte_level_decompress(buff),
                }
            }
    }

    /// The header byte that marks a file compressed at this level.
    pub fn get_marker_value(&self) -> (v: u8)
        ensures
            v == marker_of(*self),
    {
        match self {
            CompressorLevel::CompressorBitLevel => 0x00u8,
            CompressorLevel::CompressorByteLevel => 0xFFu8,
        }
    }

    /// The level that the header byte `v` marks, if any.
    pub fn from_value(v: u8) -> (r: Option<Self>)
        ensures
            r == level_from_marker(v),
    {
        if v == CompressorLevel::CompressorBitLevel.get_marker_value() {
            return Some(CompressorLevel::CompressorBitLevel);
        } else if v == CompressorLevel::CompressorByteLevel.get_marker_value() {
            return Some(CompressorLevel::CompressorByteLevel);
        }
        None
    }

    /// The name of this level.
    pub fn to_str(&self) -> (s: &'static str)
        ensures
            *self == CompressorLevel::CompressorByteLevel ==> s@ == "byte-level"@,
            *self == CompressorLevel::CompressorBitLevel ==> s@ == "bit-level"@,
    {
        match self {
            CompressorLevel::CompressorByteLevel => "byte-level",
            CompressorLevel::CompressorBitLevel => "bit-level",
        }
    }
}

/// Specify compressing settings.
/// Increasing `chunk_size_hint` might increase performance
/// while compressing big files, but setting it to high value
/// might be an overkill for just small files.
#[derive(Debug, Clone)]
pub struct FileCompressSettings {
    pub chunk_size_hint: usize,
    pub compression_level: CompressorLevel,
}

/// That is core compressor.
/// It implements `compress_input_to_output`, that do the actual stuff.
#[derive(Debug, Clone)]
pub struct FileCompressor {
    pub settings: FileCompressSettings,
}

/// The settings that a compressor accepts: byte-level chunks hold at least
/// one whole pair.
pub open spec fn valid_compress_settings(settings: FileCompressSettings) -> bool {
    !(settings.chunk_size_hint < 2 && settings.compression_level
        == CompressorLevel::CompressorByteLevel)
}

/// The aligned reader ends a chunk once it has counted `total` bits: a
/// positive whole number of bytes that reaches `chunk_size` bytes.
pub open spec fn aligned_chunk_done(total: int, chunk_size: int) -> bool {
    total > 0 && total % 8 == 0 && total / 8 >= chunk_size
}

impl FileCompressor {
    /// A compressor with a copy of `settings`.
    pub fn new(settings: &FileCompressSettings) -> (r: Self)
        requires
            valid_compress_settings(*settings),
        ensures
            r.settings == *settings,
    {
        Self {
            settings: FileCompressSettings {
                chunk_size_hint: settings.chunk_size_hint,
                compression_level: settings.compression_level,
            },
        }
    }

    /// One step of the reader that cuts a bit-level compressed stream into
    /// chunks of whole bytes: `total_bit_cnt` bits were counted before the
    /// cluster `byte`; returns the new count and whether the chunk ends after
    /// this cluster, that is when the count is a positive multiple of eight
    /// that reaches `chunk_size` bytes. A chunk that had not ended before
    /// ends only after a cluster that holds bits.
    pub fn aligned_bit_chunk_step(total_bit_cnt: usize, byte: u8, chunk_size: usize) -> (r: (
        usize,
        bool,
    ))
        requires
            total_bit_cnt + cluster_count(byte) <= usize::MAX,
        ensures
            r.0 == total_bit_cnt + cluster_count(byte),
            r.1 == aligned_chunk_done(r.0 as int, chunk_size as int),
            r.1 && !aligned_chunk_done(total_bit_cnt as int, chunk_size as int) ==> cluster_count(
                byte,
            ) > 0,
    {
        let total_bit_cnt = total_bit_cnt + (byte & 0x7fu8) as usize;
        let chunk_done = total_bit_cnt > 0 && total_bit_cnt % 8 == 0 && total_bit_cnt / 8
            >= chunk_size;
        (total_bit_cnt, chunk_done)
    }
}

} // verus!
