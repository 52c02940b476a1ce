use rle_compress::cli::{compression_name, create_analyzer, create_hints};
use rle_compress::file::fileanalyze::{FileAnalyzer, FileAnalyzerSettings};
use rle_compress::file::filecompress::{CompressorLevel, FileCompressSettings, FileCompressor};
use rle_compress::file::fileformat::{FileFormater, FileFormaterHints};

fn get_test_settings(probe_size: usize, threads: usize) -> FileAnalyzerSettings {
    FileAnalyzerSettings {
        probe_chunk_size: probe_size,
        thread_cnt: threads,
    }
}

#[test]
fn test_analyzer_new_valid_settings() {
    let settings = get_test_settings(1024, 4);
    let analyzer = FileAnalyzer::new(&settings);
    assert_eq!(analyzer.settings.probe_chunk_size, 1024);
    assert_eq!(analyzer.settings.thread_cnt, 4);
}

#[test]
fn test_file_formater_hints_default() {
    let hints = FileFormaterHints::default();
    assert_eq!(hints.chunk_size_hint, 4096);
}

#[test]
fn formater_keeps_analyzer_settings() {
    let analyzer = FileAnalyzer::new(&get_test_settings(512, 2));
    let formater = FileFormater::new(&analyzer);
    assert_eq!(formater.analyzer.settings.probe_chunk_size, 512);
    assert_eq!(formater.analyzer.settings.thread_cnt, 2);
}

#[test]
fn compressor_keeps_settings() {
    let settings = FileCompressSettings {
        chunk_size_hint: 2048,
        compression_level: CompressorLevel::CompressorBitLevel,
    };
    let compressor = FileCompressor::new(&settings);
    assert_eq!(compressor.settings.chunk_size_hint, 2048);
    assert_eq!(compressor.settings.compression_level, CompressorLevel::CompressorBitLevel);

    // a bit-level compressor accepts chunks of a single byte
    let settings = FileCompressSettings {
        chunk_size_hint: 1,
        compression_level: CompressorLevel::CompressorBitLevel,
    };
    assert_eq!(FileCompressor::new(&settings).settings.chunk_size_hint, 1);
}

#[test]
fn marker_values_and_names() {
    assert_eq!(CompressorLevel::CompressorBitLevel.get_marker_value(), 0x00);
    assert_eq!(CompressorLevel::CompressorByteLevel.get_marker_value(), 0xFF);
    assert_eq!(CompressorLevel::CompressorBitLevel.to_str(), "bit-level");
    assert_eq!(CompressorLevel::CompressorByteLevel.to_str(), "byte-level");
    assert_eq!(compression_name(&CompressorLevel::CompressorBitLevel), "bit-level");
    assert_eq!(compression_name(&CompressorLevel::CompressorByteLevel), "byte-level");
}

#[test]
fn marker_roundtrip() {
    for level in [CompressorLevel::CompressorBitLevel, CompressorLevel::CompressorByteLevel] {
        assert_eq!(CompressorLevel::from_value(level.get_marker_value()), Some(level));
    }
    assert_eq!(CompressorLevel::from_value(0x00), Some(CompressorLevel::CompressorBitLevel));
    assert_eq!(CompressorLevel::from_value(0xFF), Some(CompressorLevel::CompressorByteLevel));
    assert_eq!(CompressorLevel::from_value(0x42), None);
    assert_eq!(CompressorLevel::from_value(0x01), None);
}

#[test]
fn level_functions_dispatch() {
    let bit_compress = CompressorLevel::CompressorBitLevel.get_compressor_fn();
    let byte_compress = CompressorLevel::CompressorByteLevel.get_compressor_fn();
    assert_eq!(bit_compress(&[0xFF]), vec![136]);
    assert_eq!(byte_compress(&[0xFF]), vec![1, 0xFF]);

    let bit_decompress = CompressorLevel::CompressorBitLevel.get_decompressor_fn();
    let byte_decompress = CompressorLevel::CompressorByteLevel.get_decompressor_fn();
    assert_eq!(bit_decompress(&[136]), Ok(vec![0xFF]));
    assert_eq!(byte_decompress(&[1, 0xFF]), Ok(vec![0xFF]));
    assert_eq!(bit_decompress(&[3]), Err("Bit bufor is misaligned"));
    assert_eq!(
        byte_decompress(&[3]),
        Err("Invalid compressed file: bytes count is not even")
    );
}

#[test]
fn level_roundtrip_through_functions() {
    let data = b"AAAABBBCCDAA\x00\x00\xff\x0f".to_vec();
    for level in [CompressorLevel::CompressorBitLevel, CompressorLevel::CompressorByteLevel] {
        let compressed = level.get_compressor_fn()(&data);
        assert_eq!(level.get_decompressor_fn()(&compressed), Ok(data.clone()));
    }
}

#[test]
fn aligned_chunk_step_cuts_only_whole_bytes() {
    // eight zero bits reach one byte
    assert_eq!(FileCompressor::aligned_bit_chunk_step(0, 8, 1), (8, true));
    // the bit of a cluster does not count
    assert_eq!(FileCompressor::aligned_bit_chunk_step(0, 0x88, 1), (8, true));
    // four bits are not a whole byte
    assert_eq!(FileCompressor::aligned_bit_chunk_step(0, 4, 1), (4, false));
    // one whole byte is short of a chunk of two
    assert_eq!(FileCompressor::aligned_bit_chunk_step(4, 4, 2), (8, false));
    assert_eq!(FileCompressor::aligned_bit_chunk_step(12, 4, 2), (16, true));
    // an empty cluster never ends a chunk at the start
    assert_eq!(FileCompressor::aligned_bit_chunk_step(0, 0x80, 0), (0, false));
}

#[test]
fn program_defaults() {
    let analyzer = create_analyzer();
    assert_eq!(analyzer.settings.probe_chunk_size, 4096);
    assert_eq!(analyzer.settings.thread_cnt, 4);
    assert_eq!(create_hints().chunk_size_hint, 4096);
}

#[test]
fn cluster_counts_of_repeated_byte() {
    let analyzer = FileAnalyzer::new(&get_test_settings(512, 2));
    let data = vec![0b1010_1010u8; 100];
    // one byte run; every bit differs from the one before it
    assert_eq!(analyzer.byte_cluster_count(&data), 1);
    assert_eq!(analyzer.bit_cluster_count(&data), 800);
}

#[test]
fn cluster_counts_of_alternating_bytes() {
    let analyzer = FileAnalyzer::new(&get_test_settings(512, 2));
    let mut data = Vec::new();
    for _ in 0..50 {
        data.push(0b0000_0000);
        data.push(0b0000_1111);
    }
    assert_eq!(analyzer.byte_cluster_count(&data), 100);
    // each pair of bytes holds eight 0s, four 1s and four 0s
    assert_eq!(analyzer.bit_cluster_count(&data), 101);
}

#[test]
fn cluster_counts_span_the_whole_probe() {
    let analyzer = FileAnalyzer::new(&get_test_settings(16, 2));
    assert_eq!(analyzer.byte_cluster_count(&[1, 1, 2, 2]), 2);
    assert_eq!(analyzer.byte_cluster_count(&[1, 2]), 2);
    assert_eq!(analyzer.byte_cluster_count(&[1, 2, 2, 3, 9]), 4);
    // eight 0 bits, then eight 1 bits
    assert_eq!(analyzer.bit_cluster_count(&[0x00, 0xFF]), 2);
    // bits 1,0,0,0,0,0,0,0
    assert_eq!(analyzer.bit_cluster_count(&[0x01]), 2);
    // fewer bytes than parts, and no bytes at all
    let wide = FileAnalyzer::new(&get_test_settings(16, 4));
    assert_eq!(wide.byte_cluster_count(&[5]), 1);
    assert_eq!(wide.byte_cluster_count(&[]), 1);
    assert_eq!(wide.bit_cluster_count(&[]), 1);
}

#[test]
fn aligned_reader_cuts_decompress_alone() {
    // feed clusters through the step as the reader does, cutting at each end
    let stream = [0x83u8, 5, 0x80, 0x88, 4, 0x84, 0x90];
    let mut pieces: Vec<Vec<u8>> = Vec::new();
    let mut piece = Vec::new();
    let mut total = 0usize;
    for &b in &stream {
        let (t, done) = FileCompressor::aligned_bit_chunk_step(total, b, 1);
        total = t;
        piece.push(b);
        if done {
            // ends after a cluster that holds bits, on a byte boundary
            assert!(b & 0x7f > 0 && total % 8 == 0);
            pieces.push(std::mem::take(&mut piece));
            total = 0;
        }
    }
    assert_eq!(pieces, vec![vec![0x83, 5], vec![0x80, 0x88], vec![4, 0x84], vec![0x90]]);
    let decompress = CompressorLevel::CompressorBitLevel.get_decompressor_fn();
    let mut joined = Vec::new();
    for p in &pieces {
        joined.extend(decompress(p).unwrap());
    }
    assert_eq!(decompress(&stream), Ok(joined));
}
