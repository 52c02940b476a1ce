use rle_compress::memcompress;
use rle_compress::rlecompress;

#[test]
fn readme_byte_examples() {
    assert_eq!(
        memcompress::byte_level_compress(b"AAAABBBCCDAA"),
        vec![4, b'A', 3, b'B', 2, b'C', 1, b'D', 2, b'A']
    );
    assert_eq!(
        memcompress::byte_level_compress(b"AAAAABBB"),
        vec![5, b'A', 3, b'B']
    );
    assert_eq!(
        rlecompress::byte_level_compress(b"AAAAABBB"),
        vec![5, b'A', 3, b'B']
    );
}

#[test]
fn byte_decompress_rejects_odd_length() {
    let msg = "Invalid compressed file: bytes count is not even";
    assert_eq!(memcompress::byte_level_decompress(&[3, 1, 2]), Err(msg));
    assert_eq!(rlecompress::byte_level_decompress(&[3]), Err(msg));
    // a zero count expands to nothing
    assert_eq!(memcompress::byte_level_decompress(&[0, 7, 2, 9]), Ok(vec![9, 9]));
}

#[test]
fn bit_decompress_rejects_misaligned_bits() {
    // three bits do not fill a byte
    assert_eq!(memcompress::bit_level_decompress(&[3]), Err("Bit bufor is misaligned"));
    assert_eq!(
        memcompress::bit_level_decompress(&[8, 0x81]),
        Err("Bit bufor is misaligned")
    );
}

#[test]
fn bit_decompress_pads_after_empty_last_cluster() {
    // eight zero bits then an empty cluster: a zero byte is appended
    assert_eq!(memcompress::bit_level_decompress(&[0x88, 0]), Ok(vec![0xFF, 0]));
    // only empty clusters: one zero byte
    assert_eq!(memcompress::bit_level_decompress(&[0x80]), Ok(vec![0]));
    // empty clusters inside do not add bytes
    assert_eq!(memcompress::bit_level_decompress(&[0x84, 0, 0x84]), Ok(vec![0xFF]));
}

#[test]
fn bit_decompress_lsb_first() {
    // one 1 bit, seven 0 bits
    assert_eq!(memcompress::bit_level_decompress(&[0x81, 7]), Ok(vec![0x01]));
    assert_eq!(rlecompress::bit_level_decompress(&[0x81, 7]), Ok(vec![0x01]));
    // four 0 bits, four 1 bits
    assert_eq!(memcompress::bit_level_decompress(&[4, 0x84]), Ok(vec![0xF0]));
}

#[test]
fn rle_bit_decompress_accepts_partial_byte() {
    // three 1 bits: no error, the rest of the byte stays zero
    assert_eq!(rlecompress::bit_level_decompress(&[0x83]), Ok(vec![0b111]));
    assert_eq!(rlecompress::bit_level_decompress(&[3]), Ok(vec![0]));
    assert_eq!(rlecompress::bit_level_decompress(&[]), Ok(vec![]));
    // four 0 bits, then ten 1 bits that go on into a second byte
    assert_eq!(rlecompress::bit_level_decompress(&[4, 0x8A]), Ok(vec![0xF0, 0x3F]));
    // an empty last cluster after a whole byte adds a zero byte
    assert_eq!(rlecompress::bit_level_decompress(&[0x88, 0]), Ok(vec![0xFF, 0]));
}

#[test]
fn rle_bit_decompress_long_last_run() {
    // a last run of sixteen 1 bits fills two bytes
    let data = [0x00, 0xFF, 0xFF];
    let compressed = rlecompress::bit_level_compress(&data);
    assert_eq!(compressed, vec![8, 0x90]);
    assert_eq!(rlecompress::bit_level_decompress(&compressed), Ok(data.to_vec()));
    assert_eq!(memcompress::bit_level_decompress(&compressed), Ok(data.to_vec()));
    let data = [0xFF, 0xFF];
    let compressed = rlecompress::bit_level_compress(&data);
    assert_eq!(rlecompress::bit_level_decompress(&compressed), Ok(data.to_vec()));
}

#[test]
fn rle_bit_roundtrip() {
    for data in [
        vec![0x01u8, 0x80],
        vec![0x0F, 0xF0, 0x3C],
        vec![0xAA; 9],
        vec![0xFF; 40],
        vec![0x00; 17],
    ] {
        let compressed = rlecompress::bit_level_compress(&data);
        assert_eq!(rlecompress::bit_level_decompress(&compressed), Ok(data.clone()));
    }
}

#[test]
fn roundtrip_on_all_single_bytes() {
    for b in 0..=255u8 {
        let data = vec![b, b, b.wrapping_mul(7)];
        let c = memcompress::byte_level_compress(&data);
        assert_eq!(memcompress::byte_level_decompress(&c), Ok(data.clone()));
        let c = memcompress::bit_level_compress(&data);
        assert_eq!(memcompress::bit_level_decompress(&c), Ok(data.clone()));
    }
}

#[test]
fn byte_chunked_roundtrip() {
    let a = vec![7u8; 300];
    let b = b"xxyyz7".to_vec();
    let mut stream = memcompress::byte_level_compress(&a);
    stream.extend(memcompress::byte_level_compress(&b));
    let mut whole = a.clone();
    whole.extend(b.clone());
    assert_eq!(memcompress::byte_level_decompress(&stream), Ok(whole));
}

#[test]
fn byte_decompress_concat_of_even_chunks() {
    let a = [2u8, 1, 3, 9];
    let b = [1u8, 1, 2, 5];
    let mut ab = a.to_vec();
    ab.extend(b);
    let mut expected = memcompress::byte_level_decompress(&a).unwrap();
    expected.extend(memcompress::byte_level_decompress(&b).unwrap());
    assert_eq!(memcompress::byte_level_decompress(&ab), Ok(expected));
}

#[test]
fn bit_chunked_roundtrip() {
    let a = vec![0xFFu8; 20];
    let b = vec![0xFFu8, 0x00, 0x0F];
    let mut stream = memcompress::bit_level_compress(&a);
    stream.extend(memcompress::bit_level_compress(&b));
    let mut whole = a.clone();
    whole.extend(b.clone());
    assert_eq!(memcompress::bit_level_decompress(&stream), Ok(whole));
}

#[test]
fn bit_decompress_concat_of_aligned_chunks() {
    let a = [0x85u8, 3];
    let b = [0x90u8];
    let mut ab = a.to_vec();
    ab.extend(b);
    let mut expected = memcompress::bit_level_decompress(&a).unwrap();
    expected.extend(memcompress::bit_level_decompress(&b).unwrap());
    assert_eq!(expected, vec![0x1F, 0xFF, 0xFF]);
    assert_eq!(memcompress::bit_level_decompress(&ab), Ok(expected));
}

#[test]
fn compressed_forms_are_canonical() {
    // a full pair of a byte may be followed by a pair of the same byte
    let c = memcompress::byte_level_compress(&vec![1u8; 600]);
    assert_eq!(c, vec![255, 1, 255, 1, 90, 1]);
    // a full cluster of a bit may be followed by a cluster of the same bit
    let c = memcompress::bit_level_compress(&vec![0u8; 32]);
    assert_eq!(c, vec![127, 127, 2]);
    // both modules compress alike
    let data = b"zzzz\x00\x01\x01\xfe".to_vec();
    assert_eq!(
        memcompress::bit_level_compress(&data),
        rlecompress::bit_level_compress(&data)
    );
    assert_eq!(
        memcompress::byte_level_compress(&data),
        rlecompress::byte_level_compress(&data)
    );
}

#[test]
fn many_chunks_roundtrip() {
    let chunks: Vec<Vec<u8>> = vec![vec![9u8; 700], b"abcabc".to_vec(), vec![], vec![0x0F, 0xF0]];
    let whole: Vec<u8> = chunks.concat();
    let byte_stream: Vec<u8> = chunks.iter().flat_map(|c| memcompress::byte_level_compress(c)).collect();
    assert_eq!(memcompress::byte_level_decompress(&byte_stream), Ok(whole.clone()));
    let bit_stream: Vec<u8> = chunks.iter().flat_map(|c| memcompress::bit_level_compress(c)).collect();
    assert_eq!(memcompress::bit_level_decompress(&bit_stream), Ok(whole.clone()));
    assert_eq!(rlecompress::bit_level_decompress(&bit_stream), Ok(whole));
}

#[test]
fn decompress_many_aligned_chunks() {
    let chunks: Vec<Vec<u8>> = vec![vec![0x88], vec![0x84, 0x04], vec![0x90], vec![3, 0x85]];
    let mut expected = Vec::new();
    for c in &chunks {
        expected.extend(memcompress::bit_level_decompress(c).unwrap());
    }
    assert_eq!(expected, vec![0xFF, 0x0F, 0xFF, 0xFF, 0xF8]);
    assert_eq!(memcompress::bit_level_decompress(&chunks.concat()), Ok(expected));
}
