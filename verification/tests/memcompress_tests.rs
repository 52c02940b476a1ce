use rle_compress::memcompress::{
    bit_level_compress, bit_level_decompress, byte_level_compress, byte_level_decompress,
};

#[test]
fn memcompress_test_byte_empty() {
    let input: [u8; 0] = [];
    assert_eq!(byte_level_compress(&input), Vec::<u8>::new());
}

#[test]
fn memcompress_test_byte_simple() {
    let input = [1, 1, 1, 2, 2, 3];
    let expected = [3, 1, 2, 2, 1, 3];
    assert_eq!(byte_level_compress(&input), expected);
}

#[test]
fn memcompress_test_byte_no_repeats() {
    let input = [1, 2, 3, 4];
    let expected = [1, 1, 1, 2, 1, 3, 1, 4];
    assert_eq!(byte_level_compress(&input), expected);
}

#[test]
fn memcompress_test_byte_overflow_counter() {
    let input = vec![0xAA; 260];
    let result = byte_level_compress(&input);
    assert_eq!(result, vec![255, 0xAA, 5, 0xAA]);
}

#[test]
fn memcompress_test_bit_empty() {
    let input: [u8; 0] = [];
    assert_eq!(bit_level_compress(&input), Vec::<u8>::new());
}

#[test]
fn memcompress_test_bit_all_zeros() {
    let input = [0b0000_0000];
    let expected = [8];
    assert_eq!(bit_level_compress(&input), expected);
}

#[test]
fn memcompress_test_bit_all_ones() {
    let input = [0b1111_1111];
    let expected = [136];
    assert_eq!(bit_level_compress(&input), expected);
}

#[test]
fn memcompress_test_bit_alternating() {
    let input = [0b1010_1010];
    let expected = [1, 129, 1, 129, 1, 129, 1, 129];
    assert_eq!(bit_level_compress(&input), expected);
}

#[test]
fn memcompress_test_bit_overflow_counter() {
    let input = vec![0xFF; 16];
    let result = bit_level_compress(&input);
    assert_eq!(result, vec![255, 129]);
}

#[test]
fn memcompress_test_compress_and_decompress_text() {
    let input = b"AAAABBBCCDAA";

    let compressed = byte_level_compress(input);
    let decompressed = byte_level_decompress(&compressed).unwrap();

    assert_eq!(input.to_vec(), decompressed);

    let compressed = bit_level_compress(input);
    let decompressed = bit_level_decompress(&compressed).unwrap();

    assert_eq!(input.to_vec(), decompressed);
}

#[test]
fn memcompress_test_empty_data() {
    let input = b"";

    let compressed = byte_level_compress(input);
    let decompressed = byte_level_decompress(&compressed).unwrap();

    assert_eq!(input.to_vec(), decompressed);

    let compressed = bit_level_compress(input);
    let decompressed = bit_level_decompress(&compressed).unwrap();

    assert_eq!(input.to_vec(), decompressed);
}

#[test]
fn memcompress_test_no_repetitions() {
    let input = b"ABCDEF";

    let compressed = byte_level_compress(input);
    let decompressed = byte_level_decompress(&compressed).unwrap();

    assert_eq!(input.to_vec(), decompressed);

    let compressed = bit_level_compress(input);
    let decompressed = bit_level_decompress(&compressed).unwrap();

    assert_eq!(input.to_vec(), decompressed);
}

#[test]
fn memcompress_test_long_sequence() {
    let input = vec![b'A'; 300];

    let compressed = byte_level_compress(&input);
    let decompressed = byte_level_decompress(&compressed).unwrap();

    assert_eq!(input.to_vec(), decompressed);

    let compressed = bit_level_compress(&input);
    let decompressed = bit_level_decompress(&compressed).unwrap();

    assert_eq!(input.to_vec(), decompressed);
}
