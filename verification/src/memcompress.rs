//! Compression and decompression of in-memory buffers.
//!
//! [`byte_level_compress`] and [`bit_level_compress`] handle whole buffers;
//! the file compressor applies them chunk by chunk.

use vstd::prelude::*;
use crate::model::{
    is_byte_rle, byte_decode, pairs_decode, pair_count, pair_byte, repeat,
    lemma_byte_decode_push_pair, lemma_byte_rle_grow_last, lemma_byte_rle_new_pair,
    MAX_CNT_BYTE_LV_CLUSTER, MAX_CNT_BIT_LV_CLUSTER,
    is_bit_rle, bits, bit_at, cluster, bit_stream, lemma_bit_values, lemma_bits_index,
    lemma_bit_rle_single, lemma_bit_rle_grow_last, lemma_bit_rle_new_cluster,
    cluster_count, cluster_bit, bit_decompress_padding, lemma_bit_stream_push,
    lemma_bits_push_zero, lemma_bits_set_last,
};

verus! {

/// Returns compressed memory buffer using byte compression.
pub fn byte_level_compress(buff: &[u8]) -> (result: Vec<u8>)
    ensures
        is_byte_rle(result@, buff@),
{
    let mut result: Vec<u8> = Vec::new();

    if buff.len() == 0 {
        assert(byte_decode(result@) =~= buff@);
        return result;
    }

    let mut curr_byte = buff[0];
    let mut curr_cnt: u8 = 1;
    let mut i: usize = 1;

    proof {
        lemma_byte_decode_push_pair(result@, curr_cnt, curr_byte);
        assert(repeat(curr_byte, 1) =~= buff@.take(1));
    }

    while i < buff.len()
        invariant
            1 <= i <= buff.len(),
            result@.len() % 2 == 0,
            curr_cnt >= 1,
            is_byte_rle(result@.push(curr_cnt).push(curr_byte), buff@.take(i as int)),
        decreases buff.len() - i,
    {
        let byte = buff[i];
        proof {
            assert(buff@.take(i + 1) =~= buff@.take(i as int).push(byte));
        }
        if byte == curr_byte && curr_cnt < MAX_CNT_BYTE_LV_CLUSTER {
            proof {
                lemma_byte_rle_grow_last(result@, curr_cnt, curr_byte, buff@.take(i as int));
            }
            curr_cnt = curr_cnt + 1;
        } else {
            proof {
                lemma_byte_rle_new_pair(result@, curr_cnt, curr_byte, buff@.take(i as int), byte);
            }
            result.push(curr_cnt);
            result.push(curr_byte);

            curr_byte = byte;
            curr_cnt = 1;
        }
        i = i + 1;
    }

    result.push(curr_cnt);
    result.push(curr_byte);
    assert(buff@.take(i as int) =~= buff@);

    result
}

/// Returns compressed memory buffer using bit compression.
pub fn bit_level_compress(buff: &[u8]) -> (result: Vec<u8>)
    ensures
        is_bit_rle(result@, bits(buff@)),
{
    let mut result: Vec<u8> = Vec::new();

    if buff.len() == 0 {
        assert(bits(buff@) =~= Seq::<u8>::empty());
        assert(bit_stream(result@) =~= Seq::<u8>::empty());
        return result;
    }

    let mut curr_bit = (buff[0] >> 0u8) & 1u8;
    let mut curr_cnt: u8 = 0;
    proof {
        lemma_bit_values(buff[0], 0);
    }

    let mut i: usize = 0;
    while i < buff.len()
        invariant
            0 < buff.len(),
            i <= buff.len(),
            curr_bit <= 1,
            curr_cnt <= 127,
            i == 0 ==> (result@.len() == 0 && curr_cnt == 0 && curr_bit == bit_at(buff[0], 0)),
            i > 0 ==> (curr_cnt >= 1 && is_bit_rle(
                result@.push(cluster(curr_cnt, curr_bit)),
                bits(buff@).take(8 * i),
            )),
        decreases buff.len() - i,
    {
        let byte = buff[i];
        let mut shf: u8 = 0;
        while shf < 8
            invariant
                0 < buff.len(),
                i < buff.len(),
                byte == buff[i as int],
                shf <= 8,
                curr_bit <= 1,
                curr_cnt <= 127,
                8 * i + shf == 0 ==> (result@.len() == 0 && curr_cnt == 0 && curr_bit == bit_at(buff[0], 0)),
                8 * i + shf > 0 ==> (curr_cnt >= 1 && is_bit_rle(
                    result@.push(cluster(curr_cnt, curr_bit)),
                    bits(buff@).take(8 * i + shf),
                )),
            decreases 8 - shf,
        {
            let bit = (byte >> shf) & 1u8;
            let ghost t: int = 8 * i + shf;
            proof {
                lemma_bit_values(byte, shf);
                lemma_bits_index(buff@, i as int, shf as int);
                assert(bits(buff@).take(t + 1) =~= bits(buff@).take(t).push(bit));
            }

            if bit == curr_bit && curr_cnt < MAX_CNT_BIT_LV_CLUSTER {
                proof {
                    if t == 0 {
                        lemma_bit_rle_single(bit);
                        assert(result@.push(cluster(1, bit)) =~= seq![cluster(1, bit)]);
                        assert(bits(buff@).take(1) =~= seq![bit]);
                    } else {
                        lemma_bit_rle_grow_last(result@, curr_cnt, curr_bit, bits(buff@).take(t));
                    }
                }
                curr_cnt = curr_cnt + 1;
            } else {
                proof {
                    lemma_bit_rle_new_cluster(result@, curr_cnt, curr_bit, bits(buff@).take(t), bit);
                }
                let cluster = curr_cnt | (curr_bit << 7u8);
                result.push(cluster);

                curr_bit = bit;
                curr_cnt = 1;
            }
            shf = shf + 1;
        }
        i = i + 1;
    }

    let cluster = curr_cnt | (curr_bit << 7u8);
    result.push(cluster);
    assert(bits(buff@).take(8 * buff.len()) =~= bits(buff@));

    result
}

/// Returns decompressed memory buffer that was compressed using byte compression.
pub fn byte_level_decompress(data: &[u8]) -> (result: Result<Vec<u8>, &'static str>)
    ensures
        data@.len() % 2 != 0 <==> result is Err,
        result matches Ok(v) ==> v@ == byte_decode(data@),
        result matches Err(e) ==> e@ == "Invalid compressed file: bytes count is not even"@,
{
    if data.len() % 2 != 0 {
        return Err("Invalid compressed file: bytes count is not even");
    }

    let min_result_size = data.len() / 2;
    let mut result: Vec<u8> = Vec::with_capacity(min_result_size);

    if data.len() == 0 {
        assert(result@ =~= byte_decode(data@));
        return Ok(result);
    }

    let n_pairs = data.len() / 2;
    let mut p: usize = 0;
    while p < n_pairs
        invariant
            n_pairs == data@.len() / 2,
            data@.len() % 2 == 0,
            p <= n_pairs,
            result@ == pairs_decode(data@, p as nat),
        decreases n_pairs - p,
    {
        assert(2 * p + 1 < data.len());
        let count = data[2 * p];
        let byte = data[2 * p + 1];
        let ghost before = result@;

        let mut k: u8 = 0;
        while k < count
            invariant
                k <= count,
                result@ == before + repeat(byte, k as nat),
            decreases count - k,
        {
            result.push(byte);
            k = k + 1;
            assert(result@ =~= before + repeat(byte, k as nat));
        }
        p = p + 1;
        assert(pair_count(data@, p - 1) == count);
        assert(pair_byte(data@, p - 1) == byte);
    }

    Ok(result)
}

/// Returns decompressed memory buffer that was compressed using bit compression.
pub fn bit_level_decompress(data: &[u8]) -> (result: Result<Vec<u8>, &'static str>)
    ensures
        bit_stream(data@).len() % 8 != 0 <==> result is Err,
        result matches Ok(v) ==> bits(v@) == bit_stream(data@) + bit_decompress_padding(data@),
        result matches Err(e) ==> e@ == "Bit bufor is misaligned"@,
{
    let mut result: Vec<u8> = Vec::new();

    if data.len() == 0 {
        assert(bits(result@) =~= Seq::<u8>::empty());
        assert(bit_stream(data@) =~= Seq::<u8>::empty());
        return Ok(result);
    }

    proof {
        lemma_bits_push_zero(result@);
        assert(bits(result@) =~= Seq::<u8>::empty());
        assert(data@.take(0) =~= Seq::<u8>::empty());
    }
    result.push(0u8);
    let mut curr_shf: u8 = 0;
    // counts every decoded bit: 127 bits for each cluster of any slice fit in 128 bits
    let mut total_cnt: u128 = 0;
    let ghost mut done: bool = false;

    let n = data.len();
    let mut i: usize = 0;
    while i < n
        invariant
            n == data@.len(),
            0 < n,
            i <= n,
            total_cnt == bit_stream(data@.take(i as int)).len(),
            total_cnt <= 127 * i,
            curr_shf == total_cnt % 8,
            done <==> (i == n && cluster_count(data@[n - 1]) > 0 && total_cnt % 8 == 0),
            result@.len() == total_cnt / 8 + (if done { 0int } else { 1int }),
            bits(result@) == bit_stream(data@.take(i as int)) + (if done {
                Seq::<u8>::empty()
            } else {
                repeat(0u8, (8 - curr_shf) as nat)
            }),
        decreases n - i,
    {
        let byte = data[i];
        let count = byte & 0x7fu8;
        let bit = (byte >> 7u8) & 1u8;
        let ghost base = bit_stream(data@.take(i as int));
        proof {
            lemma_bit_values(byte, 0);
            assert(data@.take(i + 1) =~= data@.take(i as int).push(byte));
            lemma_bit_stream_push(data@.take(i as int), byte);
        }
        total_cnt = total_cnt + count as u128;

        let mut j: u8 = 0;
        while j < count
            invariant
                n == data@.len(),
                0 < n,
                i < n,
                byte == data@[i as int],
                count == cluster_count(byte),
                bit == cluster_bit(byte),
                bit <= 1,
                j <= count,
                base.len() + count == total_cnt,
                curr_shf == (base.len() + j) % 8,
                done <==> (i == n - 1 && j == count && count > 0 && (base.len() + j) % 8 == 0),
                result@.len() == (base.len() + j) / 8 + (if done { 0int } else { 1int }),
                bits(result@) == base + repeat(bit, j as nat) + (if done {
                    Seq::<u8>::empty()
                } else {
                    repeat(0u8, (8 - curr_shf) as nat)
                }),
            decreases count - j,
        {
            let ghost before = base + repeat(bit, j as nat);
            let last = result.len() - 1;
            let prev = result[last];
            proof {
                lemma_bits_set_last(result@, before, bit, curr_shf);
                assert(base + repeat(bit, (j + 1) as nat) =~= before.push(bit));
            }
            result[last] = prev | (bit << curr_shf);
            curr_shf = curr_shf + 1;

            if curr_shf >= 8 {
                curr_shf = 0;
                if j < count - 1 || i < n - 1 {
                    proof {
                        lemma_bits_push_zero(result@);
                    }
                    result.push(0u8);
                } else {
                    proof {
                        done = true;
                    }
                }
            }
            j = j + 1;
            assert(bits(result@) =~= base + repeat(bit, j as nat) + (if done {
                Seq::<u8>::empty()
            } else {
                repeat(0u8, (8 - curr_shf) as nat)
            }));
        }
        i = i + 1;
        assert(repeat(bit, count as nat) == repeat(cluster_bit(byte), cluster_count(byte) as nat));
    }

    assert(data@.take(n as int) =~= data@);

    if total_cnt % 8 > 0 {
        return Err("Bit bufor is misaligned");
    }

    assert(bits(result@) =~= bit_stream(data@) + bit_decompress_padding(data@));
    Ok(result)
}

} // verus!
