//! Properties of the library as a whole: what decompression gives back of
//! compression, that compressed forms are canonical, how chunks combine, and
//! how the header byte identifies a level.

use vstd::prelude::*;
use crate::model::{
    is_byte_rle, byte_decode, pairs_decode, pair_count, is_bit_rle, bits, bit_stream,
    bit_decompress_padding, bit_decompress_fill, cluster_count,
    lemma_byte_rle_unique, lemma_byte_decode_concat, lemma_bit_rle_unique, lemma_bits_injective,
    lemma_bits_concat, lemma_bit_stream_concat, lemma_bit_stream_push, repeat, bit_at,
    cluster, lemma_cluster_fields, lemma_bits_index, lemma_byte_decode_push_pair,
};
use crate::file::filecompress::{
    CompressorLevel, is_compressed, is_decompressed, marker_of, level_from_marker,
    aligned_chunk_done,
};

verus! {

/// Byte-level decompression gives back exactly what byte-level compression
/// was given: the compressed form has whole pairs and expands to the data.
pub proof fn law_byte_roundtrip(data: Seq<u8>, compressed: Seq<u8>)
    requires
        is_byte_rle(compressed, data),
    ensures
        compressed.len() % 2 == 0,
        byte_decode(compressed) == data,
{
}

/// Byte-level compression writes at most two bytes per input byte: every
/// pair stands for at least one byte.
pub proof fn law_byte_compressed_size(data: Seq<u8>, compressed: Seq<u8>)
    requires
        is_byte_rle(compressed, data),
    ensures
        compressed.len() <= 2 * data.len(),
{
    lemma_pairs_cover(compressed, (compressed.len() / 2) as nat);
}

/// The first `n` pairs of an encoding whose counts are positive stand for at
/// least `n` bytes.
proof fn lemma_pairs_cover(c: Seq<u8>, n: nat)
    requires
        2 * n <= c.len(),
        forall|i: int| 0 <= i < c.len() / 2 ==> #[trigger] pair_count(c, i) >= 1,
    ensures
        pairs_decode(c, n).len() >= n,
    decreases n,
{
    if n > 0 {
        lemma_pairs_cover(c, (n - 1) as nat);
        assert(pair_count(c, n - 1) >= 1);
    }
}

/// Bit-level compression writes at most one cluster per input bit: every
/// cluster stands for at least one bit.
pub proof fn law_bit_compressed_size(data: Seq<u8>, compressed: Seq<u8>)
    requires
        is_bit_rle(compressed, bits(data)),
    ensures
        compressed.len() <= 8 * data.len(),
{
    lemma_clusters_cover(compressed);
    assert(bits(data).len() == 8 * data.len());
}

/// Clusters whose counts are positive stand for at least as many bits.
proof fn lemma_clusters_cover(c: Seq<u8>)
    requires
        forall|j: int| 0 <= j < c.len() ==> cluster_count(#[trigger] c[j]) >= 1,
    ensures
        bit_stream(c).len() >= c.len(),
    decreases c.len(),
{
    if c.len() > 0 {
        let h = c.drop_last();
        assert forall|j: int| 0 <= j < h.len() implies cluster_count(#[trigger] h[j]) >= 1 by {
            assert(h[j] == c[j]);
        }
        lemma_clusters_cover(h);
        assert(cluster_count(c[c.len() - 1]) >= 1);
    }
}

/// The byte-level compressed form of any data is unique: two compressed
/// forms of the same data are equal.
pub proof fn law_byte_canonical(a: Seq<u8>, b: Seq<u8>, data: Seq<u8>)
    requires
        is_byte_rle(a, data),
        is_byte_rle(b, data),
    ensures
        a == b,
{
    lemma_byte_rle_unique(a, b, data);
}

/// Byte-level decompression of a concatenation of whole-pair inputs is the
/// concatenation of their decompressions, so a compressed stream may be
/// decompressed in chunks of an even size.
pub proof fn law_byte_decompress_concat(a: Seq<u8>, b: Seq<u8>)
    requires
        a.len() % 2 == 0,
        b.len() % 2 == 0,
    ensures
        (a + b).len() % 2 == 0,
        byte_decode(a + b) == byte_decode(a) + byte_decode(b),
{
    lemma_byte_decode_concat(a, b);
}

/// Data compressed at the byte level in two chunks decompresses, as one
/// stream, to the two chunks one after the other.
pub proof fn law_byte_chunked_roundtrip(ca: Seq<u8>, cb: Seq<u8>, da: Seq<u8>, db: Seq<u8>)
    requires
        is_byte_rle(ca, da),
        is_byte_rle(cb, db),
    ensures
        (ca + cb).len() % 2 == 0,
        byte_decode(ca + cb) == da + db,
{
    lemma_byte_decode_concat(ca, cb);
}

/// Data compressed at the byte level in any number of chunks decompresses,
/// as one stream, to the chunks one after the other.
pub proof fn law_byte_chunks_roundtrip(cs: Seq<Seq<u8>>, ds: Seq<Seq<u8>>)
    requires
        cs.len() == ds.len(),
        forall|i: int| 0 <= i < cs.len() ==> is_byte_rle(#[trigger] cs[i], ds[i]),
    ensures
        cs.flatten().len() % 2 == 0,
        byte_decode(cs.flatten()) == ds.flatten(),
    decreases cs.len(),
{
    if cs.len() == 0 {
        assert(byte_decode(cs.flatten()) =~= Seq::<u8>::empty());
    } else {
        let rest_c = cs.drop_first();
        let rest_d = ds.drop_first();
        assert forall|i: int| 0 <= i < rest_c.len() implies is_byte_rle(#[trigger] rest_c[i], rest_d[i]) by {
            assert(rest_c[i] == cs[i + 1]);
            assert(rest_d[i] == ds[i + 1]);
        }
        law_byte_chunks_roundtrip(rest_c, rest_d);
        assert(is_byte_rle(cs[0], ds[0]));
        lemma_byte_decode_concat(cs[0], rest_c.flatten());
    }
}

/// Byte-level decompression of a stream cut into chunks of whole pairs is the
/// concatenation of the decompressions of the chunks.
pub proof fn law_byte_decompress_chunks(cs: Seq<Seq<u8>>)
    requires
        forall|i: int| 0 <= i < cs.len() ==> (#[trigger] cs[i]).len() % 2 == 0,
    ensures
        cs.flatten().len() % 2 == 0,
        byte_decode(cs.flatten()) == cs.map_values(|c: Seq<u8>| byte_decode(c)).flatten(),
    decreases cs.len(),
{
    let ds = cs.map_values(|c: Seq<u8>| byte_decode(c));
    if cs.len() == 0 {
        assert(byte_decode(cs.flatten()) =~= Seq::<u8>::empty());
    } else {
        let rest = cs.drop_first();
        assert forall|i: int| 0 <= i < rest.len() implies (#[trigger] rest[i]).len() % 2 == 0 by {
            assert(rest[i] == cs[i + 1]);
        }
        law_byte_decompress_chunks(rest);
        assert(cs[0].len() % 2 == 0);
        lemma_byte_decode_concat(cs[0], rest.flatten());
        assert(rest.map_values(|c: Seq<u8>| byte_decode(c)) =~= ds.drop_first());
    }
}

/// Bit-level decompression gives back exactly what bit-level compression was
/// given: the compressed form holds a whole number of bytes, so it is
/// accepted, and the bytes written hold the bits of the data.
pub proof fn law_bit_roundtrip(data: Seq<u8>, compressed: Seq<u8>, v: Seq<u8>)
    requires
        is_bit_rle(compressed, bits(data)),
        bits(v) == bit_stream(compressed) + bit_decompress_padding(compressed),
    ensures
        bit_stream(compressed).len() % 8 == 0,
        v == data,
{
    assert(bits(data).len() == 8 * data.len());
    if compressed.len() > 0 {
        assert(cluster_count(compressed[compressed.len() - 1]) >= 1);
    }
    assert(bit_decompress_padding(compressed) =~= Seq::<u8>::empty());
    assert(bits(v) =~= bits(data));
    lemma_bits_injective(v, data);
}

/// The bit-level compressed form of any bit sequence is unique.
pub proof fn law_bit_canonical(a: Seq<u8>, b: Seq<u8>, s: Seq<u8>)
    requires
        is_bit_rle(a, s),
        is_bit_rle(b, s),
    ensures
        a == b,
{
    lemma_bit_rle_unique(a, b, s);
}

/// Bit-level decompression of two inputs, the first of which holds a whole
/// number of bytes and does not end with an empty cluster, concatenates to
/// the decompression of their concatenation; the concatenation is accepted
/// exactly when the second input is.
pub proof fn law_bit_decompress_concat(a: Seq<u8>, b: Seq<u8>, va: Seq<u8>, vb: Seq<u8>)
    requires
        bit_stream(a).len() % 8 == 0,
        a.len() == 0 || cluster_count(a.last()) > 0,
        bits(va) == bit_stream(a) + bit_decompress_padding(a),
        bits(vb) == bit_stream(b) + bit_decompress_padding(b),
    ensures
        bit_stream(a + b).len() % 8 == bit_stream(b).len() % 8,
        bits(va + vb) == bit_stream(a + b) + bit_decompress_padding(a + b),
{
    lemma_bit_stream_concat(a, b);
    lemma_bits_concat(va, vb);
    assert(bit_decompress_padding(a) =~= Seq::<u8>::empty());
    if b.len() == 0 {
        assert(a + b =~= a);
        assert(bit_decompress_padding(b) =~= Seq::<u8>::empty());
        assert(bit_stream(b) =~= Seq::<u8>::empty());
    } else {
        assert((a + b).last() == b.last());
    }
    assert(bits(va + vb) =~= bit_stream(a + b) + bit_decompress_padding(a + b));
}

/// Data compressed at the bit level in two chunks decompresses, as one
/// stream, to the two chunks one after the other.
pub proof fn law_bit_chunked_roundtrip(
    ca: Seq<u8>,
    cb: Seq<u8>,
    da: Seq<u8>,
    db: Seq<u8>,
    v: Seq<u8>,
)
    requires
        is_bit_rle(ca, bits(da)),
        is_bit_rle(cb, bits(db)),
        bits(v) == bit_stream(ca + cb) + bit_decompress_padding(ca + cb),
    ensures
        bit_stream(ca + cb).len() % 8 == 0,
        v == da + db,
{
    lemma_bit_stream_concat(ca, cb);
    lemma_bits_concat(da, db);
    assert(bits(da).len() == 8 * da.len());
    assert(bits(db).len() == 8 * db.len());
    if cb.len() > 0 {
        assert(cluster_count(cb[cb.len() - 1]) >= 1);
        assert((ca + cb).last() == cb.last());
    } else if ca.len() > 0 {
        assert(ca + cb =~= ca);
        assert(cluster_count(ca[ca.len() - 1]) >= 1);
    }
    assert(bit_decompress_padding(ca + cb) =~= Seq::<u8>::empty());
    assert(bits(v) =~= bits(da + db));
    lemma_bits_injective(v, da + db);
}

/// Every cluster of chunks that all hold bits holds bits.
proof fn lemma_flatten_clusters_hold_bits(cs: Seq<Seq<u8>>)
    requires
        forall|i: int, j: int|
            0 <= i < cs.len() && 0 <= j < cs[i].len() ==> cluster_count(#[trigger] cs[i][j]) >= 1,
    ensures
        forall|j: int| 0 <= j < cs.flatten().len() ==> cluster_count(#[trigger] cs.flatten()[j]) >= 1,
    decreases cs.len(),
{
    if cs.len() > 0 {
        let rest = cs.drop_first();
        assert forall|i: int, j: int| 0 <= i < rest.len() && 0 <= j < rest[i].len() implies cluster_count(
            #[trigger] rest[i][j],
        ) >= 1 by {
            assert(rest[i] == cs[i + 1]);
        }
        lemma_flatten_clusters_hold_bits(rest);
        assert forall|j: int| 0 <= j < cs.flatten().len() implies cluster_count(
            #[trigger] cs.flatten()[j],
        ) >= 1 by {
            if j < cs[0].len() {
                assert(cs.flatten()[j] == cs[0][j]);
            } else {
                assert(cs.flatten()[j] == rest.flatten()[j - cs[0].len()]);
            }
        }
    }
}

/// The clusters of chunks that encode the bits of data chunks expand to the
/// bits of the data chunks one after the other.
proof fn lemma_bit_chunks_stream(cs: Seq<Seq<u8>>, ds: Seq<Seq<u8>>)
    requires
        cs.len() == ds.len(),
        forall|i: int| 0 <= i < cs.len() ==> is_bit_rle(#[trigger] cs[i], bits(ds[i])),
    ensures
        bit_stream(cs.flatten()) == bits(ds.flatten()),
    decreases cs.len(),
{
    if cs.len() == 0 {
        assert(bit_stream(cs.flatten()) =~= Seq::<u8>::empty());
        assert(bits(ds.flatten()) =~= Seq::<u8>::empty());
    } else {
        let rest_c = cs.drop_first();
        let rest_d = ds.drop_first();
        assert forall|i: int| 0 <= i < rest_c.len() implies is_bit_rle(#[trigger] rest_c[i], bits(rest_d[i])) by {
            assert(rest_c[i] == cs[i + 1]);
            assert(rest_d[i] == ds[i + 1]);
        }
        lemma_bit_chunks_stream(rest_c, rest_d);
        assert(is_bit_rle(cs[0], bits(ds[0])));
        lemma_bit_stream_concat(cs[0], rest_c.flatten());
        lemma_bits_concat(ds[0], rest_d.flatten());
    }
}

/// Data compressed at the bit level in any number of chunks decompresses, as
/// one stream, to the chunks one after the other.
pub proof fn law_bit_chunks_roundtrip(cs: Seq<Seq<u8>>, ds: Seq<Seq<u8>>, v: Seq<u8>)
    requires
        cs.len() == ds.len(),
        forall|i: int| 0 <= i < cs.len() ==> is_bit_rle(#[trigger] cs[i], bits(ds[i])),
        bits(v) == bit_stream(cs.flatten()) + bit_decompress_padding(cs.flatten()),
    ensures
        bit_stream(cs.flatten()).len() % 8 == 0,
        v == ds.flatten(),
{
    lemma_bit_chunks_stream(cs, ds);
    assert forall|i: int, j: int| 0 <= i < cs.len() && 0 <= j < cs[i].len() implies cluster_count(
        #[trigger] cs[i][j],
    ) >= 1 by {
        assert(is_bit_rle(cs[i], bits(ds[i])));
    }
    lemma_flatten_clusters_hold_bits(cs);
    let c = cs.flatten();
    if c.len() > 0 {
        assert(cluster_count(c[c.len() - 1]) >= 1);
    }
    assert(bit_decompress_padding(c) =~= Seq::<u8>::empty());
    assert(bits(ds.flatten()).len() == 8 * ds.flatten().len());
    assert(bits(v) =~= bits(ds.flatten()));
    lemma_bits_injective(v, ds.flatten());
}

/// Bit-level decompression of a stream cut into chunks, each but the last of
/// which holds a whole number of bytes and does not end with an empty
/// cluster, is the concatenation of the decompressions of the chunks.
pub proof fn law_bit_decompress_chunks(cs: Seq<Seq<u8>>, vs: Seq<Seq<u8>>)
    requires
        cs.len() == vs.len(),
        forall|i: int|
            0 <= i < cs.len() - 1 ==> bit_stream(#[trigger] cs[i]).len() % 8 == 0 && (cs[i].len()
                == 0 || cluster_count(cs[i].last()) > 0),
        forall|i: int|
            0 <= i < cs.len() ==> bits(#[trigger] vs[i]) == bit_stream(cs[i])
                + bit_decompress_padding(cs[i]),
    ensures
        bits(vs.flatten()) == bit_stream(cs.flatten()) + bit_decompress_padding(cs.flatten()),
    decreases cs.len(),
{
    if cs.len() == 0 {
        assert(bits(vs.flatten()) =~= Seq::<u8>::empty());
        assert(bit_stream(cs.flatten()) =~= Seq::<u8>::empty());
        assert(bit_decompress_padding(cs.flatten()) =~= Seq::<u8>::empty());
    } else if cs.len() == 1 {
        assert(cs.flatten() =~= cs[0]) by {
            cs.lemma_flatten_one_element();
        }
        assert(vs.flatten() =~= vs[0]) by {
            vs.lemma_flatten_one_element();
        }
        assert(bits(vs[0]) == bit_stream(cs[0]) + bit_decompress_padding(cs[0]));
    } else {
        let rest_c = cs.drop_first();
        let rest_v = vs.drop_first();
        assert forall|i: int| 0 <= i < rest_c.len() - 1 implies bit_stream(#[trigger] rest_c[i]).len() % 8
            == 0 && (rest_c[i].len() == 0 || cluster_count(rest_c[i].last()) > 0) by {
            assert(rest_c[i] == cs[i + 1]);
        }
        assert forall|i: int| 0 <= i < rest_c.len() implies bits(#[trigger] rest_v[i]) == bit_stream(
            rest_c[i],
        ) + bit_decompress_padding(rest_c[i]) by {
            assert(rest_c[i] == cs[i + 1]);
            assert(rest_v[i] == vs[i + 1]);
        }
        law_bit_decompress_chunks(rest_c, rest_v);
        assert(bit_stream(cs[0]).len() % 8 == 0);
        assert(bits(vs[0]) == bit_stream(cs[0]) + bit_decompress_padding(cs[0]));
        law_bit_decompress_concat(cs[0], rest_c.flatten(), vs[0], rest_v.flatten());
    }
}

/// A chunk that the aligned reader ends after its last cluster, and not
/// before, holds a whole number of bytes and does not end with an empty
/// cluster, so it decompresses on its own.
pub proof fn law_aligned_chunk_stands_alone(a: Seq<u8>, chunk_size: int)
    requires
        a.len() > 0,
        aligned_chunk_done(bit_stream(a).len() as int, chunk_size),
        !aligned_chunk_done(bit_stream(a.drop_last()).len() as int, chunk_size),
    ensures
        bit_stream(a).len() % 8 == 0,
        cluster_count(a.last()) > 0,
{
    assert(a.drop_last().push(a.last()) =~= a);
    lemma_bit_stream_push(a.drop_last(), a.last());
}

/// The bit-level decompressor of [`rlecompress`](crate::rlecompress) gives
/// back exactly what bit-level compression was given.
pub proof fn law_rle_bit_roundtrip(data: Seq<u8>, compressed: Seq<u8>, v: Seq<u8>)
    requires
        is_bit_rle(compressed, bits(data)),
        bits(v) == bit_stream(compressed) + bit_decompress_fill(compressed),
    ensures
        v == data,
{
    assert(bits(data).len() == 8 * data.len());
    if compressed.len() > 0 {
        assert(cluster_count(compressed[compressed.len() - 1]) >= 1);
    }
    assert(bit_decompress_fill(compressed) =~= Seq::<u8>::empty());
    assert(bits(v) =~= bits(data));
    lemma_bits_injective(v, data);
}

/// On input that holds a whole number of bytes, the bit-level decompressor
/// of [`rlecompress`](crate::rlecompress) writes what that of
/// [`memcompress`](crate::memcompress) writes.
pub proof fn law_bit_decompressors_agree(c: Seq<u8>)
    requires
        bit_stream(c).len() % 8 == 0,
    ensures
        bit_decompress_fill(c) == bit_decompress_padding(c),
{
    assert(bit_decompress_fill(c) =~= bit_decompress_padding(c));
}

/// A level compresses data into a form that the same level decompresses
/// back to that data: what the closure of `get_compressor_fn` returns (its
/// `ensures` is `is_compressed`), the closure of `get_decompressor_fn` of the
/// same level (its `ensures` is `is_decompressed`) turns into `Ok` of the
/// data.
pub proof fn law_level_roundtrip(
    level: CompressorLevel,
    data: Seq<u8>,
    compressed: Seq<u8>,
    r: Result<Vec<u8>, &'static str>,
)
    requires
        is_compressed(level, compressed, data),
        is_decompressed(level, compressed, r),
    ensures
        r matches Ok(v) && v@ == data,
{
    match level {
        CompressorLevel::CompressorBitLevel => {
            if let Ok(v) = r {
                law_bit_roundtrip(data, compressed, v@);
            } else {
                assert(bits(data).len() == 8 * data.len());
                if compressed.len() > 0 {
                    assert(cluster_count(compressed[compressed.len() - 1]) >= 1);
                }
            }
        },
        CompressorLevel::CompressorByteLevel => {},
    }
}

/// The same law over the closures themselves: `f` and `g` stand for what
/// `get_compressor_fn` and `get_decompressor_fn` of `level` return, as their
/// `ensures` describe them; `g`, called on what `f` returned for `b`, returns
/// `Ok` of `b`.
pub proof fn law_level_fns_roundtrip<F, G>(
    level: CompressorLevel,
    f: F,
    g: G,
    b: &[u8],
    compressed: Vec<u8>,
    input: &[u8],
    r: Result<Vec<u8>, &'static str>,
) where F: Fn(&[u8]) -> Vec<u8>, G: Fn(&[u8]) -> Result<Vec<u8>, &'static str>
    requires
        forall|buff: &[u8], out: Vec<u8>|
            call_ensures(f, (buff,), out) ==> is_compressed(level, out@, buff@),
        forall|buff: &[u8], out: Result<Vec<u8>, &'static str>|
            call_ensures(g, (buff,), out) ==> is_decompressed(level, buff@, out),
        call_ensures(f, (b,), compressed),
        input@ == compressed@,
        call_ensures(g, (input,), r),
    ensures
        r matches Ok(v) && v@ == b@,
{
    law_level_roundtrip(level, b@, compressed@, r);
}

/// A level's compressor gives one result for given data: any two results
/// that it may return for the same data are equal.
pub proof fn law_level_compressor_deterministic(
    level: CompressorLevel,
    a: Seq<u8>,
    b: Seq<u8>,
    data: Seq<u8>,
)
    requires
        is_compressed(level, a, data),
        is_compressed(level, b, data),
    ensures
        a == b,
{
    match level {
        CompressorLevel::CompressorBitLevel => lemma_bit_rle_unique(a, b, bits(data)),
        CompressorLevel::CompressorByteLevel => lemma_byte_rle_unique(a, b, data),
    }
}

/// The byte-level compressor of a level writes what
/// [`byte_level_compress`](crate::memcompress::byte_level_compress) writes:
/// anything that meets the contract of the latter on the same data.
pub proof fn law_byte_level_compressor_is_byte_level_compress(c: Seq<u8>, m: Seq<u8>, data: Seq<u8>)
    requires
        is_compressed(CompressorLevel::CompressorByteLevel, c, data),
        is_byte_rle(m, data),
    ensures
        c == m,
{
    lemma_byte_rle_unique(c, m, data);
}

/// The byte-level compressor merges a run of up to 255 equal bytes into a
/// single pair.
pub proof fn law_byte_level_compressor_merges_run(x: u8, n: nat, c: Seq<u8>)
    requires
        1 <= n <= 255,
        is_compressed(CompressorLevel::CompressorByteLevel, c, repeat(x, n)),
    ensures
        c == seq![n as u8, x],
{
    let e = seq![n as u8, x];
    assert(e =~= Seq::<u8>::empty().push(n as u8).push(x));
    lemma_byte_decode_push_pair(Seq::<u8>::empty(), n as u8, x);
    assert(byte_decode(Seq::<u8>::empty()) =~= Seq::<u8>::empty());
    assert(byte_decode(e) =~= repeat(x, n));
    assert(pair_count(e, 0) == n);
    assert(is_byte_rle(e, repeat(x, n)));
    lemma_byte_rle_unique(c, e, repeat(x, n));
}

/// The bit-level compressor merges up to fifteen zero bytes, or fifteen
/// bytes of all ones, into a single cluster.
pub proof fn law_bit_level_compressor_merges_run(x: u8, m: nat, c: Seq<u8>)
    requires
        x == 0x00 || x == 0xFF,
        1 <= m <= 15,
        is_compressed(CompressorLevel::CompressorBitLevel, c, repeat(x, m)),
    ensures
        c == seq![cluster((8 * m) as u8, if x == 0xFF { 1u8 } else { 0u8 })],
{
    let b: u8 = if x == 0xFF { 1u8 } else { 0u8 };
    let cnt = (8 * m) as u8;
    let e = seq![cluster(cnt, b)];
    lemma_bit_rle_single_run(cnt, b);
    lemma_bits_of_uniform(x, m);
    lemma_bit_rle_unique(c, e, bits(repeat(x, m)));
}

/// A single cluster of `cnt` copies of `b` encodes `cnt` copies of `b`.
proof fn lemma_bit_rle_single_run(cnt: u8, b: u8)
    requires
        1 <= cnt <= 127,
        b <= 1,
    ensures
        is_bit_rle(seq![cluster(cnt, b)], repeat(b, cnt as nat)),
{
    lemma_cluster_fields(cnt, b);
    assert(seq![cluster(cnt, b)] =~= Seq::<u8>::empty().push(cluster(cnt, b)));
    lemma_bit_stream_push(Seq::<u8>::empty(), cluster(cnt, b));
    assert(bit_stream(Seq::<u8>::empty()) =~= Seq::<u8>::empty());
    assert(bit_stream(seq![cluster(cnt, b)]) =~= repeat(b, cnt as nat));
}

/// The bits of `m` zero bytes are zeros, and those of `m` bytes of all ones
/// are ones.
proof fn lemma_bits_of_uniform(x: u8, m: nat)
    requires
        x == 0x00 || x == 0xFF,
    ensures
        bits(repeat(x, m)) == repeat(if x == 0xFF { 1u8 } else { 0u8 }, 8 * m),
{
    let b: u8 = if x == 0xFF { 1u8 } else { 0u8 };
    let d = repeat(x, m);
    assert forall|t: int| 0 <= t < 8 * m implies #[trigger] bits(d)[t] == b by {
        let i = t / 8;
        let k = t % 8;
        assert(t == 8 * i + k);
        lemma_bits_index(d, i, k);
        lemma_uniform_byte_bits(x, k as u8);
    }
    assert(bits(d) =~= repeat(b, 8 * m));
}

/// Every bit of a zero byte is 0 and every bit of `0xFF` is 1.
proof fn lemma_uniform_byte_bits(x: u8, k: u8)
    requires
        x == 0x00 || x == 0xFF,
        k < 8,
    ensures
        bit_at(x, k) == if x == 0xFF { 1u8 } else { 0u8 },
{
    assert(k < 8 ==> (0xFFu8 >> k) & 1u8 == 1u8) by (bit_vector);
    assert((0x00u8 >> k) & 1u8 == 0u8) by (bit_vector);
}

/// The byte-level decompressor accepts exactly the inputs of even length,
/// canonical or not.
pub proof fn law_byte_level_decompressor_accepts_even(
    data: Seq<u8>,
    r: Result<Vec<u8>, &'static str>,
)
    requires
        is_decompressed(CompressorLevel::CompressorByteLevel, data, r),
    ensures
        r is Ok <==> data.len() % 2 == 0,
{
}

/// The byte-level decompressor expands a single pair into `count` copies of
/// its byte.
pub proof fn law_byte_level_decompressor_expands_pair(
    count: u8,
    x: u8,
    r: Result<Vec<u8>, &'static str>,
)
    requires
        is_decompressed(CompressorLevel::CompressorByteLevel, seq![count, x], r),
    ensures
        r matches Ok(v) && v@ == repeat(x, count as nat),
{
    let e = seq![count, x];
    assert(e =~= Seq::<u8>::empty().push(count).push(x));
    lemma_byte_decode_push_pair(Seq::<u8>::empty(), count, x);
    assert(byte_decode(Seq::<u8>::empty()) =~= Seq::<u8>::empty());
    assert(byte_decode(e) =~= repeat(x, count as nat));
}

/// The byte-level decompressor of a concatenation of even-length inputs
/// returns the concatenation of what it returns for each, so a stream of
/// chunks compressed apart, whose runs may be split across chunks,
/// decompresses to the chunks one after the other.
pub proof fn law_byte_level_decompressor_concat(
    a: Seq<u8>,
    b: Seq<u8>,
    ra: Result<Vec<u8>, &'static str>,
    rb: Result<Vec<u8>, &'static str>,
    rab: Result<Vec<u8>, &'static str>,
)
    requires
        a.len() % 2 == 0,
        b.len() % 2 == 0,
        is_decompressed(CompressorLevel::CompressorByteLevel, a, ra),
        is_decompressed(CompressorLevel::CompressorByteLevel, b, rb),
        is_decompressed(CompressorLevel::CompressorByteLevel, a + b, rab),
    ensures
        ra is Ok,
        rb is Ok,
        rab matches Ok(vab) && vab@ == ra->Ok_0@ + rb->Ok_0@,
{
    lemma_byte_decode_concat(a, b);
}

/// The bit-level decompressor of a concatenation, whose first input holds a
/// whole number of bytes and does not end with an empty cluster, returns
/// the concatenation of what it returns for each, and accepts it exactly
/// when it accepts the second input.
pub proof fn law_bit_level_decompressor_concat(
    a: Seq<u8>,
    b: Seq<u8>,
    ra: Result<Vec<u8>, &'static str>,
    rb: Result<Vec<u8>, &'static str>,
    rab: Result<Vec<u8>, &'static str>,
)
    requires
        bit_stream(a).len() % 8 == 0,
        a.len() == 0 || cluster_count(a.last()) > 0,
        is_decompressed(CompressorLevel::CompressorBitLevel, a, ra),
        is_decompressed(CompressorLevel::CompressorBitLevel, b, rb),
        is_decompressed(CompressorLevel::CompressorBitLevel, a + b, rab),
    ensures
        ra is Ok,
        rab is Ok <==> rb is Ok,
        rb is Ok ==> (rab matches Ok(vab) && vab@ == ra->Ok_0@ + rb->Ok_0@),
{
    lemma_bit_stream_concat(a, b);
    if rb is Ok {
        let va = ra->Ok_0@;
        let vb = rb->Ok_0@;
        let vab = rab->Ok_0@;
        law_bit_decompress_concat(a, b, va, vb);
        lemma_bits_injective(vab, va + vb);
    }
}

/// The header byte of a level identifies that level, and only the header
/// bytes of the levels identify one.
pub proof fn law_marker_roundtrip(level: CompressorLevel, v: u8)
    ensures
        level_from_marker(marker_of(level)) == Some(level),
        level_from_marker(v) matches Some(l) ==> marker_of(l) == v,
{
}

} // verus!
