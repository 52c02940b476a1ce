//! The mathematical model of both encodings.
//!
//! A byte-level encoding is a flat sequence of `(count, byte)` pairs; it
//! stands for `count` copies of `byte`, pair after pair.
//!
//! A bit-level encoding is a sequence of clusters; the lower seven bits of a
//! cluster hold a count and its highest bit the value of a bit; it stands for
//! `count` copies of that bit, cluster after cluster. Bytes are read and
//! written least significant bit first.

use vstd::prelude::*;

verus! {

/// Greatest count that one byte-level pair can hold.
pub const MAX_CNT_BYTE_LV_CLUSTER: u8 = 255u8;

/// Greatest count that one bit-level cluster can hold (seven bits).
pub const MAX_CNT_BIT_LV_CLUSTER: u8 = 127u8;

/// `n` copies of `x`.
pub open spec fn repeat(x: u8, n: nat) -> Seq<u8> {
    Seq::new(n, |_i: int| x)
}

// ---------------------------------------------------------------------------
// Byte level
// ---------------------------------------------------------------------------

/// Count of the `i`-th pair of a byte-level encoding.
pub open spec fn pair_count(c: Seq<u8>, i: int) -> u8 {
    c[2 * i]
}

/// Byte of the `i`-th pair of a byte-level encoding.
pub open spec fn pair_byte(c: Seq<u8>, i: int) -> u8 {
    c[2 * i + 1]
}

/// The bytes that the first `n` pairs of `c` stand for.
pub open spec fn pairs_decode(c: Seq<u8>, n: nat) -> Seq<u8>
    decreases n,
{
    if n == 0 {
        Seq::empty()
    } else {
        pairs_decode(c, (n - 1) as nat) + repeat(pair_byte(c, n - 1), pair_count(c, n - 1) as nat)
    }
}

/// The bytes that a byte-level encoding stands for (a lone trailing byte of
/// an odd-length sequence belongs to no pair).
pub open spec fn byte_decode(c: Seq<u8>) -> Seq<u8> {
    pairs_decode(c, (c.len() / 2) as nat)
}

/// `c` is the byte-level encoding of `data` that the compressor produces:
/// whole pairs, each with a count of at least one, a pair followed by a pair
/// of the same byte only when it is full, and the pairs expand to `data`.
pub open spec fn is_byte_rle(c: Seq<u8>, data: Seq<u8>) -> bool {
    &&& c.len() % 2 == 0
    &&& forall|i: int| 0 <= i < c.len() / 2 ==> #[trigger] pair_count(c, i) >= 1
    &&& forall|i: int|
        0 <= i < c.len() / 2 - 1 ==> (#[trigger] pair_byte(c, i) != pair_byte(c, i + 1)
            || pair_count(c, i) == MAX_CNT_BYTE_LV_CLUSTER)
    &&& byte_decode(c) == data
}

/// Two sequences that agree on their first `n` pairs decode them alike.
pub proof fn lemma_pairs_decode_prefix(c1: Seq<u8>, c2: Seq<u8>, n: nat)
    requires
        2 * n <= c1.len(),
        2 * n <= c2.len(),
        c1.take(2 * n as int) == c2.take(2 * n as int),
    ensures
        pairs_decode(c1, n) == pairs_decode(c2, n),
    decreases n,
{
    if n > 0 {
        assert(c1.take(2 * n as int)[2 * (n - 1)] == c1[2 * (n - 1)]);
        assert(c1.take(2 * n as int)[2 * (n - 1) + 1] == c1[2 * (n - 1) + 1]);
        assert(c2.take(2 * n as int)[2 * (n - 1)] == c2[2 * (n - 1)]);
        assert(c2.take(2 * n as int)[2 * (n - 1) + 1] == c2[2 * (n - 1) + 1]);
        assert(c1.take(2 * (n - 1)) =~= c1.take(2 * n as int).take(2 * (n - 1)));
        assert(c2.take(2 * (n - 1)) =~= c2.take(2 * n as int).take(2 * (n - 1)));
        lemma_pairs_decode_prefix(c1, c2, (n - 1) as nat);
    }
}

/// Appending a pair to an even-length encoding appends its run.
pub proof fn lemma_byte_decode_push_pair(c: Seq<u8>, cnt: u8, b: u8)
    requires
        c.len() % 2 == 0,
    ensures
        byte_decode(c.push(cnt).push(b)) == byte_decode(c) + repeat(b, cnt as nat),
{
    let d = c.push(cnt).push(b);
    let n = (c.len() / 2) as nat;
    assert(d.len() / 2 == n + 1);
    assert(d.take(2 * n as int) =~= c.take(2 * n as int));
    assert(c.take(2 * n as int) =~= c);
    lemma_pairs_decode_prefix(d, c, n);
    assert(pair_count(d, n as int) == cnt);
    assert(pair_byte(d, n as int) == b);
}


/// One more copy of the byte of the last pair, when it is not full.
pub proof fn lemma_byte_rle_grow_last(r: Seq<u8>, cnt: u8, b: u8, s: Seq<u8>)
    requires
        r.len() % 2 == 0,
        is_byte_rle(r.push(cnt).push(b), s),
        1 <= cnt < MAX_CNT_BYTE_LV_CLUSTER,
    ensures
        is_byte_rle(r.push((cnt + 1) as u8).push(b), s.push(b)),
{
    let pending = r.push(cnt).push(b);
    let next = r.push((cnt + 1) as u8).push(b);
    let n = r.len() / 2;
    lemma_byte_decode_push_pair(r, cnt, b);
    lemma_byte_decode_push_pair(r, (cnt + 1) as u8, b);
    assert(repeat(b, (cnt + 1) as nat) =~= repeat(b, cnt as nat).push(b));
    assert(byte_decode(next) =~= byte_decode(pending).push(b));
    assert forall|k: int| 0 <= k < next.len() / 2 implies #[trigger] pair_count(next, k) >= 1 by {
        if k < n {
            assert(pair_count(next, k) == pair_count(pending, k));
        }
    }
    assert forall|k: int| 0 <= k < next.len() / 2 - 1 implies (#[trigger] pair_byte(next, k)
        != pair_byte(next, k + 1) || pair_count(next, k) == MAX_CNT_BYTE_LV_CLUSTER) by {
        assert(pair_byte(next, k) == pair_byte(pending, k));
        assert(pair_byte(next, k + 1) == pair_byte(pending, k + 1));
        assert(pair_count(next, k) == pair_count(pending, k));
    }
}

/// A new pair of one byte, after a pair of another byte or a full one.
pub proof fn lemma_byte_rle_new_pair(r: Seq<u8>, cnt: u8, b: u8, s: Seq<u8>, x: u8)
    requires
        r.len() % 2 == 0,
        is_byte_rle(r.push(cnt).push(b), s),
        cnt >= 1,
        x != b || cnt == MAX_CNT_BYTE_LV_CLUSTER,
    ensures
        is_byte_rle(r.push(cnt).push(b).push(1u8).push(x), s.push(x)),
{
    let pending = r.push(cnt).push(b);
    let next = pending.push(1u8).push(x);
    let n = pending.len() / 2;
    lemma_byte_decode_push_pair(pending, 1u8, x);
    assert(repeat(x, 1) =~= seq![x]);
    assert(byte_decode(next) =~= byte_decode(pending).push(x));
    assert forall|k: int| 0 <= k < next.len() / 2 implies #[trigger] pair_count(next, k) >= 1 by {
        if k < n {
            assert(pair_count(next, k) == pair_count(pending, k));
        }
    }
    assert forall|k: int| 0 <= k < next.len() / 2 - 1 implies (#[trigger] pair_byte(next, k)
        != pair_byte(next, k + 1) || pair_count(next, k) == MAX_CNT_BYTE_LV_CLUSTER) by {
        assert(pair_byte(next, k) == pair_byte(pending, k));
        assert(pair_count(next, k) == pair_count(pending, k));
        if k + 1 < n {
            assert(pair_byte(next, k + 1) == pair_byte(pending, k + 1));
        } else {
            assert(pair_byte(pending, k) == b);
            assert(pair_count(pending, k) == cnt);
        }
    }
}

/// Decoding distributes over the concatenation of whole-pair encodings.
pub proof fn lemma_byte_decode_concat(a: Seq<u8>, b: Seq<u8>)
    requires
        a.len() % 2 == 0,
        b.len() % 2 == 0,
    ensures
        byte_decode(a + b) == byte_decode(a) + byte_decode(b),
    decreases b.len(),
{
    if b.len() == 0 {
        assert(a + b =~= a);
        assert(byte_decode(b) =~= Seq::<u8>::empty());
        assert(byte_decode(a) + byte_decode(b) =~= byte_decode(a));
    } else {
        let b0 = b.take(b.len() - 2);
        let cnt = b[b.len() - 2];
        let x = b[b.len() - 1];
        assert(b =~= b0.push(cnt).push(x));
        assert(a + b =~= (a + b0).push(cnt).push(x));
        lemma_byte_decode_concat(a, b0);
        lemma_byte_decode_push_pair(a + b0, cnt, x);
        lemma_byte_decode_push_pair(b0, cnt, x);
        assert(byte_decode(a + b) =~= byte_decode(a) + byte_decode(b));
    }
}

/// The first pair of a whole-pair encoding expands first.
pub proof fn lemma_byte_decode_first_pair(c: Seq<u8>)
    requires
        c.len() % 2 == 0,
        c.len() >= 2,
    ensures
        byte_decode(c) == repeat(c[1], c[0] as nat) + byte_decode(c.skip(2)),
{
    let head = c.take(2);
    assert(c =~= head + c.skip(2));
    lemma_byte_decode_concat(head, c.skip(2));
    assert(head =~= Seq::<u8>::empty().push(c[0]).push(c[1]));
    lemma_byte_decode_push_pair(Seq::<u8>::empty(), c[0], c[1]);
    assert(byte_decode(Seq::<u8>::empty()) =~= Seq::<u8>::empty());
    assert(byte_decode(head) =~= repeat(c[1], c[0] as nat));
}

/// The tail of a canonical encoding is the canonical encoding of what
/// follows the first run.
pub proof fn lemma_byte_rle_tail(c: Seq<u8>, data: Seq<u8>)
    requires
        is_byte_rle(c, data),
        c.len() >= 2,
    ensures
        is_byte_rle(c.skip(2), data.skip(c[0] as int)),
        data.len() >= c[0],
        data.take(c[0] as int) == repeat(c[1], c[0] as nat),
{
    let t = c.skip(2);
    lemma_byte_decode_first_pair(c);
    assert(pair_count(c, 0) >= 1);
    assert forall|k: int| 0 <= k < t.len() / 2 implies #[trigger] pair_count(t, k) >= 1 by {
        assert(pair_count(t, k) == pair_count(c, k + 1));
    }
    assert forall|k: int| 0 <= k < t.len() / 2 - 1 implies (#[trigger] pair_byte(t, k) != pair_byte(t, k + 1)
        || pair_count(t, k) == MAX_CNT_BYTE_LV_CLUSTER) by {
        assert(pair_byte(t, k) == pair_byte(c, k + 1));
        assert(pair_byte(t, k + 1) == pair_byte(c, k + 2));
        assert(pair_count(t, k) == pair_count(c, k + 1));
    }
    assert(data.skip(c[0] as int) =~= byte_decode(t));
    assert(data.take(c[0] as int) =~= repeat(c[1], c[0] as nat));
}

/// The first byte of what a canonical encoding stands for is the byte of
/// its first pair.
pub proof fn lemma_byte_rle_first(c: Seq<u8>, data: Seq<u8>)
    requires
        is_byte_rle(c, data),
        c.len() >= 2,
    ensures
        data.len() >= 1,
        data[0] == c[1],
{
    lemma_byte_rle_tail(c, data);
    assert(pair_count(c, 0) >= 1);
    assert(data.take(c[0] as int)[0] == data[0]);
}

/// A canonical byte-level encoding of `data` is unique.
pub proof fn lemma_byte_rle_unique(a: Seq<u8>, b: Seq<u8>, data: Seq<u8>)
    requires
        is_byte_rle(a, data),
        is_byte_rle(b, data),
    ensures
        a == b,
    decreases a.len(),
{
    if a.len() == 0 || b.len() == 0 {
        if a.len() != 0 {
            lemma_byte_rle_first(a, data);
            assert(byte_decode(b) =~= Seq::<u8>::empty());
        } else if b.len() != 0 {
            lemma_byte_rle_first(b, data);
            assert(byte_decode(a) =~= Seq::<u8>::empty());
        }
        assert(a =~= b);
    } else {
        lemma_byte_rle_first(a, data);
        lemma_byte_rle_first(b, data);
        lemma_byte_rle_tail(a, data);
        lemma_byte_rle_tail(b, data);
        let x = a[1];
        let ca = a[0] as int;
        let cb = b[0] as int;
        lemma_byte_rle_first_run_not_shorter(a, b, data);
        lemma_byte_rle_first_run_not_shorter(b, a, data);
        assert(ca == cb);
        lemma_byte_rle_unique(a.skip(2), b.skip(2), data.skip(ca));
        assert(a =~= a.take(2) + a.skip(2));
        assert(b =~= b.take(2) + b.skip(2));
        assert(a.take(2) =~= b.take(2));
    }
}

/// No canonical encoding begins with a shorter run than another one of the
/// same data.
proof fn lemma_byte_rle_first_run_not_shorter(a: Seq<u8>, b: Seq<u8>, data: Seq<u8>)
    requires
        is_byte_rle(a, data),
        is_byte_rle(b, data),
        a.len() >= 2,
        b.len() >= 2,
    ensures
        a[0] >= b[0],
{
    lemma_byte_rle_first(a, data);
    lemma_byte_rle_first(b, data);
    lemma_byte_rle_tail(a, data);
    lemma_byte_rle_tail(b, data);
    let ca = a[0] as int;
    if ca < b[0] {
        // `data[ca]` lies inside the first run of `b`, so it repeats the first byte
        assert(data.take(b[0] as int)[ca] == data[ca]);
        assert(data[ca] == a[1]);
        // but the first run of `a` is not full, so `data[ca]` starts another byte
        if a.len() == 2 {
            assert(byte_decode(a.skip(2)) =~= Seq::<u8>::empty());
            assert(data.skip(ca).len() == 0);
        } else {
            assert(pair_byte(a, 0) != pair_byte(a, 1) || pair_count(a, 0) == MAX_CNT_BYTE_LV_CLUSTER);
            lemma_byte_rle_first(a.skip(2), data.skip(ca));
            assert(data.skip(ca)[0] == data[ca]);
        }
    }
}


// ---------------------------------------------------------------------------
// Bit level
// ---------------------------------------------------------------------------

/// Bit `k` of `b` (0 is the least significant), as 0 or 1.
pub open spec fn bit_at(b: u8, k: u8) -> u8 {
    (b >> k) & 1u8
}

/// The bits of `data`, byte after byte, least significant bit first.
pub open spec fn bits(data: Seq<u8>) -> Seq<u8> {
    Seq::new(data.len() * 8, |t: int| bit_at(data[t / 8], (t % 8) as u8))
}

/// Count held in the lower seven bits of a cluster.
pub open spec fn cluster_count(c: u8) -> u8 {
    c & 0x7fu8
}

/// Bit value held in the highest bit of a cluster.
pub open spec fn cluster_bit(c: u8) -> u8 {
    (c >> 7u8) & 1u8
}

/// The cluster of `cnt` copies of bit `b`.
pub open spec fn cluster(cnt: u8, b: u8) -> u8 {
    cnt | (b << 7u8)
}

/// The bits that the clusters of `c` stand for.
pub open spec fn bit_stream(c: Seq<u8>) -> Seq<u8>
    decreases c.len(),
{
    if c.len() == 0 {
        Seq::empty()
    } else {
        bit_stream(c.drop_last()) + repeat(cluster_bit(c.last()), cluster_count(c.last()) as nat)
    }
}

/// `c` is the bit-level encoding of the bit sequence `stream` that the
/// compressor produces: every cluster holds at least one bit, a cluster is
/// followed by a cluster of the same bit only when it is full, and the
/// clusters expand to `stream`.
pub open spec fn is_bit_rle(c: Seq<u8>, stream: Seq<u8>) -> bool {
    &&& forall|j: int| 0 <= j < c.len() ==> cluster_count(#[trigger] c[j]) >= 1
    &&& forall|j: int|
        0 <= j < c.len() - 1 ==> (cluster_bit(#[trigger] c[j]) != cluster_bit(c[j + 1])
            || cluster_count(c[j]) == MAX_CNT_BIT_LV_CLUSTER)
    &&& bit_stream(c) == stream
}

/// A cluster keeps the count and the bit that it was made of.
pub proof fn lemma_cluster_fields(cnt: u8, b: u8)
    requires
        cnt <= 127,
        b <= 1,
    ensures
        cluster_count(cluster(cnt, b)) == cnt,
        cluster_bit(cluster(cnt, b)) == b,
{
    assert(cnt <= 127 && b <= 1 ==> (cnt | (b << 7u8)) & 0x7fu8 == cnt) by (bit_vector);
    assert(cnt <= 127 && b <= 1 ==> ((cnt | (b << 7u8)) >> 7u8) & 1u8 == b) by (bit_vector);
}

/// A bit of a byte is 0 or 1, and so is the bit of a cluster; a cluster
/// counts at most 127 bits.
pub proof fn lemma_bit_values(b: u8, k: u8)
    ensures
        bit_at(b, k) <= 1,
        cluster_bit(b) <= 1,
        cluster_count(b) <= 127,
{
    assert(b & 0x7fu8 <= 127) by (bit_vector);
    assert((b >> k) & 1u8 <= 1) by (bit_vector);
    assert((b >> 7u8) & 1u8 <= 1) by (bit_vector);
}

/// The clusters of `c` followed by `x` expand to those of `c`, then `x`.
pub proof fn lemma_bit_stream_push(c: Seq<u8>, x: u8)
    ensures
        bit_stream(c.push(x)) == bit_stream(c) + repeat(cluster_bit(x), cluster_count(x) as nat),
{
    assert(c.push(x).drop_last() =~= c);
}

/// One more copy of the bit of the last cluster, when it is not full.
pub proof fn lemma_bit_rle_grow_last(r: Seq<u8>, cnt: u8, b: u8, s: Seq<u8>)
    requires
        is_bit_rle(r.push(cluster(cnt, b)), s),
        1 <= cnt < 127,
        b <= 1,
    ensures
        is_bit_rle(r.push(cluster((cnt + 1) as u8, b)), s.push(b)),
{
    let old_c = r.push(cluster(cnt, b));
    let new_c = r.push(cluster((cnt + 1) as u8, b));
    lemma_cluster_fields(cnt, b);
    lemma_cluster_fields((cnt + 1) as u8, b);
    lemma_bit_stream_push(r, cluster(cnt, b));
    lemma_bit_stream_push(r, cluster((cnt + 1) as u8, b));
    assert(repeat(b, (cnt + 1) as nat) =~= repeat(b, cnt as nat).push(b));
    assert(bit_stream(new_c) =~= s.push(b));
    assert forall|j: int| 0 <= j < new_c.len() implies cluster_count(#[trigger] new_c[j]) >= 1 by {
        if j < r.len() {
            assert(new_c[j] == old_c[j]);
        }
    }
    assert forall|j: int| 0 <= j < new_c.len() - 1 implies (cluster_bit(#[trigger] new_c[j]) != cluster_bit(new_c[j + 1])
        || cluster_count(new_c[j]) == MAX_CNT_BIT_LV_CLUSTER) by {
        assert(new_c[j] == old_c[j]);
        if j + 1 < r.len() {
            assert(new_c[j + 1] == old_c[j + 1]);
        }
    }
}

/// A new cluster of one bit, after a cluster of another bit or a full one.
pub proof fn lemma_bit_rle_new_cluster(r: Seq<u8>, cnt: u8, b: u8, s: Seq<u8>, x: u8)
    requires
        is_bit_rle(r.push(cluster(cnt, b)), s),
        1 <= cnt <= 127,
        b <= 1,
        x <= 1,
        x != b || cnt == 127,
    ensures
        is_bit_rle(r.push(cluster(cnt, b)).push(cluster(1, x)), s.push(x)),
{
    let old_c = r.push(cluster(cnt, b));
    let new_c = old_c.push(cluster(1, x));
    lemma_cluster_fields(cnt, b);
    lemma_cluster_fields(1, x);
    lemma_bit_stream_push(old_c, cluster(1, x));
    assert(repeat(x, 1) =~= seq![x]);
    assert(bit_stream(new_c) =~= s.push(x));
    assert forall|j: int| 0 <= j < new_c.len() implies cluster_count(#[trigger] new_c[j]) >= 1 by {
        if j < old_c.len() {
            assert(new_c[j] == old_c[j]);
        }
    }
    assert forall|j: int| 0 <= j < new_c.len() - 1 implies (cluster_bit(#[trigger] new_c[j]) != cluster_bit(new_c[j + 1])
        || cluster_count(new_c[j]) == MAX_CNT_BIT_LV_CLUSTER) by {
        assert(new_c[j] == old_c[j]);
        if j + 1 < old_c.len() {
            assert(new_c[j + 1] == old_c[j + 1]);
        }
    }
}

/// A single cluster of one bit.
pub proof fn lemma_bit_rle_single(x: u8)
    requires
        x <= 1,
    ensures
        is_bit_rle(seq![cluster(1, x)], seq![x]),
{
    lemma_cluster_fields(1, x);
    lemma_bit_stream_push(Seq::<u8>::empty(), cluster(1, x));
    assert(seq![cluster(1, x)] =~= Seq::<u8>::empty().push(cluster(1, x)));
    assert(bit_stream(Seq::<u8>::empty()) =~= Seq::<u8>::empty());
    assert(repeat(x, 1) =~= seq![x]);
    assert(bit_stream(seq![cluster(1, x)]) =~= seq![x]);
}

/// Bit `8 * i + k` of a byte sequence is bit `k` of byte `i`, and a byte
/// sequence has eight bits per byte.
pub proof fn lemma_bits_index(data: Seq<u8>, i: int, k: int)
    requires
        0 <= i < data.len(),
        0 <= k < 8,
    ensures
        bits(data)[8 * i + k] == bit_at(data[i], k as u8),
        bits(data).len() == 8 * data.len(),
{
    assert((8 * i + k) / 8 == i);
    assert((8 * i + k) % 8 == k);
}


/// What the bit-level decompressor appends after the bits of the clusters:
/// a zero byte when the last cluster is empty.
pub open spec fn bit_decompress_padding(c: Seq<u8>) -> Seq<u8> {
    if c.len() > 0 && cluster_count(c.last()) == 0 {
        repeat(0u8, 8)
    } else {
        Seq::empty()
    }
}

/// Setting bit `k` of a byte whose bit `k` is clear changes only that bit.
pub proof fn lemma_set_bit(b: u8, x: u8, k: u8, m: u8)
    requires
        k < 8,
        m < 8,
        x <= 1,
        bit_at(b, k) == 0,
    ensures
        bit_at(b | (x << k), m) == if m == k {
            x
        } else {
            bit_at(b, m)
        },
{
    assert(k < 8 && m < 8 && x <= 1 && (b >> k) & 1u8 == 0 ==> ((b | (x << k)) >> m) & 1u8 == if m
        == k {
        x
    } else {
        (b >> m) & 1u8
    }) by (bit_vector);
}

/// Every bit of zero is clear.
pub proof fn lemma_zero_bits(k: u8)
    ensures
        bit_at(0u8, k) == 0,
{
    assert((0u8 >> k) & 1u8 == 0) by (bit_vector);
}

/// A zero byte contributes eight zero bits.
pub proof fn lemma_bits_push_zero(r: Seq<u8>)
    ensures
        bits(r.push(0u8)) == bits(r) + repeat(0u8, 8),
{
    let r2 = r.push(0u8);
    assert forall|t: int| 0 <= t < 8 * r2.len() implies #[trigger] bits(r2)[t] == (bits(r) + repeat(0u8, 8))[t] by {
        let i = t / 8;
        let k = t % 8;
        assert(t == 8 * i + k);
        lemma_bits_index(r2, i, k);
        if i < r.len() {
            lemma_bits_index(r, i, k);
        } else {
            lemma_zero_bits(k as u8);
        }
    }
    assert(bits(r2) =~= bits(r) + repeat(0u8, 8));
}

/// Setting the next free bit of the last byte extends the bits written so
/// far by one.
pub proof fn lemma_bits_set_last(r: Seq<u8>, s: Seq<u8>, x: u8, k: u8)
    requires
        r.len() >= 1,
        k < 8,
        x <= 1,
        s.len() == 8 * (r.len() - 1) + k,
        bits(r) == s + repeat(0u8, (8 - k) as nat),
    ensures
        bits(r.update(r.len() - 1, r[r.len() - 1] | (x << k))) == s.push(x) + repeat(
            0u8,
            (8 - k - 1) as nat,
        ),
{
    let last = r.len() - 1;
    let b = r[last];
    let r2 = r.update(last, b | (x << k));
    let goal = s.push(x) + repeat(0u8, (8 - k - 1) as nat);
    lemma_bits_index(r, last, k as int);
    assert(bits(r)[8 * last + k] == 0);
    assert forall|t: int| 0 <= t < 8 * r2.len() implies #[trigger] bits(r2)[t] == goal[t] by {
        let i = t / 8;
        let m = t % 8;
        assert(t == 8 * i + m);
        lemma_bits_index(r2, i, m);
        lemma_bits_index(r, i, m);
        if i < last {
            assert(r2[i] == r[i]);
            assert(bits(r)[t] == s[t]);
        } else {
            assert(i == last);
            lemma_set_bit(b, x, k, m as u8);
            if m < k {
                assert(bits(r)[t] == s[t]);
            }
        }
    }
    assert(bits(r2) =~= goal);
}


/// A byte is determined by its eight bits.
pub proof fn lemma_byte_from_bits(x: u8, y: u8)
    requires
        forall|k: u8| k < 8 ==> #[trigger] bit_at(x, k) == bit_at(y, k),
    ensures
        x == y,
{
    assert(bit_at(x, 0) == bit_at(y, 0));
    assert(bit_at(x, 1) == bit_at(y, 1));
    assert(bit_at(x, 2) == bit_at(y, 2));
    assert(bit_at(x, 3) == bit_at(y, 3));
    assert(bit_at(x, 4) == bit_at(y, 4));
    assert(bit_at(x, 5) == bit_at(y, 5));
    assert(bit_at(x, 6) == bit_at(y, 6));
    assert(bit_at(x, 7) == bit_at(y, 7));
    assert(x == y) by (bit_vector)
        requires
            (x >> 0u8) & 1u8 == (y >> 0u8) & 1u8,
            (x >> 1u8) & 1u8 == (y >> 1u8) & 1u8,
            (x >> 2u8) & 1u8 == (y >> 2u8) & 1u8,
            (x >> 3u8) & 1u8 == (y >> 3u8) & 1u8,
            (x >> 4u8) & 1u8 == (y >> 4u8) & 1u8,
            (x >> 5u8) & 1u8 == (y >> 5u8) & 1u8,
            (x >> 6u8) & 1u8 == (y >> 6u8) & 1u8,
            (x >> 7u8) & 1u8 == (y >> 7u8) & 1u8,
    ;
}

/// Byte sequences with the same bits are equal.
pub proof fn lemma_bits_injective(a: Seq<u8>, b: Seq<u8>)
    requires
        bits(a) == bits(b),
    ensures
        a == b,
{
    assert(bits(a).len() == 8 * a.len());
    assert(bits(b).len() == 8 * b.len());
    assert forall|i: int| 0 <= i < a.len() implies a[i] == b[i] by {
        assert forall|k: u8| k < 8 implies #[trigger] bit_at(a[i], k) == bit_at(b[i], k) by {
            lemma_bits_index(a, i, k as int);
            lemma_bits_index(b, i, k as int);
        }
        lemma_byte_from_bits(a[i], b[i]);
    }
    assert(a =~= b);
}

/// The bits of a concatenation are the concatenation of the bits.
pub proof fn lemma_bits_concat(a: Seq<u8>, b: Seq<u8>)
    ensures
        bits(a + b) == bits(a) + bits(b),
{
    let ab = a + b;
    assert forall|t: int| 0 <= t < 8 * ab.len() implies #[trigger] bits(ab)[t] == (bits(a) + bits(b))[t] by {
        let i = t / 8;
        let k = t % 8;
        assert(t == 8 * i + k);
        lemma_bits_index(ab, i, k);
        if i < a.len() {
            lemma_bits_index(a, i, k);
        } else {
            lemma_bits_index(b, i - a.len(), k);
            assert(t - 8 * a.len() == 8 * (i - a.len()) + k);
        }
    }
    assert(bits(ab) =~= bits(a) + bits(b));
}

/// The clusters of a concatenation expand to the concatenation.
pub proof fn lemma_bit_stream_concat(a: Seq<u8>, b: Seq<u8>)
    ensures
        bit_stream(a + b) == bit_stream(a) + bit_stream(b),
    decreases b.len(),
{
    if b.len() == 0 {
        assert(a + b =~= a);
        assert(bit_stream(a) + bit_stream(b) =~= bit_stream(a));
    } else {
        let b0 = b.drop_last();
        let x = b.last();
        assert(b =~= b0.push(x));
        assert(a + b =~= (a + b0).push(x));
        lemma_bit_stream_concat(a, b0);
        lemma_bit_stream_push(a + b0, x);
        lemma_bit_stream_push(b0, x);
        assert(bit_stream(a + b) =~= bit_stream(a) + bit_stream(b));
    }
}

/// The first cluster expands first.
pub proof fn lemma_bit_stream_first(c: Seq<u8>)
    requires
        c.len() >= 1,
    ensures
        bit_stream(c) == repeat(cluster_bit(c[0]), cluster_count(c[0]) as nat) + bit_stream(
            c.skip(1),
        ),
{
    assert(c =~= seq![c[0]] + c.skip(1));
    lemma_bit_stream_concat(seq![c[0]], c.skip(1));
    assert(seq![c[0]] =~= Seq::<u8>::empty().push(c[0]));
    lemma_bit_stream_push(Seq::<u8>::empty(), c[0]);
    assert(bit_stream(Seq::<u8>::empty()) =~= Seq::<u8>::empty());
    assert(bit_stream(seq![c[0]]) =~= repeat(cluster_bit(c[0]), cluster_count(c[0]) as nat));
}

/// The tail of a canonical bit-level encoding encodes what follows the
/// first run.
pub proof fn lemma_bit_rle_tail(c: Seq<u8>, s: Seq<u8>)
    requires
        is_bit_rle(c, s),
        c.len() >= 1,
    ensures
        is_bit_rle(c.skip(1), s.skip(cluster_count(c[0]) as int)),
        s.len() >= cluster_count(c[0]) >= 1,
        s.take(cluster_count(c[0]) as int) == repeat(cluster_bit(c[0]), cluster_count(c[0]) as nat),
        s[0] == cluster_bit(c[0]),
{
    let t = c.skip(1);
    let n0 = cluster_count(c[0]) as int;
    lemma_bit_stream_first(c);
    assert(cluster_count(c[0]) >= 1);
    assert forall|j: int| 0 <= j < t.len() implies cluster_count(#[trigger] t[j]) >= 1 by {
        assert(t[j] == c[j + 1]);
    }
    assert forall|j: int| 0 <= j < t.len() - 1 implies (cluster_bit(#[trigger] t[j]) != cluster_bit(t[j + 1])
        || cluster_count(t[j]) == MAX_CNT_BIT_LV_CLUSTER) by {
        assert(t[j] == c[j + 1]);
        assert(t[j + 1] == c[j + 2]);
    }
    assert(s.skip(n0) =~= bit_stream(t));
    assert(s.take(n0) =~= repeat(cluster_bit(c[0]), cluster_count(c[0]) as nat));
    assert(s.take(n0)[0] == s[0]);
}

/// A cluster is determined by its count and its bit.
pub proof fn lemma_cluster_from_fields(x: u8, y: u8)
    requires
        cluster_count(x) == cluster_count(y),
        cluster_bit(x) == cluster_bit(y),
    ensures
        x == y,
{
    assert(x == y) by (bit_vector)
        requires
            x & 0x7fu8 == y & 0x7fu8,
            (x >> 7u8) & 1u8 == (y >> 7u8) & 1u8,
    ;
}

/// A run that is not full ends where the bits end or change.
proof fn lemma_bit_rle_run_end(a: Seq<u8>, s: Seq<u8>)
    requires
        is_bit_rle(a, s),
        a.len() >= 1,
        cluster_count(a[0]) < MAX_CNT_BIT_LV_CLUSTER,
    ensures
        s.len() == cluster_count(a[0]) || (s.len() > cluster_count(a[0]) && s[cluster_count(
            a[0],
        ) as int] != cluster_bit(a[0])),
{
    lemma_bit_rle_tail(a, s);
    let ca = cluster_count(a[0]) as int;
    if a.len() == 1 {
        assert(a.skip(1) =~= Seq::<u8>::empty());
        assert(bit_stream(a.skip(1)) =~= Seq::<u8>::empty());
    } else {
        assert(cluster_bit(a[0]) != cluster_bit(a[1]));
        lemma_bit_rle_tail(a.skip(1), s.skip(ca));
        assert(s.skip(ca)[0] == s[ca]);
        assert(a.skip(1)[0] == a[1]);
    }
}

/// No canonical bit-level encoding begins with a shorter run than another
/// one of the same bits.
proof fn lemma_bit_rle_first_run_not_shorter(a: Seq<u8>, b: Seq<u8>, s: Seq<u8>)
    requires
        is_bit_rle(a, s),
        is_bit_rle(b, s),
        a.len() >= 1,
        b.len() >= 1,
    ensures
        cluster_count(a[0]) >= cluster_count(b[0]),
{
    let ca = cluster_count(a[0]) as int;
    let cb = cluster_count(b[0]) as int;
    lemma_bit_rle_tail(a, s);
    lemma_bit_rle_tail(b, s);
    lemma_bit_values(b[0], 0);
    if ca < cb {
        lemma_bit_rle_run_end(a, s);
        // `s[ca]` lies inside the first run of `b`
        assert(s.take(cb)[ca] == s[ca]);
    }
}

/// A canonical bit-level encoding of a bit sequence is unique.
pub proof fn lemma_bit_rle_unique(a: Seq<u8>, b: Seq<u8>, s: Seq<u8>)
    requires
        is_bit_rle(a, s),
        is_bit_rle(b, s),
    ensures
        a == b,
    decreases a.len(),
{
    if a.len() == 0 || b.len() == 0 {
        if a.len() != 0 {
            lemma_bit_rle_tail(a, s);
            assert(bit_stream(b) =~= Seq::<u8>::empty());
        } else if b.len() != 0 {
            lemma_bit_rle_tail(b, s);
            assert(bit_stream(a) =~= Seq::<u8>::empty());
        }
        assert(a =~= b);
    } else {
        lemma_bit_rle_tail(a, s);
        lemma_bit_rle_tail(b, s);
        lemma_bit_rle_first_run_not_shorter(a, b, s);
        lemma_bit_rle_first_run_not_shorter(b, a, s);
        lemma_cluster_from_fields(a[0], b[0]);
        lemma_bit_rle_unique(a.skip(1), b.skip(1), s.skip(cluster_count(a[0]) as int));
        assert(a =~= seq![a[0]] + a.skip(1));
        assert(b =~= seq![b[0]] + b.skip(1));
    }
}


// ---------------------------------------------------------------------------
// Bit level, without the alignment check
// ---------------------------------------------------------------------------

/// The zero bits that follow the bits of the clusters `c` in the bytes that
/// the bit-level decompressor writes: none when the clusters are empty or
/// end on a byte boundary with a non-empty cluster, otherwise the rest of
/// the last byte (a whole zero byte after an empty last cluster that ends on
/// a boundary).
pub open spec fn bit_decompress_fill(c: Seq<u8>) -> Seq<u8> {
    let n = bit_stream(c).len();
    if c.len() == 0 || (n % 8 == 0 && cluster_count(c.last()) > 0) {
        Seq::empty()
    } else {
        repeat(0u8, (8 - n % 8) as nat)
    }
}

} // verus!
