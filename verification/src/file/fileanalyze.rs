//! Provides [`FileAnalyzer`] structure for analyzing file structure
//! and finally suggesting efficient compression for input file.
//!
//! The analyzer counts the runs of equal bytes, and of equal bits, in a probe
//! of the file: one plus the places where the next byte, or the next bit,
//! differs from the one before it. The fewer runs per byte or per bit, the
//! longer the runs that the level finds.

use vstd::prelude::*;
use vstd::arithmetic::div_mod::{lemma_add_mod_noop_right, lemma_small_mod, lemma_mod_self_0};
use crate::model::{bits, lemma_bits_index};

verus! {

/// Specify settings of [`FileAnalyzer`]
#[derive(Debug, Clone)]
pub struct FileAnalyzerSettings {
    pub probe_chunk_size: usize,
    pub thread_cnt: usize,
}

#[derive(Debug, Clone)]
pub struct FileAnalyzer {
    pub settings: FileAnalyzerSettings,
}

/// The number of values of a `u32`, which counts modulo this.
pub open spec fn u32_modulus() -> int {
    0x1_0000_0000
}

/// The number of adjacent positions of `s` that hold different values.
pub open spec fn changes(s: Seq<u8>) -> nat
    decreases s.len(),
{
    if s.len() < 2 {
        0
    } else {
        changes(s.drop_last()) + if s[s.len() - 1] != s[s.len() - 2] {
            1nat
        } else {
            0nat
        }
    }
}

/// The settings that an analyzer accepts.
pub open spec fn valid_analyzer_settings(settings: FileAnalyzerSettings) -> bool {
    settings.probe_chunk_size != 0 && settings.thread_cnt != 0
}

/// The changes of a sequence grow by one comparison per element.
proof fn lemma_changes_step(s: Seq<u8>, k: int)
    requires
        1 <= k < s.len(),
    ensures
        changes(s.take(k + 1)) == changes(s.take(k)) + if s[k] != s[k - 1] {
            1nat
        } else {
            0nat
        },
{
    assert(s.take(k + 1).drop_last() =~= s.take(k));
}

/// Counting one more, modulo the range of a `u32`.
proof fn lemma_wrap_inc(a: u32, x: int)
    requires
        x >= 0,
        a == x % u32_modulus(),
    ensures
        (if a + 1 > u32::MAX {
            a + 1 - u32_modulus()
        } else {
            a + 1
        }) == (x + 1) % u32_modulus(),
{
    let m = u32_modulus();
    lemma_add_mod_noop_right(1, x, m);
    lemma_add_mod_noop_right(x, 1, m);
    assert((1 + x % m) % m == (x + 1) % m);
    if a + 1 > u32::MAX {
        lemma_mod_self_0(m);
    } else {
        lemma_small_mod((a + 1) as nat, m as nat);
    }
}

/// Counts, modulo the range of a `u32`, the changes between adjacent bytes of
/// `probe_chunk[begin..end]` on top of `total`.
fn count_byte_changes(probe_chunk: &[u8], begin: usize, end: usize, total: u32) -> (r: u32)
    requires
        begin < end <= probe_chunk.len(),
    ensures
        r as int == (total + changes(probe_chunk@.subrange(begin as int, end as int)))
            % u32_modulus(),
{
    let ghost part = probe_chunk@.subrange(begin as int, end as int);
    let mut total_cluster_cnt = total;
    let mut curr_byte = probe_chunk[begin];
    let mut k: usize = begin + 1;
    proof {
        lemma_small_mod(total as nat, u32_modulus() as nat);
    }
    while k < end
        invariant
            begin < k <= end <= probe_chunk.len(),
            part == probe_chunk@.subrange(begin as int, end as int),
            curr_byte == probe_chunk@[k - 1],
            total_cluster_cnt as int == (total + changes(part.take(k - begin))) % u32_modulus(),
        decreases end - k,
    {
        let byte = probe_chunk[k];
        proof {
            lemma_changes_step(part, (k - begin) as int);
            assert(part[k - begin] == byte);
            assert(part[k - begin - 1] == curr_byte);
        }
        if byte != curr_byte {
            curr_byte = byte;
            proof {
                lemma_wrap_inc(total_cluster_cnt, total + changes(part.take(k - begin)));
            }
            total_cluster_cnt = total_cluster_cnt.wrapping_add(1);
        }
        k = k + 1;
    }
    assert(part.take(end - begin) =~= part);
    total_cluster_cnt
}

/// Counts, modulo the range of a `u32`, the changes between adjacent bits of
/// `probe_chunk[begin..end]` on top of `total`.
fn count_bit_changes(probe_chunk: &[u8], begin: usize, end: usize, total: u32) -> (r: u32)
    requires
        begin < end <= probe_chunk.len(),
    ensures
        r as int == (total + changes(bits(probe_chunk@.subrange(begin as int, end as int))))
            % u32_modulus(),
{
    let ghost part = probe_chunk@.subrange(begin as int, end as int);
    let ghost s = bits(part);
    let mut total_cluster_cnt = total;
    let mut curr_bit = (probe_chunk[begin] >> 0u8) & 1u8;
    proof {
        lemma_small_mod(total as nat, u32_modulus() as nat);
        lemma_bits_index(part, 0, 0);
        assert(s.take(0) =~= Seq::<u8>::empty());
    }
    let mut k: usize = begin;
    while k < end
        invariant
            begin <= k <= end <= probe_chunk.len(),
            part == probe_chunk@.subrange(begin as int, end as int),
            s == bits(part),
            s.len() == 8 * (end - begin),
            curr_bit == s[if k == begin { 0 } else { 8 * (k - begin) - 1 }],
            total_cluster_cnt as int == (total + changes(s.take(8 * (k - begin))))
                % u32_modulus(),
        decreases end - k,
    {
        let byte = probe_chunk[k];
        let mut shf: u8 = 0;
        while shf < 8
            invariant
                begin <= k < end <= probe_chunk.len(),
                part == probe_chunk@.subrange(begin as int, end as int),
                s == bits(part),
                s.len() == 8 * (end - begin),
                byte == part[k - begin],
                shf <= 8,
                curr_bit == s[if k == begin && shf == 0 { 0 } else { 8 * (k - begin) + shf - 1 }],
                total_cluster_cnt as int == (total + changes(s.take(8 * (k - begin) + shf)))
                    % u32_modulus(),
            decreases 8 - shf,
        {
            let bit = (byte >> shf) & 1u8;
            let ghost u: int = 8 * (k - begin) + shf;
            proof {
                lemma_bits_index(part, k - begin, shf as int);
                if u == 0 {
                    assert(s.take(1).len() == 1);
                    assert(s.take(0) =~= Seq::<u8>::empty());
                    assert(changes(s.take(1)) == 0);
                } else {
                    lemma_changes_step(s, u);
                }
            }
            if bit != curr_bit {
                curr_bit = bit;
                proof {
                    lemma_wrap_inc(total_cluster_cnt, total + changes(s.take(u)));
                }
                total_cluster_cnt = total_cluster_cnt.wrapping_add(1);
            }
            shf = shf + 1;
        }
        k = k + 1;
    }
    assert(s.take(8 * (end - begin)) =~= s);
    total_cluster_cnt
}

impl FileAnalyzer {
    /// An analyzer with a copy of `settings`.
    pub fn new(settings: &FileAnalyzerSettings) -> (r: Self)
        requires
            valid_analyzer_settings(*settings),
        ensures
            r.settings == *settings,
    {
        Self {
            settings: FileAnalyzerSettings {
                probe_chunk_size: settings.probe_chunk_size,
                thread_cnt: settings.thread_cnt,
            },
        }
    }

    /// The number of runs of equal bytes in `probe_chunk`, one plus the
    /// changes between adjacent bytes, modulo the range of a `u32`.
    pub fn byte_cluster_count(&self, probe_chunk: &[u8]) -> (r: u32)
        ensures
            r as int == (1int + changes(probe_chunk@)) % u32_modulus(),
    {
        if probe_chunk.len() == 0 {
            proof {
                lemma_small_mod(1, u32_modulus() as nat);
            }
            return 1;
        }
        let r = count_byte_changes(probe_chunk, 0, probe_chunk.len(), 1);
        assert(probe_chunk@.subrange(0, probe_chunk@.len() as int) =~= probe_chunk@);
        r
    }

    /// The number of runs of equal bits in `probe_chunk`, least significant
    /// bit first, one plus the changes between adjacent bits, modulo the
    /// range of a `u32`.
    pub fn bit_cluster_count(&self, probe_chunk: &[u8]) -> (r: u32)
        ensures
            r as int == (1int + changes(bits(probe_chunk@))) % u32_modulus(),
    {
        if probe_chunk.len() == 0 {
            proof {
                lemma_small_mod(1, u32_modulus() as nat);
                assert(bits(probe_chunk@) =~= Seq::<u8>::empty());
            }
            return 1;
        }
        let r = count_bit_changes(probe_chunk, 0, probe_chunk.len(), 1);
        assert(probe_chunk@.subrange(0, probe_chunk@.len() as int) =~= probe_chunk@);
        r
    }
}

} // verus!
