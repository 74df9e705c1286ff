//! The complexity scorer.
//!
//! A sequence is partitioned into contiguous segments of `segment_size`
//! symbols, the last one holding the remainder. Within each segment a window
//! of `kmer_size` symbols slides one position at a time; each window is
//! hashed, and the segment's complexity is the number of distinct hash
//! values over the number of windows.
//!
//! Policy for a segment shorter than the window (an edge the arithmetic does
//! not define naturally): such a segment is still emitted, with a window
//! count of zero and a distinct count of zero, and its score is undefined;
//! consumers render it as a non-value rather than crashing.

use vstd::prelude::*;
use vstd::arithmetic::mul::lemma_mul_inequality;
use vstd::slice::slice_subrange;
use crate::hash::hash32_of;
use crate::hash::hash_kmer;

verus! {

/// One scored segment: its offsets and the two integers whose ratio is the
/// complexity score.
///
/// The score itself, `distinct / windows`, is kept as a pair so that it is
/// exact; rendering it as a decimal is the caller's concern. When
/// `windows == 0` the score is undefined (the segment was shorter than the
/// window length).
#[derive(Clone, Copy, Debug, PartialEq, Eq, Structural)]
pub struct ComplexityRecord {
    /// 0-based offset of the segment's first symbol in the sequence.
    pub start: usize,
    /// 0-based inclusive offset of the segment's last symbol in the
    /// sequence.
    pub end: usize,
    /// Number of distinct window hashes within the segment.
    pub distinct: usize,
    /// Number of windows that fit in the segment.
    pub windows: usize,
}

/// How many segments a sequence of `len` symbols yields with segments of
/// `ss` symbols: every full segment, plus one for a remainder.
pub open spec fn num_segments(len: int, ss: int) -> int
    decreases len,
{
    if ss <= 0 || len <= 0 {
        0
    } else if len <= ss {
        1
    } else {
        1 + num_segments(len - ss, ss)
    }
}

/// Offset at which segment `i` begins.
pub open spec fn seg_start(ss: int, i: int) -> int {
    i * ss
}

/// Length of segment `i`: `ss`, or the remainder for the final segment.
pub open spec fn seg_len(len: int, ss: int, i: int) -> int {
    if len - seg_start(ss, i) < ss {
        len - seg_start(ss, i)
    } else {
        ss
    }
}

/// The symbols of segment `i`.
pub open spec fn segment_of(s: Seq<u8>, ss: int, i: int) -> Seq<u8> {
    s.subrange(seg_start(ss, i), seg_start(ss, i) + seg_len(s.len() as int, ss, i))
}

/// How many windows of `k` symbols fit in a segment of `l` symbols; zero
/// when the segment is too short for even one window.
pub open spec fn num_windows(l: int, k: int) -> int {
    if l >= k {
        l - k + 1
    } else {
        0
    }
}

/// The window of `k` symbols starting at offset `j` of a segment.
pub open spec fn window_at(seg: Seq<u8>, k: int, j: int) -> Seq<u8> {
    seg.subrange(j, j + k)
}

/// The distinct hash values of the first `n` windows of a segment.
pub open spec fn hashes_of_first(seg: Seq<u8>, k: int, n: int) -> Set<u32>
    decreases n,
{
    if n <= 0 {
        Set::empty()
    } else {
        hashes_of_first(seg, k, n - 1).insert(hash32_of(window_at(seg, k, n - 1)))
    }
}

/// The distinct hash values of all windows of a segment.
pub open spec fn segment_hashes(seg: Seq<u8>, k: int) -> Set<u32> {
    hashes_of_first(seg, k, num_windows(seg.len() as int, k))
}

/// What the scorer must emit for segment `i` of sequence `s`.
pub open spec fn record_ok(s: Seq<u8>, ss: int, k: int, i: int, r: ComplexityRecord) -> bool {
    &&& r.start == seg_start(ss, i)
    &&& r.end == seg_start(ss, i) + seg_len(s.len() as int, ss, i) - 1
    &&& r.windows == num_windows(seg_len(s.len() as int, ss, i), k)
    &&& r.distinct == segment_hashes(segment_of(s, ss, i), k).len()
}

/// What the scorer must emit for a whole sequence: one correct record per
/// segment, in ascending segment order.
pub open spec fn segments_ok(s: Seq<u8>, ss: int, k: int, rs: Seq<ComplexityRecord>) -> bool {
    &&& rs.len() == num_segments(s.len() as int, ss)
    &&& forall|i: int| 0 <= i < rs.len() ==> record_ok(s, ss, k, i, #[trigger] rs[i])
}

/// The segment count is the least count whose segments reach `len`:
/// `n * ss` covers the sequence and `(n - 1) * ss` falls short of it.
pub proof fn lemma_num_segments_bounds(len: int, ss: int)
    requires
        ss >= 1,
        len >= 0,
    ensures
        num_segments(len, ss) >= 0,
        num_segments(len, ss) * ss >= len,
        len > 0 ==> num_segments(len, ss) >= 1,
        len > 0 ==> (num_segments(len, ss) - 1) * ss < len,
        len == 0 ==> num_segments(len, ss) == 0,
    decreases len,
{
    if len <= 0 {
    } else if len <= ss {
        assert(num_segments(len, ss) == 1);
        assert(1 * ss == ss) by (nonlinear_arith);
        assert(0 * ss == 0) by (nonlinear_arith);
    } else {
        lemma_num_segments_bounds(len - ss, ss);
        let n1 = num_segments(len - ss, ss);
        assert((1 + n1) * ss == n1 * ss + ss) by (nonlinear_arith);
        assert((n1 - 1) * ss + ss == n1 * ss) by (nonlinear_arith);
    }
}

/// Every segment index in range starts strictly inside the sequence.
pub proof fn lemma_seg_start_in_range(len: int, ss: int, i: int)
    requires
        ss >= 1,
        len >= 0,
        0 <= i < num_segments(len, ss),
    ensures
        seg_start(ss, i) < len,
        1 <= seg_len(len, ss, i),
        seg_start(ss, i) + seg_len(len, ss, i) <= len,
{
    lemma_num_segments_bounds(len, ss);
    let n = num_segments(len, ss);
    lemma_mul_inequality(i, n - 1, ss);
}

/// Law: for any sequence length and any valid segment size, the segments
/// partition the sequence exactly. They begin at offset zero, each one is
/// non-empty and lies inside the sequence, each non-final segment ends where
/// the next begins, the final segment ends exactly at the sequence's end,
/// and distinct segments do not overlap.
pub proof fn lemma_segments_partition(len: int, ss: int)
    requires
        ss >= 1,
        len >= 0,
    ensures
        seg_start(ss, 0) == 0,
        forall|i: int|
            0 <= i < num_segments(len, ss) ==> 1 <= #[trigger] seg_len(len, ss, i)
                && seg_start(ss, i) + seg_len(len, ss, i) <= len,
        forall|i: int|
            0 <= i < num_segments(len, ss) - 1 ==> seg_start(ss, i) + #[trigger] seg_len(len, ss, i)
                == seg_start(ss, i + 1),
        num_segments(len, ss) > 0 ==> seg_start(ss, num_segments(len, ss) - 1)
            + seg_len(len, ss, num_segments(len, ss) - 1) == len,
        forall|i: int, j: int|
            0 <= i < j < num_segments(len, ss) ==> #[trigger] seg_start(ss, i)
                + seg_len(len, ss, i) <= #[trigger] seg_start(ss, j),
{
    lemma_num_segments_bounds(len, ss);
    let n = num_segments(len, ss);
    assert(0 * ss == 0) by (nonlinear_arith);
    assert forall|i: int|
        0 <= i < n implies 1 <= #[trigger] seg_len(len, ss, i)
        && seg_start(ss, i) + seg_len(len, ss, i) <= len by {
        lemma_seg_start_in_range(len, ss, i);
    }
    assert forall|i: int|
        0 <= i < n - 1 implies seg_start(ss, i) + #[trigger] seg_len(len, ss, i)
        == seg_start(ss, i + 1) by {
        lemma_mul_inequality(i + 1, n - 1, ss);
        assert((i + 1) * ss == i * ss + ss) by (nonlinear_arith);
    }
    if n > 0 {
        lemma_seg_start_in_range(len, ss, n - 1);
        assert(n * ss == (n - 1) * ss + ss) by (nonlinear_arith);
    }
    assert forall|i: int, j: int|
        0 <= i < j < n implies #[trigger] seg_start(ss, i) + seg_len(len, ss, i)
        <= #[trigger] seg_start(ss, j) by {
        assert((i + 1) * ss == i * ss + ss) by (nonlinear_arith);
        lemma_mul_inequality(i + 1, j, ss);
    }
}

/// Law: every offset of the sequence lies in some segment, so the segments'
/// union covers the sequence.
pub proof fn lemma_offset_covered(len: int, ss: int, p: int)
    requires
        ss >= 1,
        0 <= p < len,
    ensures
        exists|i: int|
            0 <= i < num_segments(len, ss) && seg_start(ss, i) <= p < seg_start(ss, i)
                + #[trigger] seg_len(len, ss, i),
    decreases len,
{
    lemma_num_segments_bounds(len, ss);
    if p < ss {
        assert(0 * ss == 0) by (nonlinear_arith);
        assert(0 < num_segments(len, ss));
        assert(seg_start(ss, 0) <= p < seg_start(ss, 0) + seg_len(len, ss, 0));
    } else {
        lemma_offset_covered(len - ss, ss, p - ss);
        let i1 = choose|i1: int|
            0 <= i1 < num_segments(len - ss, ss) && seg_start(ss, i1) <= p - ss < seg_start(ss, i1)
                + #[trigger] seg_len(len - ss, ss, i1);
        assert((i1 + 1) * ss == i1 * ss + ss) by (nonlinear_arith);
        assert(seg_len(len, ss, i1 + 1) == seg_len(len - ss, ss, i1));
        assert(seg_start(ss, i1 + 1) <= p < seg_start(ss, i1 + 1) + seg_len(len, ss, i1 + 1));
    }
}

/// Law: the final segment holds exactly the remainder of the sequence
/// length by the segment size — or a full segment when the length divides
/// evenly.
pub proof fn lemma_final_segment_is_remainder(len: int, ss: int)
    requires
        ss >= 1,
        len > 0,
    ensures
        len % ss == 0 ==> seg_len(len, ss, num_segments(len, ss) - 1) == ss,
        len % ss != 0 ==> seg_len(len, ss, num_segments(len, ss) - 1) == len % ss,
{
    lemma_num_segments_bounds(len, ss);
    let n = num_segments(len, ss);
    let r = len - (n - 1) * ss;
    assert(n * ss == (n - 1) * ss + ss) by (nonlinear_arith);
    if r == ss {
        assert(len == n * ss);
        vstd::arithmetic::div_mod::lemma_mod_multiples_basic(n, ss);
    } else {
        vstd::arithmetic::div_mod::lemma_fundamental_div_mod_converse(len, ss, n - 1, r);
    }
}

/// The distinct-hash set of a segment's first `n` windows is finite, holds
/// at most `n` values, and is non-empty as soon as one window was hashed.
pub proof fn lemma_distinct_bounds(seg: Seq<u8>, k: int, n: int)
    requires
        n >= 0,
    ensures
        hashes_of_first(seg, k, n).finite(),
        hashes_of_first(seg, k, n).len() <= n,
        n >= 1 ==> hashes_of_first(seg, k, n).len() >= 1,
    decreases n,
{
    broadcast use vstd::set::group_set_axioms;

    if n > 0 {
        lemma_distinct_bounds(seg, k, n - 1);
    }
}

/// Law: a segment of `l` symbols with `l >= k` has exactly `l - k + 1`
/// windows, and its score — distinct hashes over windows — lies in `(0, 1]`:
/// the distinct count is at least one and at most the window count.
pub proof fn lemma_score_in_unit_interval(seg: Seq<u8>, k: int)
    requires
        1 <= k <= seg.len(),
    ensures
        num_windows(seg.len() as int, k) == seg.len() - k + 1,
        1 <= segment_hashes(seg, k).len() <= num_windows(seg.len() as int, k),
{
    lemma_distinct_bounds(seg, k, seg.len() - k + 1);
}

/// Law: the scorer's output is a function of the sequence and the two sizes
/// alone — any two outputs that meet the scorer's contract are equal.
pub proof fn lemma_scores_deterministic(
    s: Seq<u8>,
    ss: int,
    k: int,
    r1: Seq<ComplexityRecord>,
    r2: Seq<ComplexityRecord>,
)
    requires
        segments_ok(s, ss, k, r1),
        segments_ok(s, ss, k, r2),
    ensures
        r1 == r2,
{
    assert forall|i: int| 0 <= i < r1.len() implies r1[i] == r2[i] by {
        assert(record_ok(s, ss, k, i, r1[i]));
        assert(record_ok(s, ss, k, i, r2[i]));
    }
    assert(r1 =~= r2);
}

/// Whether `x` occurs in `v`.
fn contains_u32(v: &Vec<u32>, x: u32) -> (b: bool)
    ensures
        b == v@.contains(x),
{
    let mut j: usize = 0;
    while j < v.len()
        invariant
            j <= v@.len(),
            forall|t: int| 0 <= t < j ==> v@[t] != x,
        decreases v@.len() - j,
    {
        if v[j] == x {
            assert(v@[j as int] == x);
            return true;
        }
        j += 1;
    }
    false
}

/// Scores one segment: slides a window of `kmer_size` symbols across it,
/// hashes every window, and returns the number of distinct hash values
/// together with the number of windows.
///
/// A segment shorter than the window yields `(0, 0)`: no window fits, and
/// the score is undefined for such a segment.
pub fn score_segment(seg: &[u8], kmer_size: usize) -> (r: (usize, usize))
    requires
        kmer_size >= 1,
    ensures
        r.1 == num_windows(seg@.len() as int, kmer_size as int),
        r.0 == segment_hashes(seg@, kmer_size as int).len(),
        r.1 >= 1 ==> 1 <= r.0 <= r.1,
{
    broadcast use vstd::set::group_set_axioms;

    let len = seg.len();
    if len < kmer_size {
        return (0, 0);
    }
    let wcount = len - kmer_size + 1;
    let ghost k = kmer_size as int;
    let mut seen: Vec<u32> = Vec::new();
    let mut j: usize = 0;
    while j < wcount
        invariant
            kmer_size >= 1,
            kmer_size <= len,
            len == seg@.len(),
            wcount == len - kmer_size + 1,
            j <= wcount,
            k == kmer_size as int,
            seen@.no_duplicates(),
            seen@.to_set() == hashes_of_first(seg@, k, j as int),
        decreases wcount - j,
    {
        broadcast use vstd::set::group_set_axioms;

        let w = slice_subrange(seg, j, j + kmer_size);
        let h = hash_kmer(w);
        proof {
            assert(w@ == window_at(seg@, k, j as int));
        }
        let ghost old_seen = seen@;
        if !contains_u32(&seen, h) {
            seen.push(h);
            proof {
                assert forall|a: int, b: int|
                    0 <= a < b < seen@.len() implies seen@[a] != seen@[b] by {
                    if b == seen@.len() - 1 {
                        assert(old_seen.contains(old_seen[a])) by {
                            assert(old_seen[a] == old_seen[a]);
                        }
                    }
                }
                old_seen.lemma_push_to_set_commute(h);
            }
        } else {
            proof {
                assert(hashes_of_first(seg@, k, j as int).contains(h));
                assert(hashes_of_first(seg@, k, j + 1) =~= hashes_of_first(seg@, k, j as int));
            }
        }
        proof {
            assert(seen@.to_set() =~= hashes_of_first(seg@, k, j + 1));
        }
        j += 1;
    }
    proof {
        seen@.unique_seq_to_set();
        lemma_distinct_bounds(seg@, k, wcount as int);
    }
    (seen.len(), wcount)
}

/// Scores a whole sequence: partitions it into segments of `segment_size`
/// symbols (the last holding the remainder) and emits one record per
/// segment, in ascending segment order. Each record carries the segment's
/// offsets and its distinct-hash and window counts, whose ratio is the
/// complexity score; for every segment long enough to hold a window that
/// score lies in `(0, 1]`.
pub fn score_sequence(seq: &[u8], segment_size: usize, kmer_size: usize) -> (r: Vec<
    ComplexityRecord,
>)
    requires
        segment_size >= 1,
        kmer_size >= 1,
    ensures
        segments_ok(seq@, segment_size as int, kmer_size as int, r@),
        forall|i: int|
            0 <= i < r@.len() && (#[trigger] r@[i]).windows >= 1 ==> 1 <= r@[i].distinct
                <= r@[i].windows,
{
    let len = seq.len();
    let ghost ss = segment_size as int;
    let ghost k = kmer_size as int;
    proof {
        lemma_num_segments_bounds(len as int, ss);
    }
    let mut out: Vec<ComplexityRecord> = Vec::new();
    let mut start: usize = 0;
    while start < len
        invariant
            segment_size >= 1,
            kmer_size >= 1,
            ss == segment_size as int,
            k == kmer_size as int,
            len == seq@.len(),
            out@.len() <= num_segments(len as int, ss),
            start as int == if seg_start(ss, out@.len() as int) < len as int {
                seg_start(ss, out@.len() as int)
            } else {
                len as int
            },
            forall|i: int|
                0 <= i < out@.len() ==> record_ok(seq@, ss, k, i, #[trigger] out@[i]),
            forall|i: int|
                0 <= i < out@.len() && (#[trigger] out@[i]).windows >= 1 ==> 1 <= out@[i].distinct
                    <= out@[i].windows,
        decreases len - start,
    {
        let ghost i = out@.len() as int;
        proof {
            lemma_num_segments_bounds(len as int, ss);
            assert(seg_start(ss, i) < len as int);
            if i >= num_segments(len as int, ss) {
                lemma_mul_inequality(num_segments(len as int, ss), i, ss);
            }
            assert(i < num_segments(len as int, ss));
        }
        let remaining = len - start;
        let seg_l = if remaining < segment_size {
            remaining
        } else {
            segment_size
        };
        proof {
            assert(seg_l as int == seg_len(len as int, ss, i));
        }
        let seg = slice_subrange(seq, start, start + seg_l);
        let (d, w) = score_segment(seg, kmer_size);
        let end = start + seg_l - 1;
        proof {
            assert((i + 1) * ss == i * ss + ss) by (nonlinear_arith);
            assert(seg@ == segment_of(seq@, ss, i));
        }
        out.push(ComplexityRecord { start, end, distinct: d, windows: w });
        start = start + seg_l;
        proof {
            assert(record_ok(seq@, ss, k, i, out@[i]));
        }
    }
    proof {
        lemma_num_segments_bounds(len as int, ss);
        let n = num_segments(len as int, ss);
        let i = out@.len() as int;
        assert(start as int == len as int);
        if i < n {
            lemma_mul_inequality(i, n - 1, ss);
            assert(seg_start(ss, i) < len as int);
        }
        assert(i == n);
    }
    out
}

} // verus!
