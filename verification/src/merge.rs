//! The result merger.
//!
//! Records are scored concurrently, so they complete in no particular
//! order. Each completed record is tagged with its original position in the
//! input; the merger sorts the tags back into input order, and the caller
//! then concatenates the per-record results in that order. The laws below
//! say that the merged order depends only on which records completed, never
//! on the order in which they completed.

use vstd::prelude::*;
use vstd::seq_lib::group_to_multiset_ensures;
use vstd::multiset::group_multiset_axioms;
use vstd::multiset::Multiset;

verus! {

/// A completed record's tag: its position in the input file and its
/// identifier, under which its staged result is found.
#[derive(Clone, Debug)]
pub struct OrderedResult {
    /// 0-based position of the record in the input.
    pub index: usize,
    /// The record's identifier.
    pub id: String,
}

/// Whether the tags are in ascending input order.
pub open spec fn sorted_by_index(s: Seq<OrderedResult>) -> bool {
    forall|i: int, j: int|
        0 <= i <= j < s.len() ==> (#[trigger] s[i]).index <= (#[trigger] s[j]).index
}

/// Whether no two tags carry the same input position.
pub open spec fn distinct_indices(s: Seq<OrderedResult>) -> bool {
    forall|i: int, j: int|
        0 <= i < j < s.len() ==> (#[trigger] s[i]).index != (#[trigger] s[j]).index
}

/// Restores input order: sorts the completed records' tags by their input
/// position, ascending. The result is a permutation of the input — no tag
/// is lost, duplicated or altered.
pub fn merge_order(pairs: Vec<OrderedResult>) -> (r: Vec<OrderedResult>)
    ensures
        sorted_by_index(r@),
        r@.to_multiset() == pairs@.to_multiset(),
        r@.len() == pairs@.len(),
{
    broadcast use group_to_multiset_ensures;
    broadcast use group_multiset_axioms;

    let mut rest = pairs;
    let ghost all = rest@.to_multiset();
    let mut out: Vec<OrderedResult> = Vec::new();
    while rest.len() > 0
        invariant
            out@.to_multiset().add(rest@.to_multiset()) == all,
            sorted_by_index(out@),
            forall|a: int, b: int|
                0 <= a < out@.len() && 0 <= b < rest@.len() ==> (#[trigger] out@[a]).index
                    <= (#[trigger] rest@[b]).index,
        decreases rest@.len(),
    {
        broadcast use group_to_multiset_ensures;
        broadcast use group_multiset_axioms;

        let mut m: usize = 0;
        let mut t: usize = 1;
        while t < rest.len()
            invariant
                rest@.len() > 0,
                m < t <= rest@.len(),
                forall|b: int| 0 <= b < t ==> (#[trigger] rest@[m as int]).index
                    <= (#[trigger] rest@[b]).index,
            decreases rest@.len() - t,
        {
            if rest[t].index < rest[m].index {
                m = t;
            }
            t += 1;
        }
        let ghost old_out = out@;
        let ghost old_rest = rest@;
        let e = rest.remove(m);
        out.push(e);
        proof {
            old_rest.remove_ensures(m as int);
            assert(old_rest.contains(old_rest[m as int])) by {
                assert(old_rest[m as int] == old_rest[m as int]);
            }
            assert(out@.to_multiset().add(rest@.to_multiset()) =~= old_out.to_multiset().add(
                old_rest.to_multiset(),
            ));
            assert forall|a: int, b: int|
                0 <= a < out@.len() && 0 <= b < rest@.len() implies (#[trigger] out@[a]).index
                <= (#[trigger] rest@[b]).index by {
                if b < m {
                    assert(rest@[b] == old_rest[b]);
                } else {
                    assert(rest@[b] == old_rest[b + 1]);
                }
            }
        }
    }
    proof {
        assert(rest@.to_multiset() =~= Multiset::empty());
        assert(out@.to_multiset() =~= all);
        assert(out@.len() == out@.to_multiset().len());
        assert(pairs@.len() == pairs@.to_multiset().len());
    }
    out
}

/// Two sequences of tags that are sorted by input position, carry the same
/// tags with the same multiplicities, and repeat no position, are the same
/// sequence.
pub proof fn lemma_sorted_unique_by_index(x: Seq<OrderedResult>, y: Seq<OrderedResult>)
    requires
        sorted_by_index(x),
        sorted_by_index(y),
        distinct_indices(x),
        x.to_multiset() == y.to_multiset(),
    ensures
        x == y,
    decreases x.len(),
{
    broadcast use group_to_multiset_ensures;
    broadcast use group_multiset_axioms;

    assert(x.len() == x.to_multiset().len());
    assert(y.len() == y.to_multiset().len());
    if x.len() == 0 {
        assert(x =~= y);
    } else {
        assert(y.contains(y[0])) by {
            assert(y[0] == y[0]);
        }
        assert(y.to_multiset().count(y[0]) > 0);
        assert(x.to_multiset().count(y[0]) > 0);
        assert(x.contains(y[0]));
        let i = choose|i: int| 0 <= i < x.len() && x[i] == y[0];
        assert(x.contains(x[0])) by {
            assert(x[0] == x[0]);
        }
        assert(x.to_multiset().count(x[0]) > 0);
        assert(y.to_multiset().count(x[0]) > 0);
        assert(y.contains(x[0]));
        let j = choose|j: int| 0 <= j < y.len() && y[j] == x[0];
        assert(x[0].index <= x[i].index);
        assert(y[0].index <= y[j].index);
        assert(x[i].index == x[0].index);
        assert(i == 0);
        assert(x[0] == y[0]);
        let xt = x.drop_first();
        let yt = y.drop_first();
        assert(x.remove(0) =~= xt);
        assert(y.remove(0) =~= yt);
        assert(xt.to_multiset() == x.to_multiset().remove(x[0]));
        assert(yt.to_multiset() == y.to_multiset().remove(y[0]));
        assert(sorted_by_index(xt) && distinct_indices(xt)) by {
            assert(forall|a: int| 0 <= a < xt.len() ==> #[trigger] xt[a] == x[a + 1]);
        }
        assert(sorted_by_index(yt)) by {
            assert(forall|a: int| 0 <= a < yt.len() ==> #[trigger] yt[a] == y[a + 1]);
        }
        lemma_sorted_unique_by_index(xt, yt);
        assert forall|p: int| 0 <= p < x.len() implies x[p] == y[p] by {
            if p > 0 {
                assert(x[p] == xt[p - 1] && y[p] == yt[p - 1]);
            }
        }
        assert(x =~= y);
    }
}

/// Law (order preservation): whatever order the workers complete in, the
/// merged order is the input order. `dispatched` is the tag sequence as the
/// dispatcher created it, one tag per record at its input position;
/// `completed` is any completion order of those tags; `merged` is any
/// sorting of `completed` that meets the merger's contract. Then `merged`
/// is exactly `dispatched`.
pub proof fn lemma_merge_restores_input_order(
    merged: Seq<OrderedResult>,
    completed: Seq<OrderedResult>,
    dispatched: Seq<OrderedResult>,
)
    requires
        sorted_by_index(merged),
        merged.to_multiset() == completed.to_multiset(),
        completed.to_multiset() == dispatched.to_multiset(),
        forall|i: int| 0 <= i < dispatched.len() ==> (#[trigger] dispatched[i]).index == i,
    ensures
        merged == dispatched,
{
    lemma_sorted_unique_by_index(dispatched, merged);
}

/// Law (determinism): two runs over the same records merge to the same
/// order, no matter how their completion orders differed — a sorted
/// arrangement of a given collection of tags with distinct positions is
/// unique.
pub proof fn lemma_merge_deterministic(m1: Seq<OrderedResult>, m2: Seq<OrderedResult>)
    requires
        sorted_by_index(m1),
        sorted_by_index(m2),
        distinct_indices(m1),
        m1.to_multiset() == m2.to_multiset(),
    ensures
        m1 == m2,
{
    lemma_sorted_unique_by_index(m1, m2);
}

} // verus!
