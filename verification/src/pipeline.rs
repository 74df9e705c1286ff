//! The record pipeline, as one sequential reference.
//!
//! The dispatcher hands each input record to the scorer and tags it with
//! its input position; workers may complete in any order, and the merger
//! restores input order afterwards (see `merge`). This module states what
//! the whole pipeline owes its caller: one scored result per record, in
//! input order. A concurrent driver that scores the same records in any
//! completion order and then merges owes — and by the merge laws delivers —
//! exactly this output.

use vstd::prelude::*;
use crate::scorer::ComplexityRecord;
use crate::scorer::score_sequence;
use crate::scorer::segments_ok;

verus! {

/// One input record: an identifier and a sequence of symbols.
#[derive(Clone, Debug)]
pub struct InputRecord {
    /// The record's identifier. Identifiers are assumed unique within one
    /// input; a duplicate makes two records share a staging key, and the
    /// later write overwrites the earlier one.
    pub id: String,
    /// The record's sequence.
    pub seq: Vec<u8>,
}

/// One record's scored output: its identifier and one record per segment,
/// in ascending segment order.
#[derive(Clone, Debug)]
pub struct RecordResult {
    /// The identifier of the record this result belongs to.
    pub id: String,
    /// The per-segment records, ascending by segment index.
    pub segments: Vec<ComplexityRecord>,
}

/// Scores every record, in input order: the result at position `i` holds
/// the identifier of record `i` and the scorer's full output for its
/// sequence.
pub fn score_records(records: &Vec<InputRecord>, segment_size: usize, kmer_size: usize) -> (r: Vec<
    RecordResult,
>)
    requires
        segment_size >= 1,
        kmer_size >= 1,
    ensures
        r@.len() == records@.len(),
        forall|i: int|
            0 <= i < records@.len() ==> (#[trigger] r@[i]).id == records@[i].id && segments_ok(
                records@[i].seq@,
                segment_size as int,
                kmer_size as int,
                r@[i].segments@,
            ),
{
    let mut out: Vec<RecordResult> = Vec::new();
    let mut i: usize = 0;
    while i < records.len()
        invariant
            segment_size >= 1,
            kmer_size >= 1,
            i <= records@.len(),
            out@.len() == i,
            forall|j: int|
                0 <= j < i ==> (#[trigger] out@[j]).id == records@[j].id && segments_ok(
                    records@[j].seq@,
                    segment_size as int,
                    kmer_size as int,
                    out@[j].segments@,
                ),
        decreases records@.len() - i,
    {
        let rec = &records[i];
        let id = rec.id.clone();
        let segments = score_sequence(rec.seq.as_slice(), segment_size, kmer_size);
        out.push(RecordResult { id, segments });
        i += 1;
    }
    out
}

} // verus!
