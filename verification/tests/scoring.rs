use trtools::scorer::score_sequence;

#[test]
fn one_record_two_segments() {
    // Sequence of length 20, segment size 10, window size 5: two segments,
    // each with 10 - 5 + 1 = 6 windows.
    let seq = b"ACGTACGTACGGCCAATTGG";
    let recs = score_sequence(seq, 10, 5);
    assert_eq!(recs.len(), 2);
    assert_eq!(recs[0].windows, 6);
    assert_eq!(recs[1].windows, 6);
    assert_eq!(recs[0].start, 0);
    assert_eq!(recs[1].start, 10);
    assert_eq!(recs[0].end, 9);
    assert_eq!(recs[1].end, 19);
}

#[test]
fn repetitive_segment_collapses_to_one_hash() {
    // Every window of an all-same segment is the same bytes, so every hash
    // is the same value and the distinct count collapses to 1.
    let seq = b"AAAAAAAAAA";
    let recs = score_sequence(seq, 10, 5);
    assert_eq!(recs.len(), 1);
    assert_eq!(recs[0].windows, 6);
    assert_eq!(recs[0].distinct, 1);
}

#[test]
fn diverse_segment_keeps_all_hashes() {
    // All six windows differ, and the hash separates them.
    let seq = b"ABCDEFGHIJ";
    let recs = score_sequence(seq, 10, 5);
    assert_eq!(recs.len(), 1);
    assert_eq!(recs[0].windows, 6);
    assert_eq!(recs[0].distinct, 6);
}

#[test]
fn identical_segments_score_identically() {
    // The same bytes in two different segments give the same windows, the
    // same hashes, and so the same counts.
    let seq = b"ACGGTTACCAACGGTTACCA";
    let recs = score_sequence(seq, 10, 4);
    assert_eq!(recs.len(), 2);
    assert_eq!(recs[0].distinct, recs[1].distinct);
    assert_eq!(recs[0].windows, recs[1].windows);
}

#[test]
fn scoring_is_deterministic_across_calls() {
    let seq = b"ACGTTGCAACGTGGCCAATTGGCCAGTC";
    let first = score_sequence(seq, 10, 5);
    let second = score_sequence(seq, 10, 5);
    assert_eq!(first, second);
}

#[test]
fn remainder_segment_is_shorter() {
    // Length 25 does not divide by 10: the final segment holds the
    // remaining 5 symbols, and with window size 3 it has 5 - 3 + 1 = 3
    // windows. Its end offset is the last offset of the sequence,
    // 0-based and inclusive.
    let seq = b"ACGTACGTACGGCCAATTGGCCAGT";
    let recs = score_sequence(seq, 10, 3);
    assert_eq!(recs.len(), 3);
    assert_eq!(recs[2].start, 20);
    assert_eq!(recs[2].windows, 3);
    assert_eq!(recs[2].end, 24);
}

#[test]
fn evenly_divisible_final_segment_ends_at_last_offset() {
    let seq = b"ACGTACGTACGGCCAATTGG";
    let recs = score_sequence(seq, 10, 3);
    assert_eq!(recs.len(), 2);
    assert_eq!(recs[1].end, 19);
}

#[test]
fn segment_shorter_than_window_gets_zero_counts() {
    // Documented policy: a segment shorter than the window is emitted with
    // zero windows and zero distinct hashes, never a crash.
    let seq = b"ACG";
    let recs = score_sequence(seq, 10, 5);
    assert_eq!(recs.len(), 1);
    assert_eq!(recs[0].windows, 0);
    assert_eq!(recs[0].distinct, 0);
    assert_eq!(recs[0].start, 0);
    assert_eq!(recs[0].end, 2);
}

#[test]
fn short_remainder_after_full_segment_gets_zero_counts() {
    // First segment is full, the 2-symbol remainder is shorter than the
    // 5-symbol window and is emitted with zero counts.
    let seq = b"ACGTACGTACGT";
    let recs = score_sequence(seq, 10, 5);
    assert_eq!(recs.len(), 2);
    assert_eq!(recs[0].windows, 6);
    assert!(recs[0].distinct >= 1);
    assert_eq!(recs[1].windows, 0);
    assert_eq!(recs[1].distinct, 0);
}

#[test]
fn score_stays_in_unit_interval() {
    let seq = b"ACGTACGTACGGCCAATTGGCCAGTCAATG";
    let recs = score_sequence(seq, 10, 4);
    for rec in &recs {
        assert!(rec.windows >= 1);
        assert!(1 <= rec.distinct && rec.distinct <= rec.windows);
    }
}

#[test]
fn window_equal_to_segment_gives_single_window() {
    let seq = b"ACGTACGTAC";
    let recs = score_sequence(seq, 10, 10);
    assert_eq!(recs.len(), 1);
    assert_eq!(recs[0].windows, 1);
    assert_eq!(recs[0].distinct, 1);
}

#[test]
fn empty_sequence_yields_no_segments() {
    let seq: [u8; 0] = [];
    let recs = score_sequence(&seq, 10, 5);
    assert_eq!(recs.len(), 0);
}
