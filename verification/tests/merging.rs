use trtools::merge::merge_order;
use trtools::merge::OrderedResult;
use trtools::pipeline::score_records;
use trtools::pipeline::InputRecord;

fn tag(index: usize, id: &str) -> OrderedResult {
    OrderedResult { index, id: String::from(id) }
}

#[test]
fn merge_restores_input_order() {
    // Workers finished in the order 2, 0, 1; the merge puts the records
    // back into input order 0, 1, 2.
    let completed = vec![tag(2, "c"), tag(0, "a"), tag(1, "b")];
    let merged = merge_order(completed);
    assert_eq!(merged.len(), 3);
    assert_eq!(merged[0].index, 0);
    assert_eq!(merged[0].id, "a");
    assert_eq!(merged[1].index, 1);
    assert_eq!(merged[1].id, "b");
    assert_eq!(merged[2].index, 2);
    assert_eq!(merged[2].id, "c");
}

#[test]
fn merge_is_invariant_to_completion_order() {
    // The same three records, completed in two different orders — as a
    // one-worker run and a many-worker run would produce — merge to the
    // same sequence.
    let first_run = vec![tag(0, "a"), tag(1, "b"), tag(2, "c")];
    let second_run = vec![tag(1, "b"), tag(2, "c"), tag(0, "a")];
    let merged_first = merge_order(first_run);
    let merged_second = merge_order(second_run);
    assert_eq!(merged_first.len(), merged_second.len());
    for (x, y) in merged_first.iter().zip(merged_second.iter()) {
        assert_eq!(x.index, y.index);
        assert_eq!(x.id, y.id);
    }
}

#[test]
fn merge_of_empty_is_empty() {
    let merged = merge_order(Vec::new());
    assert_eq!(merged.len(), 0);
}

#[test]
fn merge_keeps_every_tag() {
    let completed = vec![tag(3, "d"), tag(1, "b"), tag(0, "a"), tag(2, "c")];
    let merged = merge_order(completed);
    assert_eq!(merged.len(), 4);
    for (i, expected) in ["a", "b", "c", "d"].iter().enumerate() {
        assert_eq!(merged[i].index, i);
        assert_eq!(&merged[i].id, expected);
    }
}

#[test]
fn three_records_keep_input_order() {
    let records = vec![
        InputRecord { id: String::from("first"), seq: b"ACGTACGTACGT".to_vec() },
        InputRecord { id: String::from("second"), seq: b"GGGGCCCC".to_vec() },
        InputRecord { id: String::from("third"), seq: b"ATATATAT".to_vec() },
    ];
    let results = score_records(&records, 10, 4);
    assert_eq!(results.len(), 3);
    assert_eq!(results[0].id, "first");
    assert_eq!(results[1].id, "second");
    assert_eq!(results[2].id, "third");
    // Length 12 with segment size 10: a full segment and a remainder.
    assert_eq!(results[0].segments.len(), 2);
    assert_eq!(results[1].segments.len(), 1);
    assert_eq!(results[2].segments.len(), 1);
    // The pipeline's record output matches the scorer called alone.
    let alone = trtools::scorer::score_sequence(b"GGGGCCCC", 10, 4);
    assert_eq!(results[1].segments, alone);
}
