use mkt_pubber::MktArchiveMsg;
use mkt_pubber::store::{LogStore, Operation, PushError, PushOutcome, parse_period};

fn entry(period: i64, post_ts: i64, count: u64) -> MktArchiveMsg {
    MktArchiveMsg::new(period, post_ts, count, vec![0xAB, period as u8])
}

#[test]
fn key_is_post_ts_dash_period() {
    let m = MktArchiveMsg::new(45, 123, 9, vec![1, 2, 3]);
    assert_eq!(m.key, "123-45");
    assert_eq!(m.info_count, 9);
    assert_eq!(m.msg_content, vec![1, 2, 3]);
}

#[test]
fn key_with_negative_post_ts() {
    let m = MktArchiveMsg::new(7, -5, 1, vec![]);
    assert_eq!(m.key, "-5-7");
    // The period is everything after the first separator.
    assert_eq!(parse_period(&m.key).unwrap(), "5-7");
}

#[test]
fn parse_period_splits_at_first_separator() {
    assert_eq!(parse_period("123-45").unwrap(), "45");
    assert_eq!(parse_period("1-2-3").unwrap(), "2-3");
    assert_eq!(parse_period("-x").unwrap(), "x");
    assert!(parse_period("nodash").is_none());
    assert!(parse_period("").is_none());
}

#[test]
fn malformed_key_aborts_without_mutation() {
    let mut log = LogStore::new(10, 100);
    log.push_msg(&entry(1, 10, 1)).unwrap();
    let bad = MktArchiveMsg { key: String::from("nodash"), info_count: 5, msg_content: vec![] };
    assert_eq!(log.push_msg(&bad).unwrap_err(), PushError::FormatError);
    assert_eq!(log.len(), 1);
    assert_eq!(log.get(0).key, "10-1");
}

#[test]
fn growing_revisions_keep_one_entry_per_period() {
    // Non-decreasing completeness for one period: after each insert the
    // log holds exactly one entry carrying the running maximum.
    let mut log = LogStore::new(10, 100);
    let counts = [1u64, 2, 2, 5, 9, 9];
    for (i, &c) in counts.iter().enumerate() {
        let r = log.push_msg(&entry(77, 1000 + i as i64, c)).unwrap();
        if i > 0 && c == counts[i - 1] {
            assert_eq!(r, PushOutcome::Equal);
        } else {
            assert_eq!(r, PushOutcome::Updated);
        }
        assert_eq!(log.len(), 1);
        assert_eq!(parse_period(&log.get(0).key).unwrap(), "77");
        assert_eq!(log.get(0).info_count, c);
    }
}

#[test]
fn lower_revision_is_skipped_and_changes_nothing() {
    // A [5, 3] sequence for one period leaves the same log as inserting
    // only the 5; the 3 reports SKIPPED with zero entry-count change.
    let mut log = LogStore::new(10, 100);
    assert_eq!(log.push_msg(&entry(5, 100, 5)).unwrap(), PushOutcome::Updated);
    let key_before = log.get(0).key.clone();
    let count_before = log.get(0).info_count;
    assert_eq!(log.push_msg(&entry(5, 101, 3)).unwrap(), PushOutcome::Skipped);
    assert_eq!(log.len(), 1);
    assert_eq!(log.get(0).key, key_before);
    assert_eq!(log.get(0).info_count, count_before);
}

#[test]
fn equal_revision_reports_equal_and_changes_nothing() {
    let mut log = LogStore::new(10, 100);
    log.push_msg(&entry(8, 200, 4)).unwrap();
    let len_before = log.len();
    assert_eq!(log.push_msg(&entry(8, 201, 4)).unwrap(), PushOutcome::Equal);
    assert_eq!(log.len(), len_before);
    assert_eq!(log.get(0).key, "200-8");
    assert_eq!(log.get(0).info_count, 4);
}

#[test]
fn at_capacity_distinct_period_evicts_exactly_the_oldest() {
    // max_stream_size = 2: inserting a third period evicts the first
    // entry and the length stays at the bound.
    let mut log = LogStore::new(2, 100);
    assert_eq!(log.push_msg(&entry(1, 11, 1)).unwrap(), PushOutcome::Updated);
    assert_eq!(log.len(), 1);
    assert_eq!(log.get(0).operation, Operation::Insert);
    assert_eq!(log.push_msg(&entry(2, 12, 1)).unwrap(), PushOutcome::Updated);
    assert_eq!(log.len(), 2);
    assert_eq!(log.push_msg(&entry(3, 13, 1)).unwrap(), PushOutcome::Updated);
    assert_eq!(log.len(), 2);
    assert_eq!(parse_period(&log.get(0).key).unwrap(), "2");
    assert_eq!(parse_period(&log.get(1).key).unwrap(), "3");
}

#[test]
fn replacement_is_tagged_update_with_replaced_count() {
    let mut log = LogStore::new(10, 100);
    log.push_msg(&entry(9, 300, 2)).unwrap();
    log.push_msg(&entry(9, 301, 6)).unwrap();
    assert_eq!(log.len(), 1);
    assert_eq!(log.get(0).operation, Operation::Update);
    assert_eq!(log.get(0).replaced_count, 1);
    assert_eq!(log.get(0).info_count, 6);
    assert_eq!(log.get(0).payload, vec![0xAB, 9]);
}

#[test]
fn first_entry_is_tagged_insert() {
    let mut log = LogStore::new(10, 100);
    log.push_msg(&entry(4, 400, 3)).unwrap();
    assert_eq!(log.get(0).operation, Operation::Insert);
    assert_eq!(log.get(0).replaced_count, 0);
}

#[test]
fn zero_metric_into_empty_window_ties_and_is_not_written() {
    // The empty window's maximum is zero, so a zero-metric capture
    // reports EQUAL and the log stays empty.
    let mut log = LogStore::new(10, 100);
    assert_eq!(log.push_msg(&entry(1, 10, 0)).unwrap(), PushOutcome::Equal);
    assert_eq!(log.len(), 0);
}

#[test]
fn narrow_window_misses_an_out_of_window_duplicate() {
    // The bounded window trades completeness for scan cost: with a
    // window of one, a period pushed out of the window is not seen, and
    // a second entry for it is inserted rather than replacing the first.
    let mut log = LogStore::new(10, 1);
    log.push_msg(&entry(100, 10, 5)).unwrap();
    log.push_msg(&entry(200, 11, 1)).unwrap();
    log.push_msg(&entry(100, 12, 7)).unwrap();
    assert_eq!(log.len(), 3);
    assert_eq!(parse_period(&log.get(0).key).unwrap(), "100");
    assert_eq!(parse_period(&log.get(2).key).unwrap(), "100");
}

#[test]
fn sequence_ids_increase_with_each_write() {
    let mut log = LogStore::new(10, 100);
    log.push_msg(&entry(1, 10, 1)).unwrap();
    log.push_msg(&entry(2, 11, 1)).unwrap();
    assert!(log.get(0).seq_id < log.get(1).seq_id);
}
