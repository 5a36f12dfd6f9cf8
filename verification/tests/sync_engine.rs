use marketsync::merge::{contains_key, dedup_keep_first, merge, sort_records};
use marketsync::paginate::{fetch_all_backward, fetch_all_bidirectional, fetch_all_forward};
use marketsync::record::{record_before, Record};
use marketsync::sync::{
    stamp_records, sync_backward_dataset, sync_bidirectional_dataset, sync_forward_dataset,
    sync_merge, watermark_max_key, watermark_max_time, watermark_min_time,
};

fn rec(key: u64, time: u64, payload: &str) -> Record {
    Record { key, time, payload: payload.to_string(), recorded_at: 0 }
}

fn assert_sorted_unique(rs: &[Record]) {
    for w in rs.windows(2) {
        assert!(
            w[0].time < w[1].time || (w[0].time == w[1].time && w[0].key < w[1].key),
            "records out of order"
        );
        assert_ne!(w[0].key, w[1].key);
    }
}

#[test]
fn merge_keeps_previous_on_shared_keys() {
    let previous = vec![rec(1, 10, "a1"), rec(2, 20, "a2")];
    let fetched = vec![rec(2, 20, "b2"), rec(3, 5, "b3")];
    let merged = merge(&previous, &fetched);
    assert_eq!(merged.len(), 3);
    assert_eq!(merged[0], rec(3, 5, "b3"));
    assert_eq!(merged[1], rec(1, 10, "a1"));
    assert_eq!(merged[2], rec(2, 20, "a2"));
    assert_sorted_unique(&merged);
}

#[test]
fn merge_ties_on_time_break_by_key() {
    let previous = vec![rec(7, 50, "p")];
    let fetched = vec![rec(3, 50, "f"), rec(9, 50, "g")];
    let merged = merge(&previous, &fetched);
    assert_eq!(merged.len(), 3);
    assert_eq!(merged[0].key, 3);
    assert_eq!(merged[1].key, 7);
    assert_eq!(merged[2].key, 9);
}

#[test]
fn dedup_keeps_first_occurrence() {
    let all = vec![rec(1, 10, "first"), rec(2, 20, "x"), rec(1, 10, "second")];
    let d = dedup_keep_first(&all);
    assert_eq!(d.len(), 2);
    assert_eq!(d[0].payload, "first");
    assert!(contains_key(&d, 1));
    assert!(contains_key(&d, 2));
    assert!(!contains_key(&d, 3));
}

#[test]
fn sort_records_orders_by_time_then_key() {
    let input = vec![rec(5, 30, "c"), rec(1, 10, "a"), rec(4, 30, "b")];
    let sorted = sort_records(input);
    assert_eq!(sorted[0].key, 1);
    assert_eq!(sorted[1].key, 4);
    assert_eq!(sorted[2].key, 5);
    assert!(record_before(&sorted[0], &sorted[1]));
}

#[test]
fn sync_merge_skips_write_without_new_data() {
    let previous = vec![rec(1, 10, "a")];
    let fetched: Vec<Record> = Vec::new();
    let (merged, wrote) = sync_merge(&previous, &fetched);
    assert!(!wrote);
    assert_eq!(merged, previous);
}

#[test]
fn forward_pagination_counts_pages() {
    let remote: Vec<Record> = (0..2500u64).map(|i| rec(i, i, "r")).collect();
    let (recs, n_pages) = fetch_all_forward(&remote, 0, 1000);
    assert_eq!(recs.len(), 2500);
    // Three data pages, then the empty page that ends the loop.
    assert_eq!(n_pages, 4);
}

#[test]
fn forward_pagination_from_watermark() {
    let remote: Vec<Record> = (0..10u64).map(|i| rec(i, i, "r")).collect();
    let (recs, _) = fetch_all_forward(&remote, 7, 5);
    assert_eq!(recs.len(), 3);
    assert_eq!(recs[0].key, 7);
}

#[test]
fn backward_pagination_overlaps_one_row() {
    let remote: Vec<Record> = (0..1999u64).map(|i| rec(i, (i + 1) * 60, "c")).collect();
    let (recs, n_pages) = fetch_all_backward(&remote, 0, 1000);
    // Two pages of 1000 and one final single-row page that repeats the
    // boundary row of the page before it.
    assert_eq!(n_pages, 3);
    assert_eq!(recs.len(), 2001);
}

#[test]
fn backward_pagination_stops_at_watermark() {
    let remote: Vec<Record> = (0..100u64).map(|i| rec(i, i * 10, "c")).collect();
    let (recs, n_pages) = fetch_all_backward(&remote, 950, 10);
    // The watermark timestamp appears in the first page already.
    assert_eq!(n_pages, 1);
    assert_eq!(recs.len(), 10);
    assert!(recs.iter().any(|r| r.time == 950));
}

#[test]
fn bidirectional_start_converges() {
    let remote = vec![rec(1, 10, "a"), rec(2, 20, "b"), rec(3, 30, "c")];
    let (recs, n_pages) = fetch_all_bidirectional(&remote, Some(10), 100, 2);
    assert!(recs.iter().any(|r| r.time == 10));
    assert!(recs.iter().any(|r| r.time == 20));
    assert!(recs.iter().any(|r| r.time == 30));
    // Two advancing pages, the one-row page at the end, and the repeated
    // one-row page that shows no forward progress.
    assert_eq!(n_pages, 4);
}

#[test]
fn bidirectional_end_converges() {
    let remote = vec![rec(1, 10, "a"), rec(2, 20, "b"), rec(3, 30, "c")];
    let (recs, n_pages) = fetch_all_bidirectional(&remote, None, 100, 2);
    assert!(recs.iter().any(|r| r.time == 10));
    assert!(recs.iter().any(|r| r.time == 20));
    assert!(recs.iter().any(|r| r.time == 30));
    assert_eq!(n_pages, 4);
}

#[test]
fn bidirectional_respects_now() {
    let remote = vec![rec(1, 10, "a"), rec(2, 20, "b"), rec(3, 99999, "future")];
    let (recs, _) = fetch_all_bidirectional(&remote, None, 50, 2);
    assert!(recs.iter().any(|r| r.time == 10));
    assert!(recs.iter().any(|r| r.time == 20));
    assert!(!recs.iter().any(|r| r.time == 99999));
}

#[test]
fn candle_scenario_first_run() {
    // A fresh candle dataset: no prior data, the remote holds 1999 rows,
    // pages of 1000 overlap by one row, and the final page holds a single
    // row already seen in the page before it.
    let remote: Vec<Record> = (0..1999u64).map(|i| rec((i + 1) * 60, (i + 1) * 60, "c")).collect();
    let previous: Vec<Record> = Vec::new();
    let (merged, n_new, wrote, n_pages) = sync_backward_dataset(&previous, &remote, 0, 1000, 42);
    assert_eq!(n_pages, 3);
    assert_eq!(n_new, 2001);
    assert!(wrote);
    assert_eq!(merged.len(), 1999);
    assert_sorted_unique(&merged);
    assert!(merged.iter().all(|r| r.recorded_at == 42));
}

#[test]
fn candle_scenario_second_run_changes_nothing() {
    let remote: Vec<Record> = (0..50u64).map(|i| rec((i + 1) * 60, (i + 1) * 60, "c")).collect();
    let previous: Vec<Record> = Vec::new();
    let (first, _, wrote1, _) = sync_backward_dataset(&previous, &remote, 0, 10, 1);
    assert!(wrote1);
    let watermark = watermark_max_time(&first).unwrap();
    let (second, _, _, n_pages2) = sync_backward_dataset(&first, &remote, watermark, 10, 2);
    // The re-fetched overlap is deduplicated against the prior data: the
    // dataset is unchanged, row for row, and only one page was needed.
    assert_eq!(second, first);
    assert_eq!(n_pages2, 1);
}

#[test]
fn trade_sync_second_run_skips_write() {
    let remote: Vec<Record> = (1..=5u64).map(|i| rec(i, i * 100, "t")).collect();
    let previous: Vec<Record> = Vec::new();
    let (first, n_new, wrote, _) = sync_forward_dataset(&previous, &remote, 0, 2, 9);
    assert!(wrote);
    assert_eq!(n_new, 5);
    assert_eq!(first.len(), 5);
    let from = watermark_max_key(&first).unwrap() + 1;
    let (second, n_new2, wrote2, n_pages2) = sync_forward_dataset(&first, &remote, from, 2, 10);
    assert!(!wrote2);
    assert_eq!(n_new2, 0);
    assert_eq!(second, first);
    assert_eq!(n_pages2, 1);
}

#[test]
fn ledger_sync_fresh_and_incremental() {
    let remote: Vec<Record> = (1..=7u64).map(|i| rec(i, i * 1000, "w")).collect();
    let previous: Vec<Record> = Vec::new();
    let (first, _, wrote, _) = sync_bidirectional_dataset(&previous, &remote, None, 10_000, 3, 5);
    assert!(wrote);
    assert_eq!(first.len(), 7);
    assert_sorted_unique(&first);
    let watermark = watermark_max_time(&first).unwrap();
    let (second, _, _, _) =
        sync_bidirectional_dataset(&first, &remote, Some(watermark), 10_000, 3, 6);
    assert_eq!(second, first);
}

#[test]
fn stamp_records_sets_ingestion_time() {
    let recs = vec![rec(1, 10, "a"), rec(2, 20, "b")];
    let stamped = stamp_records(&recs, 777);
    assert_eq!(stamped.len(), 2);
    assert!(stamped.iter().all(|r| r.recorded_at == 777));
    assert_eq!(stamped[0].key, 1);
    assert_eq!(stamped[1].payload, "b");
}

#[test]
fn watermarks_read_extremes() {
    let recs = vec![rec(4, 40, "a"), rec(9, 15, "b"), rec(2, 80, "c")];
    assert_eq!(watermark_max_key(&recs), Some(9));
    assert_eq!(watermark_max_time(&recs), Some(80));
    assert_eq!(watermark_min_time(&recs), Some(15));
    let empty: Vec<Record> = Vec::new();
    assert_eq!(watermark_max_key(&empty), None);
    assert_eq!(watermark_max_time(&empty), None);
    assert_eq!(watermark_min_time(&empty), None);
}
