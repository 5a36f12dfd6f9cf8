use vstd::prelude::*;

use crate::merge::{
    from_first_occurrence, lemma_merge_idempotent, lemma_merge_previous_wins, merge, merge_post,
};
use crate::paginate::{
    fetch_all_backward, fetch_all_bidirectional, fetch_all_forward, sorted_by_key, sorted_by_time,
};
use crate::record::{dataset_wf, has_key, is_first_with_key, unique_keys, Record};

verus! {

/// `b` is `a` with its ingestion timestamp replaced.
pub open spec fn stamped(a: Record, b: Record, recorded_at: u64) -> bool {
    b.key == a.key && b.time == a.time && b.payload == a.payload && b.recorded_at == recorded_at
}

/// Stamps every fetched record with the ingestion timestamp of this run.
pub fn stamp_records(recs: &Vec<Record>, recorded_at: u64) -> (r: Vec<Record>)
    ensures
        r@.len() == recs@.len(),
        forall|i: int| 0 <= i < recs@.len() ==> stamped(recs@[i], #[trigger] r@[i], recorded_at),
{
    let mut out: Vec<Record> = Vec::new();
    let mut i: usize = 0;
    while i < recs.len()
        invariant
            i <= recs.len(),
            out@.len() == i,
            forall|j: int| 0 <= j < i ==> stamped(recs@[j], #[trigger] out@[j], recorded_at),
        decreases recs.len() - i,
    {
        out.push(
            Record {
                key: recs[i].key,
                time: recs[i].time,
                payload: recs[i].payload.clone(),
                recorded_at,
            },
        );
        i += 1;
    }
    out
}

/// The merge-and-persist step shared by every dataset: if nothing was
/// fetched the prior dataset stands untouched and no write happens;
/// otherwise the fetched records are merged under the prior data and the
/// caller persists the result.
pub fn sync_merge(previous: &Vec<Record>, fetched: &Vec<Record>) -> (res: (Vec<Record>, bool))
    ensures
        res.1 == (fetched@.len() > 0),
        fetched@.len() > 0 ==> merge_post(previous@, fetched@, res.0@),
        fetched@.len() == 0 ==> res.0@ == previous@,
{
    if fetched.len() == 0 {
        let mut out: Vec<Record> = Vec::new();
        let mut i: usize = 0;
        while i < previous.len()
            invariant
                i <= previous.len(),
                out@ == previous@.take(i as int),
            decreases previous.len() - i,
        {
            out.push(previous[i].duplicate());
            assert(out@ =~= previous@.take(i + 1int));
            i += 1;
        }
        assert(out@ =~= previous@);
        (out, false)
    } else {
        (merge(previous, fetched), true)
    }
}

/// The largest natural key of a persisted dataset — the watermark a
/// forward id cursor is seeded from.
pub fn watermark_max_key(previous: &Vec<Record>) -> (r: Option<u64>)
    ensures
        match r {
            None => previous@.len() == 0,
            Some(m) => has_key(previous@, m) && forall|i: int|
                0 <= i < previous@.len() ==> (#[trigger] previous@[i]).key <= m,
        },
{
    if previous.len() == 0 {
        return None;
    }
    let mut m = previous[0].key;
    let mut i: usize = 1;
    while i < previous.len()
        invariant
            1 <= i <= previous.len(),
            previous@.len() >= 1,
            has_key(previous@, m),
            forall|j: int| 0 <= j < i ==> (#[trigger] previous@[j]).key <= m,
        decreases previous.len() - i,
    {
        if previous[i].key > m {
            m = previous[i].key;
            assert(previous@[i as int].key == m);
        }
        i += 1;
    }
    assert(previous@[0].key <= m);
    Some(m)
}

/// The newest timestamp of a persisted dataset — the watermark a time
/// cursor is seeded from.
pub fn watermark_max_time(previous: &Vec<Record>) -> (r: Option<u64>)
    ensures
        match r {
            None => previous@.len() == 0,
            Some(m) => (exists|i: int|
                0 <= i < previous@.len() && (#[trigger] previous@[i]).time == m) && forall|i: int|
                0 <= i < previous@.len() ==> (#[trigger] previous@[i]).time <= m,
        },
{
    if previous.len() == 0 {
        return None;
    }
    let mut m = previous[0].time;
    let mut i: usize = 1;
    while i < previous.len()
        invariant
            1 <= i <= previous.len(),
            previous@.len() >= 1,
            exists|j: int| 0 <= j < previous@.len() && (#[trigger] previous@[j]).time == m,
            forall|j: int| 0 <= j < i ==> (#[trigger] previous@[j]).time <= m,
        decreases previous.len() - i,
    {
        if previous[i].time > m {
            m = previous[i].time;
            assert(previous@[i as int].time == m);
        }
        i += 1;
    }
    Some(m)
}

/// The oldest timestamp of a persisted dataset, read by the maturity
/// check.
pub fn watermark_min_time(previous: &Vec<Record>) -> (r: Option<u64>)
    ensures
        match r {
            None => previous@.len() == 0,
            Some(m) => (exists|i: int|
                0 <= i < previous@.len() && (#[trigger] previous@[i]).time == m) && forall|i: int|
                0 <= i < previous@.len() ==> (#[trigger] previous@[i]).time >= m,
        },
{
    if previous.len() == 0 {
        return None;
    }
    let mut m = previous[0].time;
    let mut i: usize = 1;
    while i < previous.len()
        invariant
            1 <= i <= previous.len(),
            previous@.len() >= 1,
            exists|j: int| 0 <= j < previous@.len() && (#[trigger] previous@[j]).time == m,
            forall|j: int| 0 <= j < i ==> (#[trigger] previous@[j]).time >= m,
        decreases previous.len() - i,
    {
        if previous[i].time < m {
            m = previous[i].time;
            assert(previous@[i as int].time == m);
        }
        i += 1;
    }
    Some(m)
}

/// With unique keys in the prior data, every previously persisted record
/// survives a merge verbatim: the merge keeps the first occurrence of each
/// key, and the prior data comes first.
proof fn lemma_pass_keeps_previous(
    previous: Seq<Record>,
    fetched: Seq<Record>,
    merged: Seq<Record>,
)
    requires
        merge_post(previous, fetched, merged),
        unique_keys(previous),
    ensures
        forall|i: int| 0 <= i < previous.len() ==> merged.contains(#[trigger] previous[i]),
{
    assert forall|i: int| 0 <= i < previous.len() implies merged.contains(
        #[trigger] previous[i],
    ) by {
        assert(has_key(previous, previous[i].key));
        lemma_merge_previous_wins(previous, fetched, merged, previous[i].key);
        let i2 = choose|i2: int|
            0 <= i2 < previous.len() && (#[trigger] previous[i2]).key == previous[i].key
                && merged.contains(previous[i2]);
        assert(i2 == i) by {
            if i2 < i {
                assert(previous[i2].key != previous[i].key);
            } else if i < i2 {
                assert(previous[i].key != previous[i2].key);
            }
        }
    }
}

/// Every merged record is a previously persisted one, or a stamped copy
/// of a fetched one.
proof fn lemma_pass_provenance(
    previous: Seq<Record>,
    raw: Seq<Record>,
    fetched: Seq<Record>,
    merged: Seq<Record>,
    recorded_at: u64,
)
    requires
        merge_post(previous, fetched, merged),
        fetched.len() == raw.len(),
        forall|i: int| 0 <= i < raw.len() ==> stamped(raw[i], #[trigger] fetched[i], recorded_at),
    ensures
        forall|m: int|
            0 <= m < merged.len() ==> previous.contains(#[trigger] merged[m]) || exists|i: int|
                0 <= i < raw.len() && stamped(#[trigger] raw[i], merged[m], recorded_at),
{
    assert forall|m: int|
        0 <= m < merged.len() implies previous.contains(#[trigger] merged[m]) || exists|i: int|
        0 <= i < raw.len() && stamped(#[trigger] raw[i], merged[m], recorded_at) by {
        assert(from_first_occurrence(previous + fetched, merged, m));
        let j = choose|j: int|
            is_first_with_key(previous + fetched, j) && merged[m] == (previous + fetched)[j];
        if j < previous.len() {
            assert((previous + fetched)[j] == previous[j]);
            assert(previous.contains(previous[j]));
        } else {
            let jf = j - previous.len();
            assert((previous + fetched)[j] == fetched[jf]);
            assert(stamped(raw[jf], fetched[jf], recorded_at));
        }
    }
}

/// One full incremental pass of a forward-id dataset (executed trades)
/// against an in-memory remote: paginate from `from_id`, stamp, merge,
/// and report whether a write is due.
pub fn sync_forward_dataset(
    previous: &Vec<Record>,
    remote: &Vec<Record>,
    from_id: u64,
    page_size: usize,
    recorded_at: u64,
) -> (res: (Vec<Record>, usize, bool, usize))
    requires
        sorted_by_key(remote@),
        page_size >= 1,
        remote@.len() + 2 <= usize::MAX,
    ensures
        ({
            let (merged, n_new, wrote, n_pages) = res;
            &&& wrote == (n_new > 0)
            &&& wrote == exists|i: int|
                0 <= i < remote@.len() && (#[trigger] remote@[i]).key >= from_id
            &&& !wrote ==> merged@ == previous@
            &&& wrote ==> dataset_wf(merged@)
            &&& wrote ==> forall|k: u64|
                has_key(merged@, k) == (has_key(previous@, k) || (k >= from_id && has_key(
                    remote@,
                    k,
                )))
            &&& wrote && unique_keys(previous@) ==> forall|i: int|
                0 <= i < previous@.len() ==> merged@.contains(#[trigger] previous@[i])
            &&& wrote ==> forall|m: int|
                0 <= m < merged@.len() ==> previous@.contains(#[trigger] merged@[m]) || exists|
                    i: int,
                |
                    0 <= i < remote@.len() && stamped(#[trigger] remote@[i], merged@[m], recorded_at)
            &&& n_pages >= 1
            &&& (n_pages == 1 && n_new == 0) || (n_pages as int - 2) * (page_size as int) < n_new
        }),
{
    let (raw, n_pages) = fetch_all_forward(remote, from_id, page_size);
    let fetched = stamp_records(&raw, recorded_at);
    let n_new = fetched.len();
    let (merged, wrote) = sync_merge(previous, &fetched);
    proof {
        let ghost start = remote@.len() - raw@.len();
        if raw@.len() > 0 {
            assert(raw@[0] == remote@[start]);
            assert(remote@[start].key >= from_id);
        }
        if exists|i: int| 0 <= i < remote@.len() && (#[trigger] remote@[i]).key >= from_id {
            let i = choose|i: int|
                0 <= i < remote@.len() && (#[trigger] remote@[i]).key >= from_id;
            assert(raw@.contains(remote@[i]));
        }
        if n_new > 0 {
            if unique_keys(previous@) {
                lemma_pass_keeps_previous(previous@, fetched@, merged@);
            }
            lemma_pass_provenance(previous@, raw@, fetched@, merged@, recorded_at);
            assert forall|m: int|
                0 <= m < merged@.len() implies previous@.contains(#[trigger] merged@[m]) || (
            exists|i: int|
                0 <= i < remote@.len() && stamped(
                    #[trigger] remote@[i],
                    merged@[m],
                    recorded_at,
                )) by {
                if !previous@.contains(merged@[m]) {
                    let i = choose|i: int|
                        0 <= i < raw@.len() && stamped(#[trigger] raw@[i], merged@[m], recorded_at);
                    assert(raw@[i] == remote@[start + i]);
                    assert(stamped(remote@[start + i], merged@[m], recorded_at));
                }
            }
            assert forall|k: u64| has_key(merged@, k) == (has_key(previous@, k) || (k >= from_id
                && has_key(remote@, k))) by {
                if has_key(fetched@, k) {
                    let m = choose|m: int|
                        0 <= m < fetched@.len() && (#[trigger] fetched@[m]).key == k;
                    assert(raw@[m].key == k);
                    assert(raw@[m] == remote@[start + m]);
                    assert(has_key(remote@, k)) by {
                        assert(remote@[start + m].key == k);
                    }
                }
                if k >= from_id && has_key(remote@, k) {
                    let i = choose|i: int|
                        0 <= i < remote@.len() && (#[trigger] remote@[i]).key == k;
                    assert(raw@.contains(remote@[i]));
                    let m = choose|m: int| 0 <= m < raw@.len() && raw@[m] == remote@[i];
                    assert(fetched@[m].key == k);
                    assert(has_key(fetched@, k));
                }
            }
        }
    }
    (merged, n_new, wrote, n_pages)
}

/// One full incremental pass of a backward-time dataset (price candles):
/// paginate back to the watermark, stamp, merge.  Every remote record
/// timed at or after the watermark ends up in the merged dataset.
pub fn sync_backward_dataset(
    previous: &Vec<Record>,
    remote: &Vec<Record>,
    watermark: u64,
    page_size: usize,
    recorded_at: u64,
) -> (res: (Vec<Record>, usize, bool, usize))
    requires
        sorted_by_time(remote@),
        page_size >= 2,
    ensures
        ({
            let (merged, n_new, wrote, n_pages) = res;
            &&& wrote == (n_new > 0)
            &&& wrote == (remote@.len() > 0)
            &&& !wrote ==> merged@ == previous@
            &&& wrote ==> dataset_wf(merged@)
            &&& wrote ==> forall|k: u64| has_key(previous@, k) ==> has_key(merged@, k)
            &&& wrote ==> forall|k: u64|
                has_key(merged@, k) ==> has_key(previous@, k) || has_key(remote@, k)
            &&& wrote ==> forall|i: int|
                0 <= i < remote@.len() && (#[trigger] remote@[i]).time >= watermark ==> has_key(
                    merged@,
                    remote@[i].key,
                )
            &&& wrote && unique_keys(previous@) ==> forall|i: int|
                0 <= i < previous@.len() ==> merged@.contains(#[trigger] previous@[i])
            &&& wrote ==> forall|m: int|
                0 <= m < merged@.len() ==> previous@.contains(#[trigger] merged@[m]) || exists|
                    i: int,
                |
                    0 <= i < remote@.len() && stamped(#[trigger] remote@[i], merged@[m], recorded_at)
            &&& n_pages >= 1
            &&& (n_pages as int - 2) * (page_size as int - 1) <= remote@.len()
        }),
{
    let (raw, n_pages) = fetch_all_backward(remote, watermark, page_size);
    let fetched = stamp_records(&raw, recorded_at);
    let n_new = fetched.len();
    let (merged, wrote) = sync_merge(previous, &fetched);
    proof {
        if n_new > 0 {
            if unique_keys(previous@) {
                lemma_pass_keeps_previous(previous@, fetched@, merged@);
            }
            lemma_pass_provenance(previous@, raw@, fetched@, merged@, recorded_at);
            assert forall|m: int|
                0 <= m < merged@.len() implies previous@.contains(#[trigger] merged@[m]) || (
            exists|i: int|
                0 <= i < remote@.len() && stamped(
                    #[trigger] remote@[i],
                    merged@[m],
                    recorded_at,
                )) by {
                if !previous@.contains(merged@[m]) {
                    let i = choose|i: int|
                        0 <= i < raw@.len() && stamped(#[trigger] raw@[i], merged@[m], recorded_at);
                    assert(raw@.contains(raw@[i]));
                    assert(remote@.contains(raw@[i]));
                    let i2 = choose|i2: int| 0 <= i2 < remote@.len() && remote@[i2] == raw@[i];
                    assert(stamped(remote@[i2], merged@[m], recorded_at));
                }
            }
            assert forall|i: int|
                0 <= i < remote@.len() && (#[trigger] remote@[i]).time
                    >= watermark implies has_key(merged@, remote@[i].key) by {
                assert(raw@.contains(remote@[i]));
                let m = choose|m: int| 0 <= m < raw@.len() && raw@[m] == remote@[i];
                assert(fetched@[m].key == remote@[i].key);
                assert(has_key(fetched@, remote@[i].key));
            }
            assert forall|k: u64| has_key(merged@, k) implies has_key(previous@, k) || has_key(
                remote@,
                k,
            ) by {
                if has_key(fetched@, k) {
                    let m = choose|m: int|
                        0 <= m < fetched@.len() && (#[trigger] fetched@[m]).key == k;
                    assert(raw@[m].key == k);
                    assert(raw@.contains(raw@[m]));
                    assert(remote@.contains(raw@[m]));
                    let i = choose|i: int| 0 <= i < remote@.len() && remote@[i] == raw@[m];
                    assert(remote@[i].key == k);
                    assert(has_key(remote@, k));
                }
            }
        }
    }
    (merged, n_new, wrote, n_pages)
}

/// One full incremental pass of a ledger-style dataset (account trades,
/// withdrawals) driven by the bidirectional time cursor: forward from the
/// watermark when one exists, else backward from `now`.  Every remote
/// record inside the cursor's range ends up in the merged dataset.
pub fn sync_bidirectional_dataset(
    previous: &Vec<Record>,
    remote: &Vec<Record>,
    watermark: Option<u64>,
    now: u64,
    page_size: usize,
    recorded_at: u64,
) -> (res: (Vec<Record>, usize, bool, usize))
    requires
        sorted_by_time(remote@),
        page_size >= 2,
        remote@.len() + 2 <= usize::MAX,
    ensures
        ({
            let (merged, n_new, wrote, n_pages) = res;
            &&& wrote == (n_new > 0)
            &&& !wrote ==> merged@ == previous@
            &&& wrote ==> dataset_wf(merged@)
            &&& wrote ==> forall|k: u64| has_key(previous@, k) ==> has_key(merged@, k)
            &&& wrote ==> forall|k: u64|
                has_key(merged@, k) ==> has_key(previous@, k) || has_key(remote@, k)
            &&& wrote || forall|i: int|
                0 <= i < remote@.len() ==> !((match watermark {
                    Some(w) => (#[trigger] remote@[i]).time >= w,
                    None => true,
                }) && remote@[i].time <= now)
            &&& wrote ==> forall|i: int|
                0 <= i < remote@.len() && (match watermark {
                    Some(w) => (#[trigger] remote@[i]).time >= w,
                    None => true,
                }) && remote@[i].time <= now ==> has_key(merged@, remote@[i].key)
            &&& wrote && unique_keys(previous@) ==> forall|i: int|
                0 <= i < previous@.len() ==> merged@.contains(#[trigger] previous@[i])
            &&& wrote ==> forall|m: int|
                0 <= m < merged@.len() ==> previous@.contains(#[trigger] merged@[m]) || exists|
                    i: int,
                |
                    0 <= i < remote@.len() && stamped(#[trigger] remote@[i], merged@[m], recorded_at)
            &&& n_pages >= 1
            &&& (n_pages as int - 3) * (page_size as int - 1) <= remote@.len()
        }),
{
    let (raw, n_pages) = fetch_all_bidirectional(remote, watermark, now, page_size);
    let fetched = stamp_records(&raw, recorded_at);
    let n_new = fetched.len();
    let (merged, wrote) = sync_merge(previous, &fetched);
    proof {
        if n_new > 0 {
            if unique_keys(previous@) {
                lemma_pass_keeps_previous(previous@, fetched@, merged@);
            }
            lemma_pass_provenance(previous@, raw@, fetched@, merged@, recorded_at);
            assert forall|m: int|
                0 <= m < merged@.len() implies previous@.contains(#[trigger] merged@[m]) || (
            exists|i: int|
                0 <= i < remote@.len() && stamped(
                    #[trigger] remote@[i],
                    merged@[m],
                    recorded_at,
                )) by {
                if !previous@.contains(merged@[m]) {
                    let i = choose|i: int|
                        0 <= i < raw@.len() && stamped(#[trigger] raw@[i], merged@[m], recorded_at);
                    assert(raw@.contains(raw@[i]));
                    assert(remote@.contains(raw@[i]));
                    let i2 = choose|i2: int| 0 <= i2 < remote@.len() && remote@[i2] == raw@[i];
                    assert(stamped(remote@[i2], merged@[m], recorded_at));
                }
            }
            assert forall|i: int|
                0 <= i < remote@.len() && (match watermark {
                    Some(w) => (#[trigger] remote@[i]).time >= w,
                    None => true,
                }) && remote@[i].time <= now implies has_key(merged@, remote@[i].key) by {
                assert(raw@.contains(remote@[i]));
                let m = choose|m: int| 0 <= m < raw@.len() && raw@[m] == remote@[i];
                assert(fetched@[m].key == remote@[i].key);
                assert(has_key(fetched@, remote@[i].key));
            }
            assert forall|k: u64| has_key(merged@, k) implies has_key(previous@, k) || has_key(
                remote@,
                k,
            ) by {
                if has_key(fetched@, k) {
                    let m = choose|m: int|
                        0 <= m < fetched@.len() && (#[trigger] fetched@[m]).key == k;
                    assert(raw@[m].key == k);
                    assert(raw@.contains(raw@[m]));
                    assert(remote@.contains(raw@[m]));
                    let i = choose|i: int| 0 <= i < remote@.len() && remote@[i] == raw@[m];
                    assert(remote@[i].key == k);
                    assert(has_key(remote@, k));
                }
            }
        } else {
            assert forall|i: int| 0 <= i < remote@.len() implies !((match watermark {
                Some(w) => (#[trigger] remote@[i]).time >= w,
                None => true,
            }) && remote@[i].time <= now) by {
                if (match watermark {
                    Some(w) => remote@[i].time >= w,
                    None => true,
                }) && remote@[i].time <= now {
                    assert(raw@.contains(remote@[i]));
                }
            }
        }
    }
    (merged, n_new, wrote, n_pages)
}

/// Synchronizing twice in a row with no new remote data leaves the
/// persisted dataset exactly as it was: whatever `sync_merge` returned —
/// the untouched prior data on an empty fetch, or a merge of re-fetched
/// duplicates — it is the prior dataset, row for row and in the same
/// order.
pub proof fn lemma_sync_idempotent(
    prev: Seq<Record>,
    fetched: Seq<Record>,
    merged: Seq<Record>,
    wrote: bool,
)
    requires
        dataset_wf(prev),
        forall|k: u64| has_key(fetched, k) ==> has_key(prev, k),
        wrote == (fetched.len() > 0),
        wrote ==> merge_post(prev, fetched, merged),
        !wrote ==> merged == prev,
    ensures
        merged =~= prev,
{
    if wrote {
        lemma_merge_idempotent(prev, fetched, merged);
    }
}

} // verus!
