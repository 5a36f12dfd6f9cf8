use vstd::prelude::*;

use crate::record::Record;

verus! {

/// Strictly ascending natural keys (sequential ids).
pub open spec fn sorted_by_key(s: Seq<Record>) -> bool {
    forall|i: int, j: int| 0 <= i < j < s.len() ==> (#[trigger] s[i]).key < (#[trigger] s[j]).key
}

/// Strictly ascending timestamps.
pub open spec fn sorted_by_time(s: Seq<Record>) -> bool {
    forall|i: int, j: int| 0 <= i < j < s.len() ==> (#[trigger] s[i]).time < (#[trigger] s[j]).time
}

/// Drives the forward id cursor over a finite remote dataset held in
/// memory: each page asks for up to `page_size` records with ids at or
/// after the cursor, the cursor advances past the page's last id, and the
/// loop ends on the first empty page.  Returns the fetched records and the
/// number of pages requested, which is at most
/// `ceil(fetched / page_size) + 1` — stated below in multiplication form.
pub fn fetch_all_forward(remote: &Vec<Record>, from_key: u64, page_size: usize) -> (res: (
    Vec<Record>,
    usize,
))
    requires
        sorted_by_key(remote@),
        page_size >= 1,
        remote@.len() < usize::MAX,
    ensures
        ({
            let (recs, n_pages) = res;
            &&& recs@.len() <= remote@.len()
            &&& recs@ == remote@.skip(remote@.len() - recs@.len())
            &&& forall|m: int| 0 <= m < recs@.len() ==> (#[trigger] recs@[m]).key >= from_key
            &&& forall|i: int|
                0 <= i < remote@.len() && (#[trigger] remote@[i]).key >= from_key
                    ==> recs@.contains(remote@[i])
            &&& n_pages >= 1
            &&& (n_pages == 1 && recs@.len() == 0) || (n_pages as int - 2) * (page_size as int)
                < recs@.len()
        }),
{
    let mut start: usize = 0;
    while start < remote.len() && remote[start].key < from_key
        invariant
            start <= remote.len(),
            forall|i: int| 0 <= i < start ==> (#[trigger] remote@[i]).key < from_key,
        decreases remote.len() - start,
    {
        start += 1;
    }
    assert forall|i: int| start <= i < remote@.len() implies (#[trigger] remote@[i]).key
        >= from_key by {
        if i > start {
            assert(remote@[start as int].key < remote@[i].key);
        }
    }
    let ghost start0 = start as int;
    let mut recs: Vec<Record> = Vec::new();
    let mut idx: usize = start;
    let mut pages: usize = 0;
    loop
        invariant_except_break
            pages <= idx - start,
            pages >= 1 ==> idx - start >= (pages - 1) * page_size + 1,
        invariant
            page_size >= 1,
            start0 == start as int,
            start <= idx <= remote.len(),
            remote.len() < usize::MAX,
            recs@ == remote@.subrange(start0, idx as int),
            (idx - start == pages * page_size) || (idx == remote.len()),
            pages == 0 ==> idx == start,
        ensures
            start0 == start as int,
            idx == remote.len(),
            recs@ == remote@.subrange(start0, idx as int),
            pages >= 1,
            pages == 1 ==> idx == start,
            pages >= 2 ==> idx - start >= (pages - 2) * page_size + 1,
        decreases remote.len() - idx,
    {
        let rem = remote.len() - idx;
        let c = if rem < page_size {
            rem
        } else {
            page_size
        };
        pages += 1;
        if c == 0 {
            break ;
        }
        let stop = idx + c;
        while idx < stop
            invariant
                start <= idx <= stop <= remote.len(),
                recs@ == remote@.subrange(start0, idx as int),
                start0 == start as int,
            decreases stop - idx,
        {
            recs.push(remote[idx].duplicate());
            assert(recs@ =~= remote@.subrange(start0, idx + 1int));
            idx += 1;
        }
        proof {
            assert((pages - 1) * page_size + page_size == pages * page_size) by (nonlinear_arith);
            assert(pages >= 2 ==> (pages - 2) * page_size + page_size == (pages - 1) * page_size)
                by (nonlinear_arith);
        }
    }
    assert(recs@.len() == remote@.len() - start0);
    assert(recs@ =~= remote@.skip(start0));
    assert(remote@.skip(start0) =~= remote@.skip(remote@.len() - recs@.len()));
    assert forall|i: int|
        0 <= i < remote@.len() && (#[trigger] remote@[i]).key >= from_key implies recs@.contains(
        remote@[i],
    ) by {
        assert(i >= start0);
        assert(recs@[i - start0] == remote@[i]);
    }
    assert forall|m: int| 0 <= m < recs@.len() implies (#[trigger] recs@[m]).key >= from_key by {
        assert(recs@[m] == remote@[start0 + m]);
    }
    (recs, pages)
}

/// Drives the backward time cursor over a finite in-memory remote: the
/// first page returns the newest `page_size` records, each later page the
/// newest `page_size` records at or before the previous page's earliest
/// timestamp (so consecutive pages overlap by one row), and the loop ends
/// when a page has at most one row or reaches the watermark.  Every record
/// timed at or after the watermark is fetched.  Because of the one-row
/// overlap each page past the first contributes `page_size - 1` rows, so
/// the number of pages is bounded by `total / (page_size - 1) + 2` —
/// stated below in multiplication form.
pub fn fetch_all_backward(remote: &Vec<Record>, watermark: u64, page_size: usize) -> (res: (
    Vec<Record>,
    usize,
))
    requires
        sorted_by_time(remote@),
        page_size >= 2,
    ensures
        ({
            let (recs, n_pages) = res;
            &&& forall|x: Record| recs@.contains(x) ==> remote@.contains(x)
            &&& forall|i: int|
                0 <= i < remote@.len() && (#[trigger] remote@[i]).time >= watermark
                    ==> recs@.contains(remote@[i])
            &&& remote@.len() == 0 ==> recs@.len() == 0 && n_pages == 1
            &&& remote@.len() > 0 ==> recs@.len() > 0
            &&& n_pages >= 1
            &&& (n_pages as int - 2) * (page_size as int - 1) <= remote@.len()
        }),
{
    if remote.len() == 0 {
        let recs: Vec<Record> = Vec::new();
        proof {
            assert(remote@.len() == 0);
            assert((1int - 2) * (page_size as int - 1) <= 0) by (nonlinear_arith)
                requires
                    page_size >= 2,
            ;
        }
        return (recs, 1);
    }
    let mut recs: Vec<Record> = Vec::new();
    let mut e: usize = remote.len() - 1;
    let mut pages: usize = 0;
    loop
        invariant_except_break
            pages + e <= remote.len() - 1,
            (remote@.len() - 1 - e == pages * (page_size - 1)) || (e == 0 && pages * (page_size
                - 1) <= remote@.len() + page_size - 3),
        invariant
            page_size >= 2,
            sorted_by_time(remote@),
            1 <= remote.len(),
            e < remote.len(),
            forall|i: int| e < i < remote@.len() ==> recs@.contains(#[trigger] remote@[i]),
            forall|x: Record| recs@.contains(x) ==> remote@.contains(x),
        ensures
            forall|x: Record| recs@.contains(x) ==> remote@.contains(x),
            pages >= 1,
            recs@.len() >= 1,
            (pages as int - 2) * (page_size as int - 1) <= remote@.len(),
            forall|i: int|
                0 <= i < remote@.len() && (#[trigger] remote@[i]).time >= watermark
                    ==> recs@.contains(remote@[i]),
        decreases e,
    {
        let pstart = if e + 1 >= page_size {
            e + 1 - page_size
        } else {
            0
        };
        let ghost recs_pre = recs@;
        // Accumulate the page [pstart ..= e] and note whether it holds the
        // watermark timestamp.
        let mut has_wm = false;
        let mut j = pstart;
        while j <= e
            invariant
                pstart <= j <= e + 1,
                e < remote.len(),
                recs@ == recs_pre + remote@.subrange(pstart as int, j as int),
                has_wm == exists|i: int|
                    pstart <= i < j && (#[trigger] remote@[i]).time == watermark,
            decreases e + 1 - j,
        {
            let ghost before = exists|i: int|
                pstart <= i < j && (#[trigger] remote@[i]).time == watermark;
            recs.push(remote[j].duplicate());
            if remote[j].time == watermark {
                has_wm = true;
                assert(remote@[j as int].time == watermark);
            }
            assert(recs@ =~= recs_pre + remote@.subrange(pstart as int, j + 1int));
            assert(has_wm == exists|i: int|
                pstart <= i < j + 1 && (#[trigger] remote@[i]).time == watermark) by {
                if has_wm && !before {
                    assert(remote@[j as int].time == watermark);
                }
                if exists|i: int| pstart <= i < j + 1 && (#[trigger] remote@[i]).time
                    == watermark {
                    let i = choose|i: int|
                        pstart <= i < j + 1 && (#[trigger] remote@[i]).time == watermark;
                    if i < j {
                        assert(before);
                    }
                }
            }
            j += 1;
        }
        pages += 1;
        assert forall|i: int| pstart <= i <= e implies recs@.contains(#[trigger] remote@[i]) by {
            assert(recs@[recs_pre.len() + (i - pstart)] == remote@[i]);
        }
        assert forall|i: int| e < i < remote@.len() implies recs@.contains(
            #[trigger] remote@[i],
        ) by {
            assert(recs_pre.contains(remote@[i]));
            let m = choose|m: int| 0 <= m < recs_pre.len() && recs_pre[m] == remote@[i];
            assert(recs@[m] == remote@[i]);
        }
        assert forall|x: Record| recs@.contains(x) implies remote@.contains(x) by {
            let m = choose|m: int| 0 <= m < recs@.len() && recs@[m] == x;
            if m < recs_pre.len() {
                assert(recs_pre[m] == x);
            } else {
                assert(remote@[pstart + (m - recs_pre.len())] == x);
            }
        }
        let page_len = e + 1 - pstart;
        if page_len <= 1 || has_wm {
            proof {
                // The head invariant, with the page counter now advanced,
                // bounds the pages either way.
                if remote@.len() - 1 - e == (pages - 1) * (page_size - 1) {
                    assert((pages - 2) * (page_size - 1) + (page_size - 1) == (pages - 1)
                        * (page_size - 1)) by (nonlinear_arith);
                } else {
                    assert((pages - 1) * (page_size - 1) <= remote@.len() + page_size - 3);
                    assert((pages - 2) * (page_size - 1) + (page_size - 1) == (pages - 1)
                        * (page_size - 1)) by (nonlinear_arith);
                }
            }
            if has_wm {
                let ghost iw = choose|i: int|
                    pstart <= i <= e && (#[trigger] remote@[i]).time == watermark;
                assert forall|i: int|
                    0 <= i < remote@.len() && (#[trigger] remote@[i]).time
                        >= watermark implies recs@.contains(remote@[i]) by {
                    if i < iw {
                        assert(remote@[i].time < remote@[iw].time);
                    }
                    assert(i >= pstart);
                }
            } else {
                // A page of at most one row means the window reached the
                // oldest record: with a page size of at least two, only
                // the page starting at the very beginning is that short.
                assert(pstart == 0 && e == 0);
            }
            break ;
        }
        assert(page_len >= 2);
        assert(e >= 1);
        let ghost old_e = e as int;
        e = pstart;
        proof {
            // Re-establish the page-accounting invariant for the next head.
            assert(remote@.len() - 1 - old_e == (pages - 1) * (page_size - 1));
            if old_e + 1 >= page_size {
                assert(remote@.len() - 1 - e == (remote@.len() - 1 - old_e) + (page_size - 1));
                assert((pages - 1) * (page_size - 1) + (page_size - 1) == pages * (page_size - 1))
                    by (nonlinear_arith);
            } else {
                assert(e == 0);
                assert(old_e <= page_size - 2);
                assert((pages - 1) * (page_size - 1) + (page_size - 1) == pages * (page_size - 1))
                    by (nonlinear_arith);
                assert(pages * (page_size - 1) <= remote@.len() + page_size - 3);
            }
        }
    }
    (recs, pages)
}

/// Drives the bidirectional time cursor from the persisted watermark
/// forward: each page returns up to `page_size` records timed at or after
/// the cursor, pages overlap by one row at the boundary, and the loop ends
/// when a one-row page repeats its boundary time (no forward progress) or
/// the boundary passes `now`.  Requires distinct timestamps: with
/// `page_size` or more records sharing one timestamp no cursor of this
/// shape can make progress.
fn fetch_bidirectional_start(remote: &Vec<Record>, w: u64, now: u64, page_size: usize) -> (res: (
    Vec<Record>,
    usize,
))
    requires
        sorted_by_time(remote@),
        page_size >= 2,
        remote@.len() + 2 <= usize::MAX,
    ensures
        ({
            let (recs, n_pages) = res;
            &&& forall|x: Record| recs@.contains(x) ==> remote@.contains(x)
            &&& forall|i: int|
                0 <= i < remote@.len() && (#[trigger] remote@[i]).time >= w && remote@[i].time
                    <= now ==> recs@.contains(remote@[i])
            &&& n_pages >= 1
            &&& (n_pages as int - 3) * (page_size as int - 1) <= remote@.len()
        }),
{
    let mut s: usize = 0;
    while s < remote.len() && remote[s].time < w
        invariant
            s <= remote.len(),
            forall|i: int| 0 <= i < s ==> (#[trigger] remote@[i]).time < w,
        decreases remote.len() - s,
    {
        s += 1;
    }
    if s == remote.len() {
        // Nothing at or after the watermark: the single page comes back
        // empty.
        let recs: Vec<Record> = Vec::new();
        proof {
            assert((1int - 3) * (page_size as int - 1) <= 0) by (nonlinear_arith)
                requires
                    page_size >= 2,
            ;
        }
        return (recs, 1);
    }
    let ghost s0 = s as int;
    let n = remote.len();
    let mut recs: Vec<Record> = Vec::new();
    let mut pages: usize = 0;
    let mut stalled = false;
    loop
        invariant_except_break
            pages <= s as int - s0 + (if stalled { 2int } else { 1int }),
            (s as int - s0 == pages * (page_size - 1)) || (s == n - 1 && pages * (page_size - 1)
                <= (n - 1 - s0) + (page_size - 1)) || (stalled && pages * (page_size - 1) <= (n
                - 1 - s0) + 2 * (page_size - 1)),
        invariant
            page_size >= 2,
            sorted_by_time(remote@),
            n == remote.len(),
            1 <= n,
            n + 2 <= usize::MAX,
            0 <= s0 <= s < n,
            stalled ==> s == n - 1,
            forall|i: int| 0 <= i < s0 ==> (#[trigger] remote@[i]).time < w,
            forall|i: int| s0 <= i < s ==> recs@.contains(#[trigger] remote@[i]),
            forall|x: Record| recs@.contains(x) ==> remote@.contains(x),
        ensures
            forall|x: Record| recs@.contains(x) ==> remote@.contains(x),
            pages >= 1,
            (pages as int - 3) * (page_size as int - 1) <= remote@.len(),
            forall|i: int|
                0 <= i < remote@.len() && (#[trigger] remote@[i]).time >= w && remote@[i].time
                    <= now ==> recs@.contains(remote@[i]),
        decreases n - s, (if stalled { 0int } else { 1int }),
    {
        let pe = if n - 1 - s >= page_size - 1 {
            s + (page_size - 1)
        } else {
            n - 1
        };
        let ghost recs_pre = recs@;
        let mut j = s;
        while j <= pe
            invariant
                s <= j <= pe + 1,
                pe < n,
                n == remote.len(),
                recs@ == recs_pre + remote@.subrange(s as int, j as int),
            decreases pe + 1 - j,
        {
            recs.push(remote[j].duplicate());
            assert(recs@ =~= recs_pre + remote@.subrange(s as int, j + 1int));
            j += 1;
        }
        pages += 1;
        assert forall|i: int| s <= i <= pe implies recs@.contains(#[trigger] remote@[i]) by {
            assert(recs@[recs_pre.len() + (i - s)] == remote@[i]);
        }
        assert forall|i: int| s0 <= i <= pe implies recs@.contains(#[trigger] remote@[i]) by {
            if i < s {
                assert(recs_pre.contains(remote@[i]));
                let m = choose|m: int| 0 <= m < recs_pre.len() && recs_pre[m] == remote@[i];
                assert(recs@[m] == remote@[i]);
            } else {
                assert(recs@[recs_pre.len() + (i - s)] == remote@[i]);
            }
        }
        assert forall|x: Record| recs@.contains(x) implies remote@.contains(x) by {
            let m = choose|m: int| 0 <= m < recs@.len() && recs@[m] == x;
            if m < recs_pre.len() {
                assert(recs_pre[m] == x);
            } else {
                assert(remote@[s + (m - recs_pre.len())] == x);
            }
        }
        let boundary = remote[pe].time;
        let page_len = pe + 1 - s;
        if page_len <= 1 && stalled {
            // The one-row page repeated its boundary: no forward progress.
            proof {
                lemma_bidi_bound(pages as int, page_size as int, n as int, s as int, s0, stalled);
            }
            assert(s == pe && pe == n - 1);
            break ;
        }
        if boundary > now {
            // The cursor time passed `now`: later rows are timed later
            // still, so nothing in range remains.
            proof {
                lemma_bidi_bound(pages as int, page_size as int, n as int, s as int, s0, stalled);
            }
            assert forall|i: int|
                0 <= i < remote@.len() && (#[trigger] remote@[i]).time >= w && remote@[i].time
                    <= now implies recs@.contains(remote@[i]) by {
                if i > pe {
                    assert(remote@[pe as int].time < remote@[i].time);
                }
                assert(i >= s0);
            }
            break ;
        }
        if page_len <= 1 {
            assert(s == pe && pe == n - 1);
            stalled = true;
            proof {
                assert((pages - 1) * (page_size - 1) + (page_size - 1) == pages * (page_size - 1))
                    by (nonlinear_arith);
            }
        } else {
            assert(pe >= s + 1);
            proof {
                assert((pages - 1) * (page_size - 1) + (page_size - 1) == pages * (page_size - 1))
                    by (nonlinear_arith);
            }
            s = pe;
            stalled = false;
        }
    }
    (recs, pages)
}

/// The page-count bound of the bidirectional cursor, read off the loop
/// accounting after the final page was taken.
proof fn lemma_bidi_bound(pages: int, page_size: int, n: int, s: int, s0: int, stalled: bool)
    requires
        page_size >= 2,
        0 <= s0 <= s < n,
        pages >= 1,
        (s - s0 == (pages - 1) * (page_size - 1)) || (s == n - 1 && (pages - 1) * (page_size - 1)
            <= (n - 1 - s0) + (page_size - 1)) || (stalled && (pages - 1) * (page_size - 1) <= (n
            - 1 - s0) + 2 * (page_size - 1)),
    ensures
        (pages - 3) * (page_size - 1) <= n,
{
    assert((pages - 1) * (page_size - 1) <= (n - 1 - s0) + 2 * (page_size - 1));
    assert((pages - 3) * (page_size - 1) + 2 * (page_size - 1) == (pages - 1) * (page_size - 1))
        by (nonlinear_arith);
}

/// Drives the bidirectional time cursor from `now` backward (the shape a
/// fresh dataset starts with): pages return the newest `page_size` records
/// at or before the cursor, overlap by one row, and the loop converges on
/// a repeated one-row boundary at the oldest record.
fn fetch_bidirectional_end(remote: &Vec<Record>, now: u64, page_size: usize) -> (res: (
    Vec<Record>,
    usize,
))
    requires
        sorted_by_time(remote@),
        page_size >= 2,
        remote@.len() + 2 <= usize::MAX,
    ensures
        ({
            let (recs, n_pages) = res;
            &&& forall|x: Record| recs@.contains(x) ==> remote@.contains(x)
            &&& forall|i: int|
                0 <= i < remote@.len() && (#[trigger] remote@[i]).time <= now ==> recs@.contains(
                    remote@[i],
                )
            &&& n_pages >= 1
            &&& (n_pages as int - 3) * (page_size as int - 1) <= remote@.len()
        }),
{
    // The newest record at or before `now`, if any.
    let mut last: usize = remote.len();
    while last > 0 && remote[last - 1].time > now
        invariant
            last <= remote.len(),
            forall|i: int| last <= i < remote@.len() ==> (#[trigger] remote@[i]).time > now,
        decreases last,
    {
        last -= 1;
    }
    if last == 0 {
        // Everything is in the future: the single page comes back empty.
        let recs: Vec<Record> = Vec::new();
        proof {
            assert((1int - 3) * (page_size as int - 1) <= 0) by (nonlinear_arith)
                requires
                    page_size >= 2,
            ;
        }
        return (recs, 1);
    }
    let ghost e0 = last - 1int;
    let mut e: usize = last - 1;
    let n = remote.len();
    let mut recs: Vec<Record> = Vec::new();
    let mut pages: usize = 0;
    let mut stalled = false;
    loop
        invariant_except_break
            pages <= e0 - e + (if stalled { 2int } else { 1int }),
            (e0 - e == pages * (page_size - 1)) || (e == 0 && pages * (page_size - 1) <= e0
                + (page_size - 1)) || (stalled && pages * (page_size - 1) <= e0 + 2 * (page_size
                - 1)),
        invariant
            page_size >= 2,
            sorted_by_time(remote@),
            n == remote.len(),
            1 <= n,
            n + 2 <= usize::MAX,
            0 <= e as int <= e0 < n,
            stalled ==> e == 0,
            forall|i: int| e < i <= e0 ==> recs@.contains(#[trigger] remote@[i]),
            forall|x: Record| recs@.contains(x) ==> remote@.contains(x),
        ensures
            forall|x: Record| recs@.contains(x) ==> remote@.contains(x),
            pages >= 1,
            (pages as int - 3) * (page_size as int - 1) <= remote@.len(),
            forall|i: int| 0 <= i <= e0 ==> recs@.contains(#[trigger] remote@[i]),
        decreases e, (if stalled { 0int } else { 1int }),
    {
        let pstart = if e + 1 >= page_size {
            e + 1 - page_size
        } else {
            0
        };
        let ghost recs_pre = recs@;
        let mut j = pstart;
        while j <= e
            invariant
                pstart <= j <= e + 1,
                e < n,
                n == remote.len(),
                recs@ == recs_pre + remote@.subrange(pstart as int, j as int),
            decreases e + 1 - j,
        {
            recs.push(remote[j].duplicate());
            assert(recs@ =~= recs_pre + remote@.subrange(pstart as int, j + 1int));
            j += 1;
        }
        pages += 1;
        assert forall|i: int| pstart <= i <= e implies recs@.contains(#[trigger] remote@[i]) by {
            assert(recs@[recs_pre.len() + (i - pstart)] == remote@[i]);
        }
        assert forall|i: int| pstart <= i <= e0 implies recs@.contains(#[trigger] remote@[i]) by {
            if i > e {
                assert(recs_pre.contains(remote@[i]));
                let m = choose|m: int| 0 <= m < recs_pre.len() && recs_pre[m] == remote@[i];
                assert(recs@[m] == remote@[i]);
            }
        }
        assert forall|x: Record| recs@.contains(x) implies remote@.contains(x) by {
            let m = choose|m: int| 0 <= m < recs@.len() && recs@[m] == x;
            if m < recs_pre.len() {
                assert(recs_pre[m] == x);
            } else {
                assert(remote@[pstart + (m - recs_pre.len())] == x);
            }
        }
        let page_len = e + 1 - pstart;
        if page_len <= 1 && stalled {
            proof {
                lemma_bidi_end_bound(
                    pages as int,
                    page_size as int,
                    n as int,
                    e as int,
                    e0,
                    stalled,
                );
            }
            assert(pstart == e && e == 0);
            break ;
        }
        if page_len <= 1 {
            assert(pstart == e && e == 0);
            stalled = true;
            proof {
                assert((pages - 1) * (page_size - 1) + (page_size - 1) == pages * (page_size - 1))
                    by (nonlinear_arith);
            }
        } else {
            assert(pstart <= e - 1);
            proof {
                assert((pages - 1) * (page_size - 1) + (page_size - 1) == pages * (page_size - 1))
                    by (nonlinear_arith);
            }
            e = pstart;
            stalled = false;
        }
    }
    assert forall|i: int|
        0 <= i < remote@.len() && (#[trigger] remote@[i]).time <= now implies recs@.contains(
        remote@[i],
    ) by {
        assert(i <= e0);
    }
    (recs, pages)
}

proof fn lemma_bidi_end_bound(pages: int, page_size: int, n: int, e: int, e0: int, stalled: bool)
    requires
        page_size >= 2,
        0 <= e <= e0 < n,
        pages >= 1,
        (e0 - e == (pages - 1) * (page_size - 1)) || (e == 0 && (pages - 1) * (page_size - 1)
            <= e0 + (page_size - 1)) || (stalled && (pages - 1) * (page_size - 1) <= e0 + 2
            * (page_size - 1)),
    ensures
        (pages - 3) * (page_size - 1) <= n,
{
    assert((pages - 1) * (page_size - 1) <= e0 + 2 * (page_size - 1));
    assert((pages - 3) * (page_size - 1) + 2 * (page_size - 1) == (pages - 1) * (page_size - 1))
        by (nonlinear_arith);
}

/// Drives the bidirectional time cursor over a finite in-memory remote.
/// With a persisted watermark the cursor walks forward from it; on a fresh
/// dataset it walks backward from `now`.  Either way it fetches every
/// record in range and requests at most `total / (page_size - 1) + 3`
/// pages, stated in multiplication form below.
pub fn fetch_all_bidirectional(
    remote: &Vec<Record>,
    watermark: Option<u64>,
    now: u64,
    page_size: usize,
) -> (res: (Vec<Record>, usize))
    requires
        sorted_by_time(remote@),
        page_size >= 2,
        remote@.len() + 2 <= usize::MAX,
    ensures
        ({
            let (recs, n_pages) = res;
            &&& forall|x: Record| recs@.contains(x) ==> remote@.contains(x)
            &&& forall|i: int|
                0 <= i < remote@.len() && (match watermark {
                    Some(w) => (#[trigger] remote@[i]).time >= w,
                    None => true,
                }) && remote@[i].time <= now ==> recs@.contains(remote@[i])
            &&& n_pages >= 1
            &&& (n_pages as int - 3) * (page_size as int - 1) <= remote@.len()
        }),
{
    match watermark {
        Some(w) => fetch_bidirectional_start(remote, w, now, page_size),
        None => fetch_bidirectional_end(remote, now, page_size),
    }
}

} // verus!
