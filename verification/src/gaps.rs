use vstd::prelude::*;

verus! {

/// `t` lies on the expected time grid anchored at `start` with step
/// `interval`.
pub open spec fn on_grid(t: u64, start: u64, interval: u64) -> bool {
    exists|k: int| 0 <= k && t == start + #[trigger] (k * interval)
}

/// One slot of the dense expected grid: its timestamp, and whether an
/// actual record carries it.
#[derive(Clone, Copy, PartialEq, Eq, Debug)]
pub struct GridSlot {
    pub ts: u64,
    pub present: bool,
}

/// Left-joins a sorted series of timestamps onto the dense grid running
/// from its first to its last entry: every grid slot appears once, marked
/// present exactly when the series carries its timestamp.  Slots are never
/// fabricated beyond the observed range, and absent slots carry no data —
/// they only surface the gap.
pub fn fill(times: &Vec<u64>, interval: u64) -> (r: Vec<GridSlot>)
    requires
        interval >= 1,
        times@.len() >= 1,
        forall|i: int, j: int| 0 <= i < j < times@.len() ==> times@[i] < times@[j],
    ensures
        r@.len() >= 1,
        forall|m: int|
            0 <= m < r@.len() ==> (#[trigger] r@[m]).ts == times@[0] + m * interval,
        times@.last() < r@.last().ts + interval,
        r@.last().ts <= times@.last(),
        forall|m: int|
            0 <= m < r@.len() ==> (#[trigger] r@[m]).present == times@.contains(r@[m].ts),
{
    let start = times[0];
    let last = times[times.len() - 1];
    assert(times@[0] <= times@.last()) by {
        if times@.len() > 1 {
            assert(times@[0] < times@[times@.len() - 1]);
        }
    }
    let mut out: Vec<GridSlot> = Vec::new();
    let mut t = start;
    let mut j: usize = 0;
    proof {
        assert(0int * interval == 0) by (nonlinear_arith);
    }
    loop
        invariant_except_break
            t == start + out@.len() * interval,
        invariant
            interval >= 1,
            start == times@[0],
            last == times@.last(),
            times@.len() >= 1,
            forall|i2: int, j2: int| 0 <= i2 < j2 < times@.len() ==> times@[i2] < times@[j2],
            start <= t <= last,
            forall|m: int|
                0 <= m < out@.len() ==> (#[trigger] out@[m]).ts == times@[0] + m * interval,
            forall|m: int|
                0 <= m < out@.len() ==> (#[trigger] out@[m]).present == times@.contains(
                    out@[m].ts,
                ),
            j <= times@.len(),
            forall|i2: int| 0 <= i2 < j ==> times@[i2] < t,
        ensures
            out@.len() >= 1,
            forall|m: int|
                0 <= m < out@.len() ==> (#[trigger] out@[m]).ts == times@[0] + m * interval,
            forall|m: int|
                0 <= m < out@.len() ==> (#[trigger] out@[m]).present == times@.contains(
                    out@[m].ts,
                ),
            out@.last().ts <= times@.last(),
            times@.last() < out@.last().ts + interval,
        decreases last - t,
    {
        while j < times.len() && times[j] < t
            invariant
                j <= times@.len(),
                forall|i2: int| 0 <= i2 < j ==> times@[i2] < t,
            decreases times@.len() - j,
        {
            j += 1;
        }
        let present = if j < times.len() {
            times[j] == t
        } else {
            false
        };
        assert(present == times@.contains(t)) by {
            if present {
                assert(times@[j as int] == t);
            }
            if times@.contains(t) {
                let i2 = choose|i2: int| 0 <= i2 < times@.len() && times@[i2] == t;
                assert(i2 >= j);
                if j < times@.len() && i2 > j {
                    assert(times@[j as int] < times@[i2]);
                }
            }
        }
        let ghost cnt = out@.len() as int;
        out.push(GridSlot { ts: t, present });
        proof {
            assert((cnt + 1) * interval == cnt * interval + interval) by (nonlinear_arith);
        }
        if last - t < interval {
            assert(out@.last().ts == t);
            break ;
        }
        t = t + interval;
    }
    out
}

/// The timestamps the series should have but does not: the grid slots of
/// `fill` that no record covers, in ascending order.  This is the gap
/// report — gaps are surfaced, never filled with fabricated data.
pub fn timestamps_missing(times: &Vec<u64>, interval: u64) -> (r: Vec<u64>)
    requires
        interval >= 1,
        times@.len() >= 1,
        forall|i: int, j: int| 0 <= i < j < times@.len() ==> times@[i] < times@[j],
    ensures
        forall|m: int|
            0 <= m < r@.len() ==> on_grid(#[trigger] r@[m], times@[0], interval) && r@[m]
                <= times@.last() && !times@.contains(r@[m]),
        forall|t: u64|
            on_grid(t, times@[0], interval) && t <= times@.last() && !times@.contains(t)
                ==> r@.contains(t),
        forall|m1: int, m2: int| 0 <= m1 < m2 < r@.len() ==> r@[m1] < r@[m2],
{
    let slots = fill(times, interval);
    let ghost start = times@[0];
    let mut out: Vec<u64> = Vec::new();
    let mut i: usize = 0;
    while i < slots.len()
        invariant
            interval >= 1,
            times@.len() >= 1,
            start == times@[0],
            forall|i2: int, j2: int| 0 <= i2 < j2 < times@.len() ==> times@[i2] < times@[j2],
            slots@.len() >= 1,
            i <= slots@.len(),
            forall|m: int|
                0 <= m < slots@.len() ==> (#[trigger] slots@[m]).ts == start + m * interval,
            forall|m: int|
                0 <= m < slots@.len() ==> (#[trigger] slots@[m]).present == times@.contains(
                    slots@[m].ts,
                ),
            slots@.last().ts <= times@.last(),
            times@.last() < slots@.last().ts + interval,
            forall|m: int|
                0 <= m < out@.len() ==> on_grid(#[trigger] out@[m], start, interval) && out@[m]
                    <= times@.last() && !times@.contains(out@[m]),
            forall|m: int|
                0 <= m < i && !(#[trigger] slots@[m]).present ==> out@.contains(slots@[m].ts),
            forall|m1: int, m2: int| 0 <= m1 < m2 < out@.len() ==> out@[m1] < out@[m2],
            forall|m: int|
                0 <= m < out@.len() ==> exists|m2: int|
                    0 <= m2 < i && (#[trigger] out@[m]) == slots@[m2].ts,
        decreases slots@.len() - i,
    {
        if !slots[i].present {
            let ghost out_pre = out@;
            out.push(slots[i].ts);
            proof {
                assert(on_grid(slots@[i as int].ts, start, interval)) by {
                    assert(slots@[i as int].ts == start + (i as int) * interval);
                }
                assert(slots@[i as int].ts <= times@.last()) by {
                    if i as int == slots@.len() - 1 {
                    } else {
                        lemma_grid_le(i as int, slots@.len() - 1, start, interval);
                        assert(slots@[slots@.len() - 1].ts == start + (slots@.len() - 1)
                            * interval);
                    }
                }
                assert forall|m1: int, m2: int|
                    0 <= m1 < m2 < out@.len() implies out@[m1] < out@[m2] by {
                    if m2 == out@.len() - 1 {
                        let mp = choose|mp: int|
                            0 <= mp < i && (#[trigger] out_pre[m1]) == slots@[mp].ts;
                        lemma_grid_lt(mp, i as int, start, interval);
                    }
                }
                assert forall|m: int| 0 <= m < out@.len() implies exists|m2: int|
                    0 <= m2 < i + 1 && (#[trigger] out@[m]) == slots@[m2].ts by {
                    if m < out_pre.len() {
                        let mp = choose|mp: int|
                            0 <= mp < i && (#[trigger] out_pre[m]) == slots@[mp].ts;
                        assert(out@[m] == slots@[mp].ts);
                    } else {
                        assert(out@[m] == slots@[i as int].ts);
                    }
                }
                assert forall|m: int|
                    0 <= m < i + 1 && !(#[trigger] slots@[m]).present implies out@.contains(
                    slots@[m].ts,
                ) by {
                    if m < i {
                        assert(out_pre.contains(slots@[m].ts));
                        let mp = choose|mp: int|
                            0 <= mp < out_pre.len() && out_pre[mp] == slots@[m].ts;
                        assert(out@[mp] == slots@[m].ts);
                    } else {
                        assert(out@[out@.len() - 1] == slots@[i as int].ts);
                    }
                }
            }
        }
        i += 1;
    }
    assert forall|t: u64|
        on_grid(t, times@[0], interval) && t <= times@.last() && !times@.contains(
        t,
    ) implies out@.contains(t) by {
        let k = choose|k: int| 0 <= k && t == start + #[trigger] (k * interval);
        assert(k < slots@.len()) by {
            if k >= slots@.len() {
                let kl = slots@.len() - 1;
                lemma_grid_le(kl + 1, k, start, interval);
                assert((kl + 1) * interval == kl * interval + interval) by (nonlinear_arith);
                assert(slots@[kl].ts == start + kl * interval);
            }
        }
        assert(slots@[k].ts == t);
        assert(!slots@[k].present);
        assert(out@.contains(slots@[k].ts));
    }
    out
}

/// Grid positions keep the grid order.
proof fn lemma_grid_le(a: int, b: int, start: u64, interval: u64)
    requires
        0 <= a <= b,
        interval >= 1,
    ensures
        start + a * interval <= start + b * interval,
{
    assert(a * interval <= b * interval) by (nonlinear_arith)
        requires
            0 <= a <= b,
            interval >= 1,
    ;
}

proof fn lemma_grid_lt(a: int, b: int, start: u64, interval: u64)
    requires
        0 <= a < b,
        interval >= 1,
    ensures
        start + a * interval < start + b * interval,
{
    assert(a * interval < b * interval) by (nonlinear_arith)
        requires
            0 <= a < b,
            interval >= 1,
    ;
}

/// The maturity check: a series is flagged when its earliest
/// available timestamp (seconds) still sits more than one day before
/// `now`, showing a pair whose collection stalled or that no longer
/// trades.
pub fn series_mature(earliest_ts: u64, now_s: u64) -> (r: bool)
    ensures
        r == (earliest_ts + 86400 < now_s),
{
    now_s > 86400 && earliest_ts < now_s - 86400
}

} // verus!
