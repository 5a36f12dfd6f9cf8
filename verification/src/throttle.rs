use vstd::prelude::*;

verus! {

/// `ts` lies in the trailing admission window ending at `t`: the window is
/// closed on both ends, matching a prune that keeps every stamp at least
/// `t - period`.
pub open spec fn in_window(ts: u64, t: int, period: u64) -> bool {
    t - period <= ts <= t
}

/// How many completion stamps of `hist` lie in the window ending at `t`.
pub open spec fn window_count(hist: Seq<u64>, t: int, period: u64) -> int
    decreases hist.len(),
{
    if hist.len() == 0 {
        0
    } else {
        window_count(hist.drop_last(), t, period) + if in_window(hist.last(), t, period) {
            1int
        } else {
            0int
        }
    }
}

/// A history of completion timestamps that the admission rule allows:
/// stamps never go backwards, and each request was admitted only while
/// fewer than `limit` completions sat in its trailing window.
pub open spec fn admissible_history(hist: Seq<u64>, limit: int, period: u64) -> bool {
    &&& forall|i: int, j: int| 0 <= i < j < hist.len() ==> #[trigger] hist[i] <= #[trigger] hist[j]
    &&& forall|i: int|
        0 <= i < hist.len() ==> window_count(hist.take(i), #[trigger] hist[i] as int, period)
            < limit
}

proof fn lemma_window_count_nonneg(s: Seq<u64>, t: int, period: u64)
    ensures
        0 <= window_count(s, t, period) <= s.len(),
    decreases s.len(),
{
    if s.len() > 0 {
        lemma_window_count_nonneg(s.drop_last(), t, period);
    }
}

/// Moving the window end from `x` to a later `t` cannot pick up stamps
/// that are all at most `x`.
proof fn lemma_window_count_mono(s: Seq<u64>, x: u64, t: int, period: u64)
    requires
        forall|i: int| 0 <= i < s.len() ==> #[trigger] s[i] <= x,
        x <= t,
    ensures
        window_count(s, t, period) <= window_count(s, x as int, period),
    decreases s.len(),
{
    if s.len() > 0 {
        assert(s.last() == s[s.len() - 1]);
        assert forall|i: int| 0 <= i < s.drop_last().len() implies #[trigger] s.drop_last()[i]
            <= x by {
            assert(s.drop_last()[i] == s[i]);
        }
        lemma_window_count_mono(s.drop_last(), x, t, period);
        if in_window(s.last(), t, period) {
            assert(in_window(s.last(), x as int, period));
        }
    }
}

/// Rate admission: an admissible history never shows more than `limit`
/// completions in any trailing window of length `period`.
pub proof fn lemma_rate_admission(hist: Seq<u64>, limit: int, period: u64, t: int)
    requires
        admissible_history(hist, limit, period),
        limit >= 1,
    ensures
        window_count(hist, t, period) <= limit,
    decreases hist.len(),
{
    if hist.len() == 0 {
    } else {
        let h = hist.drop_last();
        let x = hist.last();
        assert(x == hist[hist.len() - 1]);
        assert(admissible_history(h, limit, period)) by {
            assert forall|i: int|
                0 <= i < h.len() implies window_count(h.take(i), #[trigger] h[i] as int, period)
                < limit by {
                assert(h[i] == hist[i]);
                assert(h.take(i) =~= hist.take(i));
            }
        }
        lemma_rate_admission(h, limit, period, t);
        if in_window(x, t, period) {
            assert forall|i: int| 0 <= i < h.len() implies #[trigger] h[i] <= x by {
                assert(h[i] == hist[i]);
            }
            lemma_window_count_mono(h, x, t, period);
            assert(hist.take(hist.len() - 1) =~= h);
            assert(window_count(h, x as int, period) < limit);
        }
    }
}

/// The smallest stamp of a nondecreasing history that still lies in the
/// window ending at `t` (meaningful only when one does).
pub open spec fn oldest_in_window(hist: Seq<u64>, t: int, period: u64) -> u64
    decreases hist.len(),
{
    if hist.len() == 0 {
        0
    } else if hist[0] + period >= t {
        hist[0]
    } else {
        oldest_in_window(hist.drop_first(), t, period)
    }
}

/// The wait the admission rule demands at `t`: zero while fewer than
/// `limit` completions sit in the trailing window, otherwise exactly
/// until the oldest of them ages out of the window.
pub open spec fn spec_wait_ms(hist: Seq<u64>, limit: int, period: u64, t: int) -> int {
    if window_count(hist, t, period) < limit {
        0
    } else {
        oldest_in_window(hist, t, period) + period + 1 - t
    }
}

proof fn lemma_oldest_in_window(hist: Seq<u64>, t: int, period: u64, d: int)
    requires
        0 <= d < hist.len(),
        forall|i: int| 0 <= i < d ==> #[trigger] hist[i] + period < t,
        hist[d] + period >= t,
    ensures
        oldest_in_window(hist, t, period) == hist[d],
    decreases d,
{
    if d == 0 {
    } else {
        assert(hist[0] + period < t);
        let tail = hist.drop_first();
        assert(tail[d - 1] == hist[d]);
        assert forall|i: int| 0 <= i < d - 1 implies #[trigger] tail[i] + period < t by {
            assert(tail[i] == hist[i + 1]);
        }
        lemma_oldest_in_window(tail, t, period, d - 1);
    }
}

/// Sliding-window admission control for one remote endpoint.  `stamps`
/// holds the completion timestamps still inside the current window (older
/// ones are pruned lazily); the ghost `history` records every completion
/// ever pushed, and `dropped` says how many of them the pruning has
/// discarded from the front.
pub struct RateWindow {
    pub stamps: Vec<u64>,
    pub limit_requests: usize,
    pub limit_period_ms: u64,
    pub last_now: u64,
    pub history: Ghost<Seq<u64>>,
    pub dropped: Ghost<nat>,
}

impl RateWindow {
    /// The window's invariant: the full history is admissible, the live
    /// stamps are exactly its unpruned suffix, and everything pruned has
    /// already aged out of any window ending at or after `last_now`.
    pub open spec fn wf(self) -> bool {
        &&& self.limit_requests >= 1
        &&& admissible_history(
            self.history@,
            self.limit_requests as int,
            self.limit_period_ms,
        )
        &&& self.dropped@ <= self.history@.len()
        &&& self.stamps@ == self.history@.skip(self.dropped@ as int)
        &&& forall|i: int|
            0 <= i < self.dropped@ ==> #[trigger] self.history@[i] + self.limit_period_ms
                < self.last_now
        &&& forall|i: int| 0 <= i < self.history@.len() ==> #[trigger] self.history@[i] <= self.last_now
    }

    pub fn new(limit_requests: usize, limit_period_ms: u64) -> (w: RateWindow)
        requires
            limit_requests >= 1,
        ensures
            w.wf(),
            w.history@ == Seq::<u64>::empty(),
            w.limit_requests == limit_requests,
            w.limit_period_ms == limit_period_ms,
    {
        let w = RateWindow {
            stamps: Vec::new(),
            limit_requests,
            limit_period_ms,
            last_now: 0,
            history: Ghost(Seq::empty()),
            dropped: Ghost(0),
        };
        proof {
            assert(w.stamps@ =~= w.history@.skip(0));
        }
        w
    }

    /// Discards the stamps that have aged out of the window ending at
    /// `now`.
    fn prune(&mut self, now: u64)
        requires
            old(self).wf(),
            now >= old(self).last_now,
        ensures
            final(self).wf(),
            final(self).history@ == old(self).history@,
            final(self).limit_requests == old(self).limit_requests,
            final(self).limit_period_ms == old(self).limit_period_ms,
            final(self).last_now == now,
            forall|i: int|
                0 <= i < final(self).stamps@.len() ==> in_window(
                    #[trigger] final(self).stamps@[i],
                    now as int,
                    final(self).limit_period_ms,
                ),
    {
        self.last_now = now;
        let period = self.limit_period_ms;
        let ghost h0 = self.history@;
        let ghost lr0 = self.limit_requests;
        while self.stamps.len() > 0 && period < now && self.stamps[0] < now - period
            invariant
                self.history@ == h0,
                self.limit_requests == lr0,
                self.limit_period_ms == period,
                self.last_now == now,
                self.dropped@ <= self.history@.len(),
                self.stamps@ == self.history@.skip(self.dropped@ as int),
                admissible_history(self.history@, self.limit_requests as int, period),
                self.limit_requests >= 1,
                forall|i: int|
                    0 <= i < self.dropped@ ==> #[trigger] self.history@[i] + period < now,
                forall|i: int|
                    0 <= i < self.history@.len() ==> #[trigger] self.history@[i] <= now,
            decreases self.stamps.len(),
        {
            let ghost d = self.dropped@;
            assert(self.stamps@.len() > 0);
            assert(self.stamps@[0] == self.history@[d as int]);
            self.stamps.remove(0);
            proof {
                self.dropped@ = d + 1;
                assert(self.history@.skip(d as int).remove(0) =~= self.history@.skip(
                    d + 1 as int,
                ));
            }
        }
        assert forall|i: int| 0 <= i < self.stamps@.len() implies in_window(
            #[trigger] self.stamps@[i],
            now as int,
            period,
        ) by {
            assert(self.stamps@[i] == self.history@[self.dropped@ + i]);
            if self.stamps@.len() > 0 {
                assert(self.stamps@[0] == self.history@[self.dropped@ as int]);
                assert(self.history@[self.dropped@ as int] <= self.history@[self.dropped@ + i]);
            }
        }
    }

    /// Counts live stamps; with the window pruned this is the window count
    /// of the whole history.
    fn window_len(&self, now: u64) -> (n: usize)
        requires
            self.wf(),
            self.last_now == now,
            forall|i: int|
                0 <= i < self.stamps@.len() ==> in_window(
                    #[trigger] self.stamps@[i],
                    now as int,
                    self.limit_period_ms,
                ),
        ensures
            n as int == window_count(self.history@, now as int, self.limit_period_ms),
            n == self.stamps@.len(),
    {
        proof {
            let hist = self.history@;
            let d = self.dropped@ as int;
            lemma_window_count_concat(
                hist.take(d),
                hist.skip(d),
                now as int,
                self.limit_period_ms,
            );
            assert(hist.take(d) + hist.skip(d) =~= hist);
            lemma_window_count_none(hist.take(d), now as int, self.limit_period_ms);
            lemma_window_count_all(hist.skip(d), now as int, self.limit_period_ms);
        }
        self.stamps.len()
    }

    /// Would a request completing at `now` be admitted?
    pub fn throttler_admit(&mut self, now: u64) -> (r: bool)
        requires
            old(self).wf(),
            now >= old(self).last_now,
        ensures
            final(self).wf(),
            final(self).history@ == old(self).history@,
            final(self).limit_requests == old(self).limit_requests,
            final(self).limit_period_ms == old(self).limit_period_ms,
            final(self).last_now == now,
            r == (window_count(final(self).history@, now as int, final(self).limit_period_ms)
                < final(self).limit_requests),
    {
        self.prune(now);
        let n = self.window_len(now);
        n < self.limit_requests
    }

    /// Records a completed request at `now`, provided the window admits
    /// it; returns whether the stamp was recorded.
    pub fn throttler_push(&mut self, now: u64) -> (r: bool)
        requires
            old(self).wf(),
            now >= old(self).last_now,
        ensures
            final(self).wf(),
            final(self).limit_requests == old(self).limit_requests,
            final(self).limit_period_ms == old(self).limit_period_ms,
            final(self).last_now == now,
            r == (window_count(old(self).history@, now as int, old(self).limit_period_ms)
                < old(self).limit_requests),
            r ==> final(self).history@ == old(self).history@.push(now),
            !r ==> final(self).history@ == old(self).history@,
    {
        let admitted = self.throttler_admit(now);
        if admitted {
            let ghost hist = self.history@;
            self.stamps.push(now);
            proof {
                self.history@ = hist.push(now);
                assert(self.history@.skip(self.dropped@ as int) =~= hist.skip(
                    self.dropped@ as int,
                ).push(now));
                assert(self.history@.take(hist.len() as int) =~= hist);
                assert forall|i: int|
                    0 <= i < self.history@.len() implies window_count(
                    self.history@.take(i),
                    #[trigger] self.history@[i] as int,
                    self.limit_period_ms,
                ) < self.limit_requests by {
                    if i < hist.len() {
                        assert(self.history@.take(i) =~= hist.take(i));
                        assert(self.history@[i] == hist[i]);
                    } else {
                        assert(self.history@[i] == now);
                        assert(self.history@.take(i) =~= hist);
                    }
                }
            }
        }
        admitted
    }

    /// How long a caller must wait before a completion at `now + r` can
    /// be admitted: exactly zero when the window is open, otherwise
    /// exactly until the oldest in-window stamp ages out.
    pub fn throttler_wait_ms(&mut self, now: u64) -> (r: u64)
        requires
            old(self).wf(),
            now >= old(self).last_now,
            now + old(self).limit_period_ms + 1 <= u64::MAX,
        ensures
            final(self).wf(),
            final(self).history@ == old(self).history@,
            final(self).limit_requests == old(self).limit_requests,
            final(self).limit_period_ms == old(self).limit_period_ms,
            final(self).last_now == now,
            r as int == spec_wait_ms(
                old(self).history@,
                old(self).limit_requests as int,
                old(self).limit_period_ms,
                now as int,
            ),
            (r == 0) == (window_count(old(self).history@, now as int, old(self).limit_period_ms)
                < old(self).limit_requests),
            r > 0 ==> window_count(final(self).history@, now as int + r, final(self).limit_period_ms)
                < final(self).limit_requests,
    {
        self.prune(now);
        let n = self.window_len(now);
        if n < self.limit_requests {
            0
        } else {
            proof {
                lemma_rate_admission(
                    self.history@,
                    self.limit_requests as int,
                    self.limit_period_ms,
                    now as int,
                );
            }
            assert(in_window(self.stamps@[0], now as int, self.limit_period_ms));
            assert(self.stamps@[0] == self.history@[self.dropped@ as int]);
            proof {
                // The head of the live stamps is the oldest in-window one:
                // everything pruned has already aged out.
                let hist = self.history@;
                let d = self.dropped@ as int;
                assert forall|i: int| 0 <= i < d implies #[trigger] hist[i]
                    + self.limit_period_ms < now as int by {
                    assert(hist[i] + self.limit_period_ms < self.last_now);
                }
                assert(hist[d] + self.limit_period_ms >= now as int);
                lemma_oldest_in_window(hist, now as int, self.limit_period_ms, d);
            }
            let oldest = self.stamps[0];
            let r = oldest + self.limit_period_ms + 1 - now;
            proof {
                let hist = self.history@;
                let d = self.dropped@ as int;
                let t = now as int + r;
                lemma_window_count_concat(hist.take(d), hist.skip(d), t, self.limit_period_ms);
                assert(hist.take(d) + hist.skip(d) =~= hist);
                assert forall|i: int| 0 <= i < hist.take(d).len() implies !in_window(
                    #[trigger] hist.take(d)[i],
                    t,
                    self.limit_period_ms,
                ) by {
                    assert(hist.take(d)[i] == hist[i]);
                }
                lemma_window_count_none(hist.take(d), t, self.limit_period_ms);
                let live = hist.skip(d);
                assert(live.len() > 0);
                assert(live[0] == hist[d as int]);
                assert(!in_window(live[0], t, self.limit_period_ms));
                lemma_window_count_drop_first(live, t, self.limit_period_ms);
                lemma_window_count_nonneg(live.skip(1), t, self.limit_period_ms);
                assert(live.skip(1).len() == self.stamps@.len() - 1);
            }
            r
        }
    }
}

/// Window counts add over concatenation.
proof fn lemma_window_count_concat(a: Seq<u64>, b: Seq<u64>, t: int, period: u64)
    ensures
        window_count(a + b, t, period) == window_count(a, t, period) + window_count(b, t, period),
    decreases b.len(),
{
    if b.len() == 0 {
        assert(a + b =~= a);
    } else {
        lemma_window_count_concat(a, b.drop_last(), t, period);
        assert((a + b).drop_last() =~= a + b.drop_last());
        assert((a + b).last() == b.last());
    }
}

/// A sequence with no stamp in the window counts zero.
proof fn lemma_window_count_none(s: Seq<u64>, t: int, period: u64)
    requires
        forall|i: int| 0 <= i < s.len() ==> !in_window(#[trigger] s[i], t, period),
    ensures
        window_count(s, t, period) == 0,
    decreases s.len(),
{
    if s.len() > 0 {
        assert(s.last() == s[s.len() - 1]);
        assert forall|i: int| 0 <= i < s.drop_last().len() implies !in_window(
            #[trigger] s.drop_last()[i],
            t,
            period,
        ) by {
            assert(s.drop_last()[i] == s[i]);
        }
        lemma_window_count_none(s.drop_last(), t, period);
    }
}

/// A sequence whose stamps all lie in the window counts its length.
proof fn lemma_window_count_all(s: Seq<u64>, t: int, period: u64)
    requires
        forall|i: int| 0 <= i < s.len() ==> in_window(#[trigger] s[i], t, period),
    ensures
        window_count(s, t, period) == s.len(),
    decreases s.len(),
{
    if s.len() > 0 {
        assert(s.last() == s[s.len() - 1]);
        assert forall|i: int| 0 <= i < s.drop_last().len() implies in_window(
            #[trigger] s.drop_last()[i],
            t,
            period,
        ) by {
            assert(s.drop_last()[i] == s[i]);
        }
        lemma_window_count_all(s.drop_last(), t, period);
    }
}

/// Unfolds the window count at the front of the sequence.
proof fn lemma_window_count_drop_first(s: Seq<u64>, t: int, period: u64)
    requires
        s.len() > 0,
    ensures
        window_count(s, t, period) == window_count(s.skip(1), t, period) + if in_window(
            s[0],
            t,
            period,
        ) {
            1int
        } else {
            0int
        },
    decreases s.len(),
{
    assert(window_count(s, t, period) == window_count(s.drop_last(), t, period) + if in_window(
        s.last(),
        t,
        period,
    ) {
        1int
    } else {
        0int
    });
    if s.len() == 1 {
        assert(s.last() == s[0]);
        assert(s.drop_last().len() == 0);
        assert(s.skip(1).len() == 0);
        assert(window_count(s.skip(1), t, period) == 0);
        assert(window_count(s.drop_last(), t, period) == 0);
    } else {
        lemma_window_count_drop_first(s.drop_last(), t, period);
        assert(s.drop_last()[0] == s[0]);
        assert(s.drop_last().skip(1) =~= s.skip(1).drop_last());
        assert(s.skip(1).last() == s.last());
        assert(s.skip(1).len() > 0);
        assert(window_count(s.skip(1), t, period) == window_count(
            s.skip(1).drop_last(),
            t,
            period,
        ) + if in_window(s.skip(1).last(), t, period) {
            1int
        } else {
            0int
        });
    }
}

} // verus!
