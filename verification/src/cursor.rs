use vstd::prelude::*;

verus! {

/// What the cursor rules read off one fetched page: its row count, the
/// extreme timestamps, the largest natural key, and whether the persisted
/// watermark's timestamp appeared among the rows.
#[derive(Clone, Copy, PartialEq, Eq, Debug)]
pub struct PageSummary {
    pub n_rows: usize,
    pub min_time: u64,
    pub max_time: u64,
    pub max_key: u64,
    pub has_watermark: bool,
}

/// The three pagination idioms behind one capability contract: what to
/// fetch next (`Backward`'s end time, `Forward`'s starting id,
/// `Bidirectional`'s time and direction), how the state advances on a
/// page, and when the loop is done.
#[derive(Clone, Copy, PartialEq, Eq, Debug)]
pub enum PaginationCursor {
    /// Backward time cursor (price candles): pages run backward from the
    /// present; the state is the earliest timestamp seen so far.
    Backward { earliest: u64 },
    /// Forward id cursor (sequential trade ids): the state is one past
    /// the last id seen.
    Forward { from_id: u64 },
    /// Bidirectional time cursor with convergence (ledger-style rows):
    /// the time boundary, the direction (`from_start` once a watermark
    /// exists), the previous boundary for convergence detection, the
    /// clock bound, and an optional window to step over empty stretches.
    Bidirectional {
        ts: u64,
        from_start: bool,
        prev_boundary: Option<u64>,
        now: u64,
        window_ms: Option<u64>,
    },
}

impl PaginationCursor {
    /// The boundary a page moves this cursor to.
    pub open spec fn spec_boundary(self, page: PageSummary) -> u64 {
        match self {
            PaginationCursor::Backward { .. } => page.min_time,
            PaginationCursor::Forward { .. } => page.max_key,
            PaginationCursor::Bidirectional { from_start, .. } => if from_start {
                page.max_time
            } else {
                page.min_time
            },
        }
    }

    /// The shape-specific termination rule: the backward cursor
    /// stops on a short page or on reaching the watermark; the forward
    /// cursor stops on an empty page; the bidirectional cursor stops on
    /// an empty page with no window to step, on a one-row page that
    /// repeats its boundary, or once the cursor time passes `now`.
    pub fn is_done(&self, page: &PageSummary) -> (r: bool)
        ensures
            r == match *self {
                PaginationCursor::Backward { .. } => page.n_rows <= 1 || page.has_watermark,
                PaginationCursor::Forward { .. } => page.n_rows == 0,
                PaginationCursor::Bidirectional { ts, prev_boundary, now, window_ms, .. } => (
                page.n_rows == 0 && window_ms is None) || (page.n_rows == 1 && prev_boundary
                    == Some(self.spec_boundary(*page))) || ts > now,
            },
    {
        match self {
            PaginationCursor::Backward { .. } => page.n_rows <= 1 || page.has_watermark,
            PaginationCursor::Forward { .. } => page.n_rows == 0,
            PaginationCursor::Bidirectional { ts, from_start, prev_boundary, now, window_ms } => {
                let b = if *from_start {
                    page.max_time
                } else {
                    page.min_time
                };
                let converged = page.n_rows == 1 && match prev_boundary {
                    Some(p) => *p == b,
                    None => false,
                };
                (page.n_rows == 0 && window_ms.is_none()) || converged || *ts > *now
            },
        }
    }

    /// Advances the state by one page: the backward cursor moves
    /// to the page's earliest timestamp; the forward cursor to one past
    /// the page's largest id; the bidirectional cursor to the boundary in
    /// its direction, stepping by its window over an empty page, or one
    /// past a boundary that made no progress.
    pub fn advance(&mut self, page: &PageSummary)
        requires
            (*old(self)) is Forward ==> page.max_key < u64::MAX,
            (*old(self)) is Bidirectional ==> (*old(self))->Bidirectional_ts <= u64::MAX - (match (
            *old(self))->Bidirectional_window_ms {
                Some(w) => w,
                None => 0,
            }) - 1,
        ensures
            match *old(self) {
                PaginationCursor::Backward { .. } => *final(self) == (PaginationCursor::Backward {
                    earliest: page.min_time,
                }),
                PaginationCursor::Forward { .. } => *final(self) == (PaginationCursor::Forward {
                    from_id: (page.max_key + 1) as u64,
                }),
                PaginationCursor::Bidirectional {
                    ts,
                    from_start,
                    prev_boundary,
                    now,
                    window_ms,
                } => {
                    let b = old(self).spec_boundary(*page);
                    let stepped = if page.n_rows == 0 {
                        (ts + (match window_ms {
                            Some(w) => w,
                            None => 0,
                        })) as u64
                    } else if b == ts && page.n_rows > 1 {
                        (b + 1) as u64
                    } else {
                        b
                    };
                    *final(self) == (PaginationCursor::Bidirectional {
                        ts: stepped,
                        from_start,
                        prev_boundary: Some(b),
                        now,
                        window_ms,
                    })
                },
            },
    {
        match self {
            PaginationCursor::Backward { earliest } => {
                *earliest = page.min_time;
            },
            PaginationCursor::Forward { from_id } => {
                *from_id = page.max_key + 1;
            },
            PaginationCursor::Bidirectional { ts, from_start, prev_boundary, now: _, window_ms } => {
                let b = if *from_start {
                    page.max_time
                } else {
                    page.min_time
                };
                if page.n_rows == 0 {
                    let w = match window_ms {
                        Some(w) => *w,
                        None => 0,
                    };
                    *ts = *ts + w;
                } else if b == *ts && page.n_rows > 1 {
                    *ts = b + 1;
                } else {
                    *ts = b;
                }
                *prev_boundary = Some(b);
            },
        }
    }
}

} // verus!
