use vstd::prelude::*;

verus! {

/// One logical request: a GET of a URL, or a POST of a URL and a body.
pub enum Request<'a> {
    Get(&'a str),
    Post((&'a str, &'a str)),
}

impl<'a> Request<'a> {
    /// The URL a request targets.
    pub fn target_url(&self) -> (r: &'a str)
        ensures
            r == match *self {
                Request::Get(url) => url,
                Request::Post(parts) => parts.0,
            },
    {
        match self {
            Request::Get(url) => url,
            Request::Post(parts) => parts.0,
        }
    }
}

/// What one finished logical request amounted to.
#[derive(Clone, PartialEq, Eq, Debug)]
pub enum RequestOutcome {
    Success(String),
    RateLimited,
    RetryableFailure,
    FatalFailure,
}

/// How a single HTTP response is read: success range, a configured
/// rate-limit status, or an ordinary retryable failure.
#[derive(Clone, Copy, PartialEq, Eq, Debug)]
pub enum ResponseClass {
    Success,
    RateLimit,
    Retry,
}

/// The classification rule: a status in the success range wins;
/// otherwise a configured rate-limit code is a rate-limit signal, and
/// everything else is retryable.
pub open spec fn spec_classify(status: u16, codes: Seq<u16>) -> ResponseClass {
    if 200 <= status <= 299 {
        ResponseClass::Success
    } else if codes.contains(status) {
        ResponseClass::RateLimit
    } else {
        ResponseClass::Retry
    }
}

fn contains_status(codes: &Vec<u16>, status: u16) -> (r: bool)
    ensures
        r == codes@.contains(status),
{
    let mut i: usize = 0;
    while i < codes.len()
        invariant
            i <= codes.len(),
            forall|j: int| 0 <= j < i ==> codes@[j] != status,
        decreases codes.len() - i,
    {
        if codes[i] == status {
            assert(codes@[i as int] == status);
            return true;
        }
        i += 1;
    }
    false
}

/// Classifies one HTTP status against the endpoint's configured
/// rate-limit codes.
pub fn classify_status(status: u16, limit_status_codes: &Vec<u16>) -> (r: ResponseClass)
    ensures
        r == spec_classify(status, limit_status_codes@),
{
    if 200 <= status && status <= 299 {
        ResponseClass::Success
    } else if contains_status(limit_status_codes, status) {
        ResponseClass::RateLimit
    } else {
        ResponseClass::Retry
    }
}

/// The base delay before retry attempt `attempt` (1-based): tens of
/// milliseconds, doubling each attempt, saturating once it no longer
/// fits.
pub open spec fn spec_backoff_base_ms(attempt: nat) -> int
    decreases attempt,
{
    if attempt <= 1 {
        10
    } else {
        let p = spec_backoff_base_ms((attempt - 1) as nat);
        if p * 2 > u64::MAX {
            u64::MAX as int
        } else {
            p * 2
        }
    }
}

/// The full delay: the doubling base plus the caller's random jitter,
/// saturating at the top of the range.
pub open spec fn spec_backoff_ms(attempt: nat, jitter_ms: u64) -> int {
    if spec_backoff_base_ms(attempt) + jitter_ms > u64::MAX {
        u64::MAX as int
    } else {
        spec_backoff_base_ms(attempt) + jitter_ms
    }
}

proof fn lemma_backoff_base_bounds(attempt: nat)
    ensures
        10 <= spec_backoff_base_ms(attempt) <= u64::MAX,
    decreases attempt,
{
    if attempt > 1 {
        lemma_backoff_base_bounds((attempt - 1) as nat);
    }
}

/// Computes the retry delay; `jitter_ms` comes from the caller's source
/// of randomness, so that equal schedules never synchronize clients.
pub fn backoff_delay_ms(attempt: usize, jitter_ms: u64) -> (r: u64)
    ensures
        r as int == spec_backoff_ms(attempt as nat, jitter_ms),
{
    let mut d: u64 = 10;
    let mut k: usize = 1;
    proof {
        lemma_backoff_base_bounds(attempt as nat);
    }
    while k < attempt
        invariant
            1 <= k,
            k <= attempt || k == 1,
            d as int == spec_backoff_base_ms(k as nat),
        decreases attempt - k,
    {
        if d > u64::MAX / 2 {
            assert(d * 2 > u64::MAX);
            d = u64::MAX;
        } else {
            d = d * 2;
        }
        k += 1;
    }
    assert(d as int == spec_backoff_base_ms(attempt as nat)) by {
        if attempt <= 1 {
            assert(spec_backoff_base_ms(attempt as nat) == 10);
        }
    }
    if d > u64::MAX - jitter_ms {
        u64::MAX
    } else {
        d + jitter_ms
    }
}

/// The harder backoff a rate-limit signal demands: twice the ordinary
/// retry delay, saturating at the top of the range, so that a throttling
/// endpoint is approached more slowly than a merely failing one.
pub open spec fn spec_slowdown_ms(attempt: nat, jitter_ms: u64) -> int {
    if 2 * spec_backoff_ms(attempt, jitter_ms) > u64::MAX {
        u64::MAX as int
    } else {
        2 * spec_backoff_ms(attempt, jitter_ms)
    }
}

/// Computes the rate-limit retry delay.
pub fn slowdown_delay_ms(attempt: usize, jitter_ms: u64) -> (r: u64)
    ensures
        r as int == spec_slowdown_ms(attempt as nat, jitter_ms),
{
    let d = backoff_delay_ms(attempt, jitter_ms);
    if d > u64::MAX / 2 {
        u64::MAX
    } else {
        2 * d
    }
}

/// The retry ledger of one logical request: how many retries were used,
/// out of the configured budget.
#[derive(Clone, Copy, PartialEq, Eq, Debug)]
pub struct ExecutorState {
    pub attempts_used: usize,
    pub api_retries: usize,
}

/// What the executor saw on one attempt: a response with its status, or a
/// transport failure (connection or timeout).
#[derive(Clone, Copy, PartialEq, Eq, Debug)]
pub enum AttemptEvent {
    Response(u16),
    TransportFailure,
}

/// What the caller must do next with the attempt it just made.
#[derive(Clone, Copy, PartialEq, Eq, Debug)]
pub enum ExecutorDecision {
    /// The response is the result: deliver its body.
    Deliver,
    /// Retry after the given delay.
    RetryAfter(u64),
    /// Retry after the given delay, and slow future admission: the
    /// endpoint signalled its rate limit.
    SlowDownAfter(u64),
    /// The retry budget is exhausted: the request failed.
    Fail,
}

impl ExecutorState {
    pub fn new(api_retries: usize) -> (s: ExecutorState)
        ensures
            s.attempts_used == 0,
            s.api_retries == api_retries,
    {
        ExecutorState { attempts_used: 0, api_retries }
    }

    /// Decides what follows one attempt: a success-range status is
    /// delivered; a rate-limit status retries with a slow-down signal and
    /// a doubled delay (the endpoint asked to be left alone); a transport
    /// failure or any other status retries plainly; and every retry draws
    /// on the same budget, after which the request fails.
    pub fn step(
        &mut self,
        event: &AttemptEvent,
        limit_status_codes: &Vec<u16>,
        jitter_ms: u64,
    ) -> (d: ExecutorDecision)
        ensures
            final(self).api_retries == old(self).api_retries,
            match *event {
                AttemptEvent::Response(status) => match spec_classify(
                    status,
                    limit_status_codes@,
                ) {
                    ResponseClass::Success => d == ExecutorDecision::Deliver && *final(self)
                        == *old(self),
                    ResponseClass::RateLimit => if old(self).attempts_used < old(
                        self,
                    ).api_retries {
                        final(self).attempts_used == old(self).attempts_used + 1 && d
                            == ExecutorDecision::SlowDownAfter(
                            spec_slowdown_ms(final(self).attempts_used as nat, jitter_ms) as u64,
                        )
                    } else {
                        d == ExecutorDecision::Fail && *final(self) == *old(self)
                    },
                    ResponseClass::Retry => if old(self).attempts_used < old(self).api_retries {
                        final(self).attempts_used == old(self).attempts_used + 1 && d
                            == ExecutorDecision::RetryAfter(
                            spec_backoff_ms(final(self).attempts_used as nat, jitter_ms) as u64,
                        )
                    } else {
                        d == ExecutorDecision::Fail && *final(self) == *old(self)
                    },
                },
                AttemptEvent::TransportFailure => if old(self).attempts_used < old(
                    self,
                ).api_retries {
                    final(self).attempts_used == old(self).attempts_used + 1 && d
                        == ExecutorDecision::RetryAfter(
                        spec_backoff_ms(final(self).attempts_used as nat, jitter_ms) as u64,
                    )
                } else {
                    d == ExecutorDecision::Fail && *final(self) == *old(self)
                },
            },
    {
        match event {
            AttemptEvent::Response(status) => {
                match classify_status(*status, limit_status_codes) {
                    ResponseClass::Success => ExecutorDecision::Deliver,
                    ResponseClass::RateLimit => {
                        if self.attempts_used < self.api_retries {
                            self.attempts_used = self.attempts_used + 1;
                            ExecutorDecision::SlowDownAfter(
                                slowdown_delay_ms(self.attempts_used, jitter_ms),
                            )
                        } else {
                            ExecutorDecision::Fail
                        }
                    },
                    ResponseClass::Retry => {
                        if self.attempts_used < self.api_retries {
                            self.attempts_used = self.attempts_used + 1;
                            ExecutorDecision::RetryAfter(
                                backoff_delay_ms(self.attempts_used, jitter_ms),
                            )
                        } else {
                            ExecutorDecision::Fail
                        }
                    },
                }
            },
            AttemptEvent::TransportFailure => {
                if self.attempts_used < self.api_retries {
                    self.attempts_used = self.attempts_used + 1;
                    ExecutorDecision::RetryAfter(backoff_delay_ms(self.attempts_used, jitter_ms))
                } else {
                    ExecutorDecision::Fail
                }
            },
        }
    }
}

} // verus!
