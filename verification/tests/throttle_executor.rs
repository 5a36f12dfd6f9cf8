use marketsync::cursor::{PageSummary, PaginationCursor};
use marketsync::executor::{
    backoff_delay_ms, classify_status, AttemptEvent, ExecutorDecision, ExecutorState, Request,
    RequestOutcome, ResponseClass,
};
use marketsync::interval::{ti_ms, ti_s, unit_seconds};
use marketsync::throttle::RateWindow;
use marketsync::SyncError;

#[test]
fn rate_window_admits_up_to_limit() {
    let mut w = RateWindow::new(2, 1000);
    assert!(w.throttler_push(10));
    assert!(w.throttler_push(20));
    // Two completions sit in the trailing second: the third must wait.
    assert!(!w.throttler_push(30));
    assert!(!w.throttler_admit(500));
    // Once the oldest stamp ages out, admission opens again.
    assert!(w.throttler_admit(1011));
    assert!(w.throttler_push(1011));
}

#[test]
fn rate_window_wait_until_oldest_leaves() {
    let mut w = RateWindow::new(2, 1000);
    assert!(w.throttler_push(10));
    assert!(w.throttler_push(20));
    let wait = w.throttler_wait_ms(30);
    // The window opens one millisecond after the oldest stamp ages out.
    assert_eq!(wait, 10 + 1000 + 1 - 30);
    assert_eq!(w.throttler_wait_ms(30 + wait), 0);
}

#[test]
fn rate_window_never_exceeds_limit() {
    let mut w = RateWindow::new(3, 100);
    let mut admitted = 0u64;
    let mut stamps: Vec<u64> = Vec::new();
    for t in 0..500u64 {
        if w.throttler_push(t) {
            admitted += 1;
            stamps.push(t);
        }
    }
    assert!(admitted > 3);
    // No trailing window of the limit period holds more than the limit.
    for &t in &stamps {
        let in_window =
            stamps.iter().filter(|&&s| s + 100 >= t && s <= t).count();
        assert!(in_window <= 3, "window at {} holds {}", t, in_window);
    }
}

#[test]
fn classification_follows_status() {
    let codes = vec![418u16, 429u16];
    assert_eq!(classify_status(200, &codes), ResponseClass::Success);
    assert_eq!(classify_status(204, &codes), ResponseClass::Success);
    assert_eq!(classify_status(299, &codes), ResponseClass::Success);
    assert_eq!(classify_status(429, &codes), ResponseClass::RateLimit);
    assert_eq!(classify_status(418, &codes), ResponseClass::RateLimit);
    assert_eq!(classify_status(500, &codes), ResponseClass::Retry);
    assert_eq!(classify_status(404, &codes), ResponseClass::Retry);
}

#[test]
fn backoff_doubles_from_ten_milliseconds() {
    assert_eq!(backoff_delay_ms(1, 0), 10);
    assert_eq!(backoff_delay_ms(2, 0), 20);
    assert_eq!(backoff_delay_ms(3, 0), 40);
    assert_eq!(backoff_delay_ms(4, 7), 87);
    assert_eq!(backoff_delay_ms(0, 0), 10);
}

#[test]
fn executor_retries_within_budget_then_fails() {
    let codes = vec![429u16];
    let mut s = ExecutorState::new(2);
    let e = AttemptEvent::Response(500);
    assert_eq!(s.step(&e, &codes, 0), ExecutorDecision::RetryAfter(10));
    assert_eq!(s.step(&e, &codes, 0), ExecutorDecision::RetryAfter(20));
    assert_eq!(s.step(&e, &codes, 0), ExecutorDecision::Fail);
    assert_eq!(s.attempts_used, 2);
}

#[test]
fn executor_slows_down_on_rate_limit() {
    let codes = vec![429u16];
    let mut s = ExecutorState::new(3);
    let e = AttemptEvent::Response(429);
    // A rate-limit signal backs off twice as hard as an ordinary retry
    // would at the same attempt.
    assert_eq!(s.step(&e, &codes, 0), ExecutorDecision::SlowDownAfter(20));
    let t = AttemptEvent::TransportFailure;
    assert_eq!(s.step(&t, &codes, 0), ExecutorDecision::RetryAfter(20));
    assert_eq!(s.step(&e, &codes, 0), ExecutorDecision::SlowDownAfter(80));
    let ok = AttemptEvent::Response(200);
    assert_eq!(s.step(&ok, &codes, 0), ExecutorDecision::Deliver);
    assert_eq!(s.attempts_used, 3);
}

#[test]
fn request_target_url() {
    let g = Request::Get("https://example.test/a");
    assert_eq!(g.target_url(), "https://example.test/a");
    let p = Request::Post(("https://example.test/b", "x=1"));
    assert_eq!(p.target_url(), "https://example.test/b");
}

#[test]
fn request_outcome_variants_exist() {
    let outcomes = vec![
        RequestOutcome::Success("body".to_string()),
        RequestOutcome::RateLimited,
        RequestOutcome::RetryableFailure,
        RequestOutcome::FatalFailure,
    ];
    assert_eq!(outcomes.len(), 4);
}

#[test]
fn sync_error_descriptions() {
    assert_eq!(SyncError::TransportError.describe(), "transport error");
    assert_eq!(SyncError::RateLimited.describe(), "rate limit reached");
    assert_eq!(SyncError::DecodeError.describe(), "decode failed");
    assert_eq!(SyncError::RequestFailed.describe(), "request failed");
    assert_eq!(SyncError::PersistenceError.describe(), "persistence failed");
}

#[test]
fn interval_parsing_exact_values() {
    assert_eq!(ti_s("1s"), Some(1));
    assert_eq!(ti_s("30s"), Some(30));
    assert_eq!(ti_s("1m"), Some(60));
    assert_eq!(ti_s("15m"), Some(900));
    assert_eq!(ti_s("5h"), Some(18000));
    assert_eq!(ti_s("1d"), Some(86400));
    assert_eq!(ti_s("2w"), Some(1209600));
    assert_eq!(ti_ms("1m"), Some(60_000));
    assert_eq!(ti_ms("1s"), Some(1000));
}

#[test]
fn interval_parsing_rejects_malformed() {
    assert_eq!(ti_s(""), None);
    assert_eq!(ti_s("m"), None);
    assert_eq!(ti_s("10"), None);
    assert_eq!(ti_s("10x"), None);
    assert_eq!(ti_s("1.5m"), None);
    assert_eq!(ti_s("-1m"), None);
    // The value itself no longer fits in 32 bits.
    assert_eq!(ti_s("9999999999s"), None);
    // The product with the unit does not fit.
    assert_eq!(ti_s("99999999w"), None);
}

#[test]
fn interval_units() {
    assert_eq!(unit_seconds('s'), Some(1));
    assert_eq!(unit_seconds('m'), Some(60));
    assert_eq!(unit_seconds('h'), Some(3600));
    assert_eq!(unit_seconds('d'), Some(86400));
    assert_eq!(unit_seconds('w'), Some(604800));
    assert_eq!(unit_seconds('y'), None);
}

#[test]
fn cursor_backward_rules() {
    let mut c = PaginationCursor::Backward { earliest: 0 };
    let page = PageSummary {
        n_rows: 1000,
        min_time: 500,
        max_time: 900,
        max_key: 0,
        has_watermark: false,
    };
    assert!(!c.is_done(&page));
    c.advance(&page);
    assert_eq!(c, PaginationCursor::Backward { earliest: 500 });
    let short = PageSummary { n_rows: 1, min_time: 0, max_time: 0, max_key: 0, has_watermark: false };
    assert!(c.is_done(&short));
    let marked =
        PageSummary { n_rows: 50, min_time: 1, max_time: 9, max_key: 0, has_watermark: true };
    assert!(c.is_done(&marked));
}

#[test]
fn cursor_forward_rules() {
    let mut c = PaginationCursor::Forward { from_id: 0 };
    let page =
        PageSummary { n_rows: 10, min_time: 0, max_time: 0, max_key: 41, has_watermark: false };
    assert!(!c.is_done(&page));
    c.advance(&page);
    assert_eq!(c, PaginationCursor::Forward { from_id: 42 });
    let empty = PageSummary { n_rows: 0, min_time: 0, max_time: 0, max_key: 0, has_watermark: false };
    assert!(c.is_done(&empty));
}

#[test]
fn cursor_bidirectional_rules() {
    let mut c = PaginationCursor::Bidirectional {
        ts: 100,
        from_start: true,
        prev_boundary: None,
        now: 10_000,
        window_ms: None,
    };
    let page =
        PageSummary { n_rows: 5, min_time: 100, max_time: 400, max_key: 0, has_watermark: false };
    assert!(!c.is_done(&page));
    c.advance(&page);
    assert_eq!(
        c,
        PaginationCursor::Bidirectional {
            ts: 400,
            from_start: true,
            prev_boundary: Some(400),
            now: 10_000,
            window_ms: None,
        }
    );
    // A one-row page that repeats the boundary means convergence.
    let stuck =
        PageSummary { n_rows: 1, min_time: 400, max_time: 400, max_key: 0, has_watermark: false };
    assert!(c.is_done(&stuck));
    // Passing `now` ends the loop whatever the page looks like.
    let late = PaginationCursor::Bidirectional {
        ts: 20_000,
        from_start: true,
        prev_boundary: None,
        now: 10_000,
        window_ms: None,
    };
    assert!(late.is_done(&page));
}

#[test]
fn cursor_bidirectional_window_step() {
    let mut c = PaginationCursor::Bidirectional {
        ts: 1000,
        from_start: true,
        prev_boundary: None,
        now: 100_000,
        window_ms: Some(5000),
    };
    let empty = PageSummary { n_rows: 0, min_time: 0, max_time: 0, max_key: 0, has_watermark: false };
    // An empty page with a window configured steps the cursor instead of
    // ending the loop.
    assert!(!c.is_done(&empty));
    c.advance(&empty);
    match c {
        PaginationCursor::Bidirectional { ts, .. } => assert_eq!(ts, 6000),
        _ => panic!("cursor changed shape"),
    }
}
