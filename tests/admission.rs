use event_gateway::gateway::{create_session, ingest_event, IngestEventRequest, Rejection};
use event_gateway::limiter::{LimitConfig, RateLimiter};

fn config(capacity: u64, refill_per_sec: u64, create: u64, ingest: u64) -> LimitConfig {
    LimitConfig {
        capacity,
        refill_per_sec,
        create_session_cost: create,
        ingest_event_cost: ingest,
        retention_ms: 60_000,
    }
}

fn id(s: &str) -> String {
    s.to_string()
}

#[test]
fn fresh_identity_gets_full_burst_then_refused() {
    let mut lim = RateLimiter::new(config(10, 1, 5, 1));
    let a = id("10.0.0.1");
    for _ in 0..10 {
        assert!(lim.check_and_consume(&a, 1, 1_000));
    }
    assert!(!lim.check_and_consume(&a, 1, 1_000));
    // 999 ms refill less than one token; 1000 ms refill exactly one.
    assert!(!lim.check_and_consume(&a, 1, 1_999));
    assert!(lim.check_and_consume(&a, 1, 2_000));
    assert!(!lim.check_and_consume(&a, 1, 2_000));
}

#[test]
fn burst_of_mixed_costs_up_to_capacity() {
    let mut lim = RateLimiter::new(config(10, 1, 5, 1));
    let a = id("a");
    assert!(lim.check_and_consume(&a, 4, 0));
    assert!(lim.check_and_consume(&a, 6, 0));
    assert!(!lim.check_and_consume(&a, 1, 0));
}

#[test]
fn refill_is_capped_at_capacity() {
    let mut lim = RateLimiter::new(config(3, 1, 1, 1));
    let a = id("a");
    assert!(lim.check_and_consume(&a, 3, 0));
    // A long idle period refills to the capacity and no further.
    assert!(!lim.check_and_consume(&a, 4, 1_000_000));
    assert!(lim.check_and_consume(&a, 3, 1_000_000));
    assert!(!lim.check_and_consume(&a, 1, 1_000_000));
}

#[test]
fn refill_uses_fractions_of_a_token() {
    // 2 tokens per second: one token every 500 ms.
    let mut lim = RateLimiter::new(config(10, 2, 1, 10));
    let a = id("a");
    assert!(lim.check_and_consume(&a, 10, 0));
    assert!(!lim.check_and_consume(&a, 10, 4_999));
    assert!(lim.check_and_consume(&a, 10, 5_000));
}

#[test]
fn clock_going_back_refills_nothing() {
    let mut lim = RateLimiter::new(config(2, 1, 1, 1));
    let a = id("a");
    assert!(lim.check_and_consume(&a, 2, 10_000));
    assert!(!lim.check_and_consume(&a, 1, 5_000));
    assert!(!lim.check_and_consume(&a, 1, 10_500));
    assert!(lim.check_and_consume(&a, 1, 11_000));
}

#[test]
fn token_bucket_bound_over_a_window() {
    // B = 6, c = 2, r = 1 token/s; calls every 100 ms over T = 10 s.
    let mut lim = RateLimiter::new(config(6, 1, 2, 2));
    let a = id("a");
    let mut granted: u64 = 0;
    let mut t: u64 = 0;
    while t <= 10_000 {
        if lim.check_and_consume(&a, 2, t) {
            granted += 1;
        }
        t += 100;
    }
    // floor(B / c) + floor(r * T / c) = 3 + 5
    assert!(granted <= 8);
    assert!(granted >= 7);
}

#[test]
fn identities_are_isolated() {
    let mut lim = RateLimiter::new(config(3, 1, 1, 1));
    let a = id("10.0.0.1");
    let b = id("10.0.0.2");
    for _ in 0..3 {
        assert!(lim.check_and_consume(&a, 1, 0));
    }
    assert!(!lim.check_and_consume(&a, 1, 0));
    for _ in 0..3 {
        assert!(lim.check_and_consume(&b, 1, 0));
    }
    assert!(!lim.check_and_consume(&b, 1, 0));
    assert_eq!(lim.len(), 2);
}

#[test]
fn sweep_reclaims_idle_buckets_only() {
    let mut lim = RateLimiter::new(config(3, 1, 1, 1));
    let a = id("a");
    let b = id("b");
    assert!(lim.check_and_consume(&a, 3, 0));
    assert!(lim.check_and_consume(&b, 1, 50_000));
    lim.sweep(60_000);
    assert_eq!(lim.len(), 2);
    lim.sweep(60_001);
    assert_eq!(lim.len(), 1);
    // b keeps its state: 2 tokens left at 50 s, plus 1 per second, capped at 3.
    assert!(lim.check_and_consume(&b, 3, 60_001));
    // a starts afresh.
    assert!(lim.check_and_consume(&a, 3, 60_001));
    lim.sweep(1_000_000);
    assert_eq!(lim.len(), 0);
}

#[test]
fn session_burst_beyond_capacity_is_refused() {
    let n: u64 = 4;
    let cost: u64 = 5;
    let mut lim = RateLimiter::new(config(n * cost, 1, cost, 1));
    let ip = id("192.168.1.7");
    for _ in 0..n {
        assert!(create_session(&mut lim, &ip, 7_000).is_ok());
    }
    assert_eq!(create_session(&mut lim, &ip, 7_000).unwrap_err(), Rejection::RateLimited);
}

#[test]
fn created_session_row() {
    let mut lim = RateLimiter::new(config(10, 1, 5, 1));
    let ip = id("127.0.0.1");
    let rec = create_session(&mut lim, &ip, 1_700_000_123_456).unwrap();
    assert_eq!(rec.start_date, 1_700_000_123);
    assert_eq!(rec.ip_address, "127.0.0.1");
    assert_eq!(rec.session_id.len(), 36);
}

fn well_formed(s: &str) -> bool {
    let b = s.as_bytes();
    if b.len() != 36 {
        return false;
    }
    for (i, c) in b.iter().enumerate() {
        let ok = if i == 8 || i == 13 || i == 18 || i == 23 {
            *c == b'-'
        } else {
            c.is_ascii_digit() || (b'a'..=b'f').contains(c)
        };
        if !ok {
            return false;
        }
    }
    b[14] == b'4' && matches!(b[19], b'8' | b'9' | b'a' | b'b')
}

#[test]
fn session_ids_are_well_formed_and_distinct() {
    let mut lim = RateLimiter::new(config(100_000, 1, 1, 1));
    let ip = id("10.1.1.1");
    let mut seen = std::collections::HashSet::new();
    for _ in 0..10_000 {
        let rec = create_session(&mut lim, &ip, 0).unwrap();
        assert!(well_formed(&rec.session_id), "{}", rec.session_id);
        assert!(seen.insert(rec.session_id));
    }
}

#[test]
fn ingest_keeps_the_request_and_charges_its_cost() {
    let mut lim = RateLimiter::new(config(2, 1, 2, 1));
    let ip = id("10.0.0.9");
    let req = |t: u64| IngestEventRequest {
        session_id: "no-such-session".to_string(),
        event_name: "click".to_string(),
        time: t,
        params: "{\"x\":1}".to_string(),
    };
    let rec = ingest_event(&mut lim, &ip, 0, req(5)).unwrap();
    assert_eq!(rec.session_id, "no-such-session");
    assert_eq!(rec.event_name, "click");
    assert_eq!(rec.time, 5);
    assert_eq!(rec.ip_address, "10.0.0.9");
    assert_eq!(rec.params, "{\"x\":1}");
    assert!(ingest_event(&mut lim, &ip, 0, req(6)).is_ok());
    assert_eq!(ingest_event(&mut lim, &ip, 0, req(7)).unwrap_err(), Rejection::RateLimited);
    // Session creation costs more than what is left after a refill of one.
    assert_eq!(create_session(&mut lim, &ip, 1_000).unwrap_err(), Rejection::RateLimited);
}
