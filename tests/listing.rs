use event_gateway::gateway::{
    authorize, caller_identity, get_events, get_sessions, ingest_event, present_events,
    shown_payload, Event, IngestEventRequest, Rejection,
};
use event_gateway::limiter::{LimitConfig, RateLimiter};

fn ev(id: i64, time: u64, params: &str) -> Event {
    Event { id, event_name: format!("e{}", id), time, params: params.to_string() }
}

#[test]
fn events_listed_by_time() {
    let rows = vec![ev(1, 300, "1"), ev(2, 100, "2"), ev(3, 200, "3")];
    let out = present_events(rows);
    let times: Vec<u64> = out.iter().map(|e| e.time).collect();
    assert_eq!(times, vec![100, 200, 300]);
    let ids: Vec<i64> = out.iter().map(|e| e.id).collect();
    assert_eq!(ids, vec![2, 3, 1]);
}

#[test]
fn equal_times_keep_ingestion_order() {
    let rows = vec![ev(9, 50, "0"), ev(4, 50, "0"), ev(7, 10, "0"), ev(5, 50, "0")];
    let out = present_events(rows);
    let ids: Vec<i64> = out.iter().map(|e| e.id).collect();
    assert_eq!(ids, vec![7, 4, 5, 9]);
}

#[test]
fn empty_listing() {
    assert!(present_events(Vec::new()).is_empty());
}

#[test]
fn malformed_payload_is_listed_as_null() {
    let out = present_events(vec![ev(1, 1, "{not json"), ev(2, 2, "[1,2]")]);
    assert_eq!(out[0].params, "null");
    assert_eq!(out[1].params, "[1,2]");
    assert_eq!(shown_payload(&"".to_string()), "null");
    assert_eq!(shown_payload(&"\"s\"".to_string()), "\"s\"");
}

#[test]
fn payload_round_trip() {
    let value: serde_json::Value = serde_json::from_str("{\"a\":1,\"b\":[true,null]}").unwrap();
    let mut lim = RateLimiter::new(LimitConfig {
        capacity: 10,
        refill_per_sec: 1,
        create_session_cost: 5,
        ingest_event_cost: 1,
        retention_ms: 1_000,
    });
    let req = IngestEventRequest {
        session_id: "s".to_string(),
        event_name: "n".to_string(),
        time: 42,
        params: value.to_string(),
    };
    let rec = ingest_event(&mut lim, &"1.2.3.4".to_string(), 0, req).unwrap();
    let out = present_events(vec![Event { id: 1, event_name: rec.event_name, time: rec.time, params: rec.params }]);
    let back: serde_json::Value = serde_json::from_str(&out[0].params).unwrap();
    assert_eq!(back, value);
}

#[test]
fn secret_is_required() {
    let secret = "s3cret".to_string();
    let wrong = "nope".to_string();
    assert_eq!(get_events(None, &secret), Err(Rejection::Unauthorized));
    assert_eq!(get_events(Some(&wrong), &secret), Err(Rejection::Unauthorized));
    assert_eq!(get_events(Some(&secret.clone()), &secret), Ok(()));
    assert_eq!(get_sessions(None, &secret), Err(Rejection::Unauthorized));
    assert_eq!(get_sessions(Some(&"S3CRET".to_string()), &secret), Err(Rejection::Unauthorized));
    assert_eq!(get_sessions(Some(&secret.clone()), &secret), Ok(()));
    assert_eq!(authorize(Some(&"".to_string()), &secret), Err(Rejection::Unauthorized));
}

#[test]
fn identity_falls_back_to_unknown() {
    assert_eq!(caller_identity(None), "unknown");
    assert_eq!(caller_identity(Some("10.0.0.1".to_string())), "10.0.0.1");
}
