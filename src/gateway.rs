//! The decisions of the four request kinds, and the shaping of what the
//! store hands back. Storage itself is reached by the caller: every function
//! here either says which row to write, or takes the rows that were read.
use vstd::prelude::*;
use vstd::multiset::Multiset;
use crate::limiter::{RateLimiter, step, lookup};

verus! {

/// Why a request was turned away before any storage work.
#[derive(Clone, Copy, Debug, PartialEq, Eq, Structural)]
pub enum Rejection {
    /// The caller's admission budget does not cover the request.
    RateLimited,
    /// The shared secret was missing or wrong.
    Unauthorized,
}

/// The body of an event submission. `params` is the payload as JSON text.
#[derive(Debug)]
pub struct IngestEventRequest {
    pub session_id: String,
    pub event_name: String,
    pub time: u64,
    pub params: String,
}

/// The row to record for a new session.
#[derive(Debug)]
pub struct SessionRecord {
    pub session_id: String,
    pub start_date: u64,
    pub ip_address: String,
}

/// The row to record for a new event.
#[derive(Debug)]
pub struct EventRecord {
    pub session_id: String,
    pub event_name: String,
    pub time: u64,
    pub ip_address: String,
    pub params: String,
}

/// A stored event as listed back: `id` is assigned by the store in
/// insertion order, `params` is the payload as JSON text.
#[derive(Debug)]
pub struct Event {
    pub id: i64,
    pub event_name: String,
    pub time: u64,
    pub params: String,
}

pub struct EventView {
    pub id: i64,
    pub event_name: Seq<char>,
    pub time: u64,
    pub params: Seq<char>,
}

impl View for Event {
    type V = EventView;

    open spec fn view(&self) -> EventView {
        EventView {
            id: self.id,
            event_name: self.event_name@,
            time: self.time,
            params: self.params@,
        }
    }
}

/// Whether `s` parses as a JSON document.
pub uninterp spec fn json_valid(s: Seq<char>) -> bool;

/// Relies on serde_json::from_str into serde_json::Value: whether the text
/// parses depends on the text alone.
#[verifier::external_body]
fn parses_as_json(s: &str) -> (r: bool)
    ensures
        r == json_valid(s@),
{
    serde_json::from_str::<serde_json::Value>(s).is_ok()
}

pub open spec fn is_lower_hex(c: char) -> bool {
    ('0' <= c && c <= '9') || ('a' <= c && c <= 'f')
}

/// The hyphenated lower-case text of a random (version 4, RFC 9562 variant)
/// 128-bit identifier: `xxxxxxxx-xxxx-4xxx-Nxxx-xxxxxxxxxxxx`.
pub open spec fn is_session_id(s: Seq<char>) -> bool {
    &&& s.len() == 36
    &&& forall|i: int|
        0 <= i < 36 ==> if i == 8 || i == 13 || i == 18 || i == 23 {
            s[i] == '-'
        } else {
            is_lower_hex(#[trigger] s[i])
        }
    &&& s[14] == '4'
    &&& (s[19] == '8' || s[19] == '9' || s[19] == 'a' || s[19] == 'b')
}

/// Relies on uuid::Uuid::new_v4 (random bits with the version and variant
/// fields set) and its Display impl (hyphenated lower-case hex).
#[verifier::external_body]
fn new_session_id() -> (r: String)
    ensures
        is_session_id(r@),
{
    uuid::Uuid::new_v4().to_string()
}

/// The identity used for admission: the peer address when the transport
/// knows it, else the fixed word `unknown`.
pub fn caller_identity(peer: Option<String>) -> (r: String)
    ensures
        r@ == match peer {
            Some(p) => p@,
            None => "unknown"@,
        },
{
    match peer {
        Some(p) => p,
        None => "unknown".to_owned(),
    }
}

/// Opens a session for `ip` at `now_ms` (milliseconds since the epoch),
/// charging the session cost to `ip`'s bucket. When granted, the returned
/// row carries a fresh identifier, the start date in whole seconds and
/// `ip`; when refused, nothing is generated.
pub fn create_session(limiter: &mut RateLimiter, ip: &String, now_ms: u64) -> (r: Result<
    SessionRecord,
    Rejection,
>)
    requires
        old(limiter).wf(),
    ensures
        final(limiter).wf(),
        final(limiter).spec_config() == old(limiter).spec_config(),
        final(limiter)@ == old(limiter)@.insert(
            ip@,
            step(
                old(limiter).spec_config(),
                lookup(old(limiter)@, ip@),
                old(limiter).spec_config().create_session_cost,
                now_ms,
            ).1,
        ),
        r is Ok == step(
            old(limiter).spec_config(),
            lookup(old(limiter)@, ip@),
            old(limiter).spec_config().create_session_cost,
            now_ms,
        ).0,
        match r {
            Ok(rec) => {
                &&& is_session_id(rec.session_id@)
                &&& rec.start_date == now_ms / 1000
                &&& rec.ip_address@ == ip@
            },
            Err(e) => e == Rejection::RateLimited,
        },
{
    let cost = limiter.config().create_session_cost;
    if !limiter.check_and_consume(ip, cost, now_ms) {
        return Err(Rejection::RateLimited);
    }
    let session_id = new_session_id();
    Ok(SessionRecord { session_id, start_date: now_ms / 1000, ip_address: ip.clone() })
}

/// Accepts one event from `ip` at `now_ms`, charging the event cost to
/// `ip`'s bucket. When granted, the returned row holds the request as it
/// came, with `ip`; the session is not required to exist.
pub fn ingest_event(
    limiter: &mut RateLimiter,
    ip: &String,
    now_ms: u64,
    req: IngestEventRequest,
) -> (r: Result<EventRecord, Rejection>)
    requires
        old(limiter).wf(),
    ensures
        final(limiter).wf(),
        final(limiter).spec_config() == old(limiter).spec_config(),
        final(limiter)@ == old(limiter)@.insert(
            ip@,
            step(
                old(limiter).spec_config(),
                lookup(old(limiter)@, ip@),
                old(limiter).spec_config().ingest_event_cost,
                now_ms,
            ).1,
        ),
        r is Ok == step(
            old(limiter).spec_config(),
            lookup(old(limiter)@, ip@),
            old(limiter).spec_config().ingest_event_cost,
            now_ms,
        ).0,
        match r {
            Ok(rec) => {
                &&& rec.session_id@ == req.session_id@
                &&& rec.event_name@ == req.event_name@
                &&& rec.time == req.time
                &&& rec.ip_address@ == ip@
                &&& rec.params@ == req.params@
            },
            Err(e) => e == Rejection::RateLimited,
        },
{
    let cost = limiter.config().ingest_event_cost;
    if !limiter.check_and_consume(ip, cost, now_ms) {
        return Err(Rejection::RateLimited);
    }
    Ok(
        EventRecord {
            session_id: req.session_id,
            event_name: req.event_name,
            time: req.time,
            ip_address: ip.clone(),
            params: req.params,
        },
    )
}

pub open spec fn authorized(header: Option<Seq<char>>, secret: Seq<char>) -> bool {
    match header {
        Some(h) => h == secret,
        None => false,
    }
}

pub open spec fn header_view(header: Option<&String>) -> Option<Seq<char>> {
    match header {
        Some(h) => Some(h@),
        None => None,
    }
}

/// Checks the shared-secret header of a privileged request.
pub fn authorize(header: Option<&String>, secret: &String) -> (r: Result<(), Rejection>)
    ensures
        r is Ok == authorized(header_view(header), secret@),
        r is Err ==> r == Err::<(), Rejection>(Rejection::Unauthorized),
{
    match header {
        Some(h) => {
            if *h == *secret {
                Ok(())
            } else {
                Err(Rejection::Unauthorized)
            }
        },
        None => Err(Rejection::Unauthorized),
    }
}

/// Decides whether an event listing may proceed: the events of a session
/// are read only when this returns `Ok`; otherwise the request ends as
/// unauthorized and the store is not touched.
pub fn get_events(header: Option<&String>, secret: &String) -> (r: Result<(), Rejection>)
    ensures
        r is Ok == authorized(header_view(header), secret@),
        r is Err ==> r == Err::<(), Rejection>(Rejection::Unauthorized),
{
    authorize(header, secret)
}

/// Decides whether a session listing may proceed, as `get_events` does.
pub fn get_sessions(header: Option<&String>, secret: &String) -> (r: Result<(), Rejection>)
    ensures
        r is Ok == authorized(header_view(header), secret@),
        r is Err ==> r == Err::<(), Rejection>(Rejection::Unauthorized),
{
    authorize(header, secret)
}

/// A stored payload as it is listed: unchanged when it is JSON, else the
/// JSON null, so that one bad row does not spoil a listing.
pub open spec fn shown(p: Seq<char>) -> Seq<char> {
    if json_valid(p) {
        p
    } else {
        "null"@
    }
}

pub open spec fn shown_event(e: EventView) -> EventView {
    EventView { id: e.id, event_name: e.event_name, time: e.time, params: shown(e.params) }
}

/// Listing order: by client time, then by store id, that is by ingestion.
pub open spec fn comes_before(a: EventView, b: EventView) -> bool {
    a.time < b.time || (a.time == b.time && a.id <= b.id)
}

pub open spec fn strictly_before(a: EventView, b: EventView) -> bool {
    a.time < b.time || (a.time == b.time && a.id < b.id)
}

pub open spec fn views(s: Seq<Event>) -> Seq<EventView> {
    s.map_values(|e: Event| e@)
}

pub open spec fn shown_views(s: Seq<Event>) -> Seq<EventView> {
    s.map_values(|e: Event| shown_event(e@))
}

/// The payload text to list for a stored payload.
pub fn shown_payload(stored: &String) -> (r: String)
    ensures
        r@ == shown(stored@),
{
    if parses_as_json(stored.as_str()) {
        stored.clone()
    } else {
        "null".to_owned()
    }
}

/// Where `item` goes in `out`: after every event that does not come
/// strictly after it.
fn insertion_point(out: &Vec<Event>, item: &Event) -> (p: usize)
    ensures
        p <= out.len(),
        forall|j: int| 0 <= j < p ==> comes_before(#[trigger] out[j]@, item@),
        p < out.len() ==> strictly_before(item@, out[p as int]@),
{
    let mut i: usize = 0;
    while i < out.len()
        invariant
            i <= out.len(),
            forall|j: int| 0 <= j < i ==> comes_before(#[trigger] out[j]@, item@),
        decreases out.len() - i,
    {
        let e = &out[i];
        if item.time < e.time || (item.time == e.time && item.id < e.id) {
            return i;
        }
        i = i + 1;
    }
    i
}

/// The events of one session as listed: every stored event once, with its
/// payload shown as by `shown`, ordered by client time, ties by store id.
pub fn present_events(rows: Vec<Event>) -> (r: Vec<Event>)
    ensures
        forall|i: int, j: int| 0 <= i < j < r.len() ==> comes_before(r[i]@, r[j]@),
        views(r@).to_multiset() == shown_views(rows@).to_multiset(),
{
    broadcast use vstd::seq_lib::group_to_multiset_ensures;

    let ghost orig = rows@;
    let mut rest = rows;
    let mut out: Vec<Event> = Vec::new();
    proof {
        assert(views(out@) =~= Seq::<EventView>::empty());
        assert(rest@ == orig);
    }
    while rest.len() > 0
        invariant
            forall|i: int, j: int| 0 <= i < j < out.len() ==> comes_before(out[i]@, out[j]@),
            views(out@).to_multiset().add(shown_views(rest@).to_multiset()) == shown_views(
                orig,
            ).to_multiset(),
        decreases rest.len(),
    {
        let ghost before_pop = rest@;
        let e = rest.pop().unwrap();
        let params = shown_payload(&e.params);
        let item = Event { id: e.id, event_name: e.event_name, time: e.time, params };
        let p = insertion_point(&out, &item);
        let ghost prev = out@;
        out.insert(p, item);
        proof {
            assert(before_pop =~= rest@.push(e));
            assert(shown_views(before_pop) =~= shown_views(rest@).push(shown_event(e@)));
            assert(item@ == shown_event(e@));
            assert(views(out@) =~= views(prev).insert(p as int, item@));
            vstd::seq_lib::to_multiset_build(shown_views(rest@), shown_event(e@));
            vstd::seq_lib::to_multiset_insert(views(prev), p as int, item@);
            assert(views(out@).to_multiset().add(shown_views(rest@).to_multiset()) =~= shown_views(
                orig,
            ).to_multiset());
            assert forall|i: int, j: int| 0 <= i < j < out.len() implies comes_before(
                out[i]@,
                out[j]@,
            ) by {
                if j < p {
                } else if j == p {
                    assert(out[j] == item);
                    assert(out[i] == prev[i]);
                } else if i < p {
                    assert(out[j] == prev[j - 1]);
                    assert(comes_before(prev[i]@, item@));
                    assert(strictly_before(item@, prev[p as int]@));
                    if p < j - 1 {
                        assert(comes_before(prev[p as int]@, prev[j - 1]@));
                    }
                } else if i == p {
                    assert(out[j] == prev[j - 1]);
                    if p < j - 1 {
                        assert(comes_before(prev[p as int]@, prev[j - 1]@));
                    }
                } else {
                    assert(out[i] == prev[i - 1]);
                    assert(out[j] == prev[j - 1]);
                }
            }
        }
    }
    proof {
        assert(rest@ =~= Seq::<Event>::empty());
        assert(shown_views(rest@) =~= Seq::<EventView>::empty());
        assert(views(out@).to_multiset().add(Multiset::empty()) =~= views(out@).to_multiset());
    }
    out
}

/// Round trip: a stored event whose payload is the JSON text that was
/// submitted is listed with that exact text, and unchanged otherwise, so the
/// listing of `present_events` holds it as it was stored.
pub proof fn lemma_payload_round_trip(rows: Seq<Event>, i: int)
    requires
        0 <= i < rows.len(),
        json_valid(rows[i].params@),
    ensures
        shown_views(rows).to_multiset().contains(rows[i]@),
{
    broadcast use vstd::seq_lib::group_to_multiset_ensures;

    assert(shown_views(rows)[i] == rows[i]@);
}

} // verus!
