//! Admission control: a token bucket per caller identity.
//!
//! Time is counted in milliseconds and a bucket's level in thousandths of a
//! token, so that `elapsed_ms * refill_per_sec` is exactly the number of
//! thousandths refilled and no rounding ever happens.
use vstd::prelude::*;

verus! {

/// Thousandths of a token per token.
pub const SCALE: u64 = 1000;

/// Largest capacity or cost, in tokens, that the limiter accepts.
pub const MAX_TOKENS: u64 = 18_000_000_000_000_000;

/// Process-wide admission parameters, fixed at startup.
#[derive(Clone, Copy, Debug)]
pub struct LimitConfig {
    /// Largest burst, in tokens.
    pub capacity: u64,
    /// Tokens refilled per second.
    pub refill_per_sec: u64,
    /// Cost of opening a session.
    pub create_session_cost: u64,
    /// Cost of submitting one event.
    pub ingest_event_cost: u64,
    /// A bucket idle for longer than this many milliseconds may be reclaimed.
    pub retention_ms: u64,
}

impl LimitConfig {
    pub open spec fn wf(self) -> bool {
        &&& 0 < self.capacity <= MAX_TOKENS
        &&& 0 < self.refill_per_sec
        &&& 0 < self.create_session_cost <= MAX_TOKENS
        &&& 0 < self.ingest_event_cost <= MAX_TOKENS
    }

    /// The capacity in thousandths of a token.
    pub open spec fn full(self) -> nat {
        self.capacity as nat * SCALE as nat
    }
}

/// The state kept for one identity.
#[derive(Clone, Copy, Debug, PartialEq, Eq)]
pub struct Bucket {
    /// Available budget, in thousandths of a token.
    pub level: u64,
    /// When the level was last brought up to date.
    pub last_refill: u64,
    /// Latest time at which the identity was seen.
    pub last_access: u64,
}

/// The bucket that a never-seen identity starts from: fully charged.
pub open spec fn fresh_bucket(cfg: LimitConfig, now: u64) -> Bucket {
    Bucket { level: cfg.full() as u64, last_refill: now, last_access: now }
}

/// The level of `b` once refilled at time `now`, capped at the capacity.
/// A clock that reads earlier than the last refill refills nothing.
pub open spec fn refilled(cfg: LimitConfig, b: Bucket, now: u64) -> nat {
    if now <= b.last_refill {
        b.level as nat
    } else {
        let grown = b.level as nat + (now - b.last_refill) as nat * cfg.refill_per_sec as nat;
        if grown < cfg.full() {
            grown
        } else {
            cfg.full()
        }
    }
}

pub open spec fn later(a: u64, b: u64) -> u64 {
    if a < b {
        b
    } else {
        a
    }
}

/// One admission decision: refill, then grant the request and consume `cost` tokens if
/// they are available, else leave the refilled level as it is.
pub open spec fn step(cfg: LimitConfig, prior: Option<Bucket>, cost: u64, now: u64) -> (bool, Bucket) {
    let b = match prior {
        Some(b) => b,
        None => fresh_bucket(cfg, now),
    };
    let avail = refilled(cfg, b, now);
    let need = cost as nat * SCALE as nat;
    let granted = avail >= need;
    let level: int = if granted {
        avail - need
    } else {
        avail as int
    };
    (
        granted,
        Bucket {
            level: level as u64,
            last_refill: later(b.last_refill, now),
            last_access: later(b.last_access, now),
        },
    )
}

/// Whether a bucket has been idle beyond the retention window at `now`.
pub open spec fn is_stale(cfg: LimitConfig, b: Bucket, now: u64) -> bool {
    now > b.last_access && now - b.last_access > cfg.retention_ms
}

pub open spec fn lookup(m: Map<Seq<char>, Bucket>, id: Seq<char>) -> Option<Bucket> {
    if m.contains_key(id) {
        Some(m[id])
    } else {
        None
    }
}

/// The table of buckets, one per identity seen and not yet reclaimed.
pub struct RateLimiter {
    config: LimitConfig,
    identities: Vec<String>,
    buckets: Vec<Bucket>,
    table: Ghost<Map<Seq<char>, Bucket>>,
}

impl RateLimiter {
    pub closed spec fn view(&self) -> Map<Seq<char>, Bucket> {
        self.table@
    }

    pub closed spec fn spec_config(&self) -> LimitConfig {
        self.config
    }

    pub closed spec fn wf(&self) -> bool {
        &&& self.config.wf()
        &&& self.identities.len() == self.buckets.len()
        &&& forall|i: int, j: int|
            0 <= i < j < self.identities.len() ==> self.identities[i]@ != self.identities[j]@
        &&& forall|i: int|
            0 <= i < self.identities.len() ==> #[trigger] self.table@.contains_key(
                self.identities[i]@,
            ) && self.table@[self.identities[i]@] == self.buckets[i]
        &&& forall|k: Seq<char>|
            #[trigger] self.table@.contains_key(k) ==> exists|i: int|
                0 <= i < self.identities.len() && self.identities[i]@ == k
        &&& forall|k: Seq<char>|
            #[trigger] self.table@.contains_key(k) ==> self.table@[k].level <= self.config.full()
    }

    /// An empty table.
    pub fn new(config: LimitConfig) -> (r: RateLimiter)
        requires
            config.wf(),
        ensures
            r.wf(),
            r@ == Map::<Seq<char>, Bucket>::empty(),
            r.spec_config() == config,
    {
        RateLimiter {
            config,
            identities: Vec::new(),
            buckets: Vec::new(),
            table: Ghost(Map::empty()),
        }
    }

    pub fn config(&self) -> (r: LimitConfig)
        requires
            self.wf(),
        ensures
            r == self.spec_config(),
            r.wf(),
    {
        self.config
    }

    /// Number of identities currently tracked.
    pub fn len(&self) -> (r: usize)
        requires
            self.wf(),
        ensures
            r == self@.len(),
    {
        proof {
            self.lemma_dom_len();
        }
        self.identities.len()
    }

    proof fn lemma_dom_len(&self)
        requires
            self.wf(),
        ensures
            self@.len() == self.identities.len(),
        decreases self.identities.len(),
    {
        let ids = self.identities@.map_values(|s: String| s@);
        assert forall|i: int, j: int| 0 <= i < j < ids.len() implies ids[i] != ids[j] by {}
        assert(ids.no_duplicates());
        assert(self.table@.dom() =~= ids.to_set()) by {
            assert forall|k: Seq<char>| self.table@.dom().contains(k) implies ids.to_set().contains(k) by {
                let i = choose|i: int| 0 <= i < self.identities.len() && self.identities[i]@ == k;
                assert(ids[i] == k);
            }
            assert forall|k: Seq<char>| ids.to_set().contains(k) implies self.table@.dom().contains(k) by {
                let i = choose|i: int| 0 <= i < ids.len() && ids[i] == k;
                assert(self.table@.contains_key(self.identities[i]@));
            }
        }
        ids.unique_seq_to_set();
    }

    /// Position of `id` in the table, if it is tracked.
    fn find(&self, id: &String) -> (r: Option<usize>)
        requires
            self.wf(),
        ensures
            match r {
                Some(i) => i < self.identities.len() && self.identities[i as int]@ == id@,
                None => !self@.contains_key(id@),
            },
    {
        let mut i: usize = 0;
        while i < self.identities.len()
            invariant
                self.wf(),
                i <= self.identities.len(),
                forall|j: int| 0 <= j < i ==> self.identities[j]@ != id@,
            decreases self.identities.len() - i,
        {
            if self.identities[i] == *id {
                return Some(i);
            }
            i = i + 1;
        }
        None
    }

    /// Refills `b` at `now` and decides on a request of `cost` tokens.
    fn decide(cfg: LimitConfig, b: Bucket, cost: u64, now: u64) -> (r: (bool, Bucket))
        requires
            cfg.wf(),
            b.level <= cfg.full(),
            0 < cost <= MAX_TOKENS,
        ensures
            r == step(cfg, Some(b), cost, now),
            r.1.level <= cfg.full(),
    {
        let full: u64 = cfg.capacity * SCALE;
        let avail: u64 = if now <= b.last_refill {
            b.level
        } else {
            let elapsed: u64 = now - b.last_refill;
            proof {
                assert(elapsed as nat * cfg.refill_per_sec as nat <= u64::MAX as nat
                    * u64::MAX as nat) by (nonlinear_arith)
                    requires
                        elapsed <= u64::MAX,
                        cfg.refill_per_sec <= u64::MAX,
                ;
            }
            let gained: u128 = elapsed as u128 * cfg.refill_per_sec as u128;
            let grown: u128 = b.level as u128 + gained;
            if grown < full as u128 {
                grown as u64
            } else {
                full
            }
        };
        let need: u64 = cost * SCALE;
        let granted = avail >= need;
        let level = if granted {
            avail - need
        } else {
            avail
        };
        let last_refill = if b.last_refill < now {
            now
        } else {
            b.last_refill
        };
        let last_access = if b.last_access < now {
            now
        } else {
            b.last_access
        };
        (granted, Bucket { level, last_refill, last_access })
    }

    /// Decides whether `identity` may spend `cost` tokens at time `now`
    /// (milliseconds), and charges its bucket if so. An identity seen for the
    /// first time starts with a full bucket. No other identity's bucket is
    /// read or changed.
    pub fn check_and_consume(&mut self, identity: &String, cost: u64, now: u64) -> (r: bool)
        requires
            old(self).wf(),
            0 < cost <= MAX_TOKENS,
        ensures
            final(self).wf(),
            final(self).spec_config() == old(self).spec_config(),
            r == step(old(self).spec_config(), lookup(old(self)@, identity@), cost, now).0,
            final(self)@ == old(self)@.insert(
                identity@,
                step(old(self).spec_config(), lookup(old(self)@, identity@), cost, now).1,
            ),
    {
        let cfg = self.config;
        match self.find(identity) {
            Some(i) => {
                let b = self.buckets[i];
                proof {
                    assert(self.table@.contains_key(self.identities[i as int]@));
                }
                let (granted, nb) = Self::decide(cfg, b, cost, now);
                self.buckets.set(i, nb);
                self.table = Ghost(self.table@.insert(identity@, nb));
                proof {
                    assert forall|k: Seq<char>| #[trigger]
                        self.table@.contains_key(k) implies exists|j: int|
                        0 <= j < self.identities.len() && self.identities[j]@ == k by {
                        if k != identity@ {
                            assert(old(self).table@.contains_key(k));
                            let j = choose|j: int|
                                0 <= j < old(self).identities.len() && old(self).identities[j]@ == k;
                            assert(self.identities[j]@ == k);
                        } else {
                            assert(self.identities[i as int]@ == k);
                        }
                    }
                }
                granted
            },
            None => {
                proof {
                    assert(cfg.full() <= u64::MAX);
                }
                let start = Bucket { level: cfg.capacity * SCALE, last_refill: now, last_access: now };
                let (granted, nb) = Self::decide(cfg, start, cost, now);
                let ghost prev = self.identities@;
                self.identities.push(identity.clone());
                self.buckets.push(nb);
                self.table = Ghost(self.table@.insert(identity@, nb));
                proof {
                    assert forall|i: int, j: int|
                        0 <= i < j < self.identities.len() implies self.identities[i]@
                        != self.identities[j]@ by {
                        if j == prev.len() {
                            assert(old(self).table@.contains_key(prev[i]@));
                        }
                    }
                    assert forall|k: Seq<char>| #[trigger]
                        self.table@.contains_key(k) implies exists|j: int|
                        0 <= j < self.identities.len() && self.identities[j]@ == k by {
                        if k == identity@ {
                            assert(self.identities[prev.len() as int]@ == k);
                        } else {
                            assert(old(self).table@.contains_key(k));
                            let j = choose|j: int| 0 <= j < prev.len() && prev[j]@ == k;
                            assert(self.identities[j]@ == k);
                        }
                    }
                    assert forall|i: int| 0 <= i < self.identities.len() implies #[trigger]
                        self.table@.contains_key(self.identities[i]@) && self.table@[self.identities[i]@]
                        == self.buckets[i] by {
                        if i < prev.len() {
                            assert(old(self).table@.contains_key(prev[i]@));
                        }
                    }
                }
                granted
            },
        }
    }

    /// Reclaims every bucket that has been idle beyond the retention window
    /// at `now`; every other bucket stays as it was.
    pub fn sweep(&mut self, now: u64)
        requires
            old(self).wf(),
        ensures
            final(self).wf(),
            final(self).spec_config() == old(self).spec_config(),
            forall|k: Seq<char>| #[trigger]
                final(self)@.contains_key(k) == (old(self)@.contains_key(k) && !is_stale(
                    old(self).spec_config(),
                    old(self)@[k],
                    now,
                )),
            forall|k: Seq<char>| #[trigger]
                final(self)@.contains_key(k) ==> final(self)@[k] == old(self)@[k],
    {
        let cfg = self.config;
        let mut ids: Vec<String> = Vec::new();
        let mut bs: Vec<Bucket> = Vec::new();
        let ghost mut kept: Map<Seq<char>, Bucket> = Map::empty();
        let mut i: usize = 0;
        while i < self.identities.len()
            invariant
                self.wf(),
                self.config == cfg,
                i <= self.identities.len(),
                ids.len() == bs.len(),
                forall|a: int, b: int| 0 <= a < b < ids.len() ==> ids[a]@ != ids[b]@,
                forall|a: int|
                    0 <= a < ids.len() ==> #[trigger] kept.contains_key(ids[a]@) && kept[ids[a]@]
                        == bs[a],
                forall|k: Seq<char>| #[trigger]
                    kept.contains_key(k) ==> exists|a: int| 0 <= a < ids.len() && ids[a]@ == k,
                forall|k: Seq<char>| #[trigger]
                    kept.contains_key(k) == (exists|j: int|
                        0 <= j < i && self.identities[j]@ == k && !is_stale(
                            cfg,
                            self.buckets[j],
                            now,
                        )),
                forall|k: Seq<char>| #[trigger]
                    kept.contains_key(k) ==> self@.contains_key(k) && kept[k] == self@[k],
            decreases self.identities.len() - i,
        {
            let b = self.buckets[i];
            let idle = now > b.last_access && now - b.last_access > cfg.retention_ms;
            proof {
                assert(self.table@.contains_key(self.identities[i as int]@));
            }
            if !idle {
                let ghost prev = ids@;
                let ghost pk = kept;
                ids.push(self.identities[i].clone());
                bs.push(b);
                proof {
                    let k0 = self.identities[i as int]@;
                    assert(!pk.contains_key(k0)) by {
                        if pk.contains_key(k0) {
                            let j = choose|j: int|
                                0 <= j < i && self.identities[j]@ == k0 && !is_stale(
                                    cfg,
                                    self.buckets[j],
                                    now,
                                );
                            assert(self.identities[j]@ != self.identities[i as int]@);
                        }
                    }
                    kept = kept.insert(k0, b);
                    assert forall|a: int, c: int| 0 <= a < c < ids.len() implies ids[a]@
                        != ids[c]@ by {
                        if c == prev.len() {
                            assert(pk.contains_key(prev[a]@));
                        }
                    }
                    assert forall|a: int| 0 <= a < ids.len() implies #[trigger] kept.contains_key(
                        ids[a]@,
                    ) && kept[ids[a]@] == bs[a] by {
                        if a < prev.len() {
                            assert(pk.contains_key(prev[a]@));
                        }
                    }
                    assert forall|k: Seq<char>| #[trigger] kept.contains_key(k) implies exists|a: int|
                        0 <= a < ids.len() && ids[a]@ == k by {
                        if k == k0 {
                            assert(ids[prev.len() as int]@ == k);
                        } else {
                            let a = choose|a: int| 0 <= a < prev.len() && prev[a]@ == k;
                            assert(ids[a]@ == k);
                        }
                    }
                    assert forall|k: Seq<char>| #[trigger] kept.contains_key(k) == (exists|j: int|
                        0 <= j < i + 1 && self.identities[j]@ == k && !is_stale(
                            cfg,
                            self.buckets[j],
                            now,
                        )) by {
                        if k == k0 {
                            assert(self.identities[i as int]@ == k);
                        }
                        if pk.contains_key(k) {
                            let j = choose|j: int|
                                0 <= j < i && self.identities[j]@ == k && !is_stale(
                                    cfg,
                                    self.buckets[j],
                                    now,
                                );
                            assert(0 <= j < i + 1);
                        }
                    }
                }
            } else {
                proof {
                    assert forall|k: Seq<char>| #[trigger] kept.contains_key(k) == (exists|j: int|
                        0 <= j < i + 1 && self.identities[j]@ == k && !is_stale(
                            cfg,
                            self.buckets[j],
                            now,
                        )) by {
                        if exists|j: int|
                            0 <= j < i + 1 && self.identities[j]@ == k && !is_stale(
                                cfg,
                                self.buckets[j],
                                now,
                            ) {
                            let j = choose|j: int|
                                0 <= j < i + 1 && self.identities[j]@ == k && !is_stale(
                                    cfg,
                                    self.buckets[j],
                                    now,
                                );
                            assert(j != i);
                        }
                    }
                }
            }
            i = i + 1;
        }
        proof {
            assert forall|k: Seq<char>| #[trigger]
                kept.contains_key(k) == (self@.contains_key(k) && !is_stale(
                    cfg,
                    self@[k],
                    now,
                )) by {
                if self@.contains_key(k) {
                    let j = choose|j: int| 0 <= j < self.identities.len() && self.identities[j]@ == k;
                    assert(self.table@.contains_key(self.identities[j]@));
                    if kept.contains_key(k) {
                        let j2 = choose|j2: int|
                            0 <= j2 < self.identities.len() && self.identities[j2]@ == k
                                && !is_stale(cfg, self.buckets[j2], now);
                        assert(self.table@.contains_key(self.identities[j2]@));
                    }
                }
            }
        }
        self.identities = ids;
        self.buckets = bs;
        self.table = Ghost(kept);
    }
}

} // verus!
