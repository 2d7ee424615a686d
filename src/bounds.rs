//! What the token bucket guarantees over whole sequences of decisions.
use vstd::prelude::*;
use vstd::arithmetic::mul::lemma_mul_is_distributive_add_other_way;
use crate::limiter::{
    LimitConfig, Bucket, MAX_TOKENS, SCALE, fresh_bucket, refilled, step, lookup,
};

verus! {

/// Runs one identity's bucket through the requests `costs[i]` made at
/// `times[i]`, in order: the number granted and the bucket left afterwards.
pub open spec fn run(cfg: LimitConfig, b: Bucket, costs: Seq<u64>, times: Seq<u64>) -> (nat, Bucket)
    decreases costs.len(),
{
    if costs.len() == 0 || times.len() == 0 {
        (0, b)
    } else {
        let first = step(cfg, Some(b), costs[0], times[0]);
        let rest = run(cfg, first.1, costs.drop_first(), times.drop_first());
        (rest.0 + if first.0 {
            1nat
        } else {
            0nat
        }, rest.1)
    }
}

pub open spec fn total(costs: Seq<u64>) -> nat
    decreases costs.len(),
{
    if costs.len() == 0 {
        0
    } else {
        costs[0] as nat + total(costs.drop_first())
    }
}

pub open spec fn non_decreasing(times: Seq<u64>) -> bool {
    forall|i: int, j: int| 0 <= i <= j < times.len() ==> times[i] <= times[j]
}

proof fn lemma_refilled_bounds(cfg: LimitConfig, b: Bucket, now: u64)
    requires
        b.level <= cfg.full(),
    ensures
        refilled(cfg, b, now) <= cfg.full(),
        b.last_refill <= now ==> refilled(cfg, b, now) <= b.level + (now - b.last_refill) as nat
            * cfg.refill_per_sec as nat,
{
}

/// The accounting behind the token-bucket bound: what was granted plus
/// what is left never exceeds what was available at the first request plus
/// what refilled since.
proof fn lemma_run_accounting(cfg: LimitConfig, b: Bucket, cost: u64, costs: Seq<u64>, times: Seq<u64>)
    requires
        cfg.wf(),
        0 < cost <= MAX_TOKENS,
        b.level <= cfg.full(),
        costs.len() == times.len(),
        times.len() > 0,
        forall|i: int| 0 <= i < costs.len() ==> costs[i] == cost,
        non_decreasing(times),
        b.last_refill <= times[0],
    ensures
        run(cfg, b, costs, times).0 * (cost as nat * SCALE as nat) + run(cfg, b, costs, times).1.level
            <= refilled(cfg, b, times[0]) + (times.last() - times[0]) as nat
            * cfg.refill_per_sec as nat,
        run(cfg, b, costs, times).1.level <= cfg.full(),
    decreases times.len(),
{
    let need = cost as nat * SCALE as nat;
    let rate = cfg.refill_per_sec as nat;
    let first = step(cfg, Some(b), costs[0], times[0]);
    let nb = first.1;
    lemma_refilled_bounds(cfg, b, times[0]);
    let g: nat = if first.0 {
        1
    } else {
        0
    };
    assert(g * need + nb.level == refilled(cfg, b, times[0]));
    assert(nb.last_refill == times[0]);
    if times.len() == 1 {
        assert(costs.drop_first().len() == 0);
        assert(run(cfg, nb, costs.drop_first(), times.drop_first()) == (0nat, nb));
        assert(run(cfg, b, costs, times) == (g, nb));
        assert(times.last() == times[0]);
    } else {
        let cs = costs.drop_first();
        let ts = times.drop_first();
        assert(non_decreasing(ts));
        assert(times[0] <= times[1]);
        lemma_run_accounting(cfg, nb, cost, cs, ts);
        let rest = run(cfg, nb, cs, ts);
        assert(run(cfg, b, costs, times) == (rest.0 + g, rest.1));
        lemma_refilled_bounds(cfg, nb, ts[0]);
        assert(ts.last() == times.last());
        let d1 = (ts[0] - times[0]) as nat;
        let d2 = (ts.last() - ts[0]) as nat;
        assert((times.last() - times[0]) as nat == d1 + d2);
        lemma_mul_is_distributive_add_other_way(rate as int, d1 as int, d2 as int);
        lemma_mul_is_distributive_add_other_way(need as int, rest.0 as int, g as int);
    }
}

/// Token-bucket bound. For one identity making requests of a fixed cost `c`
/// at non-decreasing times that span a window of `T` milliseconds, with a
/// refill rate of `r` tokens per second and a capacity of `B` tokens, the
/// tokens granted are at most `B` plus what refills over the window:
/// `granted * c <= B + r * T / 1000`. When `B` is a multiple of `c` this is
/// `granted <= B / c + floor(r * T / (1000 * c))`.
/// The bucket may be in any state it can reach before the window opens.
pub proof fn lemma_token_bucket_bound(
    cfg: LimitConfig,
    b: Bucket,
    c: u64,
    costs: Seq<u64>,
    times: Seq<u64>,
)
    requires
        cfg.wf(),
        0 < c <= MAX_TOKENS,
        b.level <= cfg.full(),
        costs.len() == times.len(),
        times.len() > 0,
        forall|i: int| 0 <= i < costs.len() ==> costs[i] == c,
        non_decreasing(times),
        b.last_refill <= times[0],
    ensures
        run(cfg, b, costs, times).0 * (c as nat * SCALE as nat) <= cfg.full() + (times.last()
            - times[0]) as nat * cfg.refill_per_sec as nat,
        cfg.capacity % c == 0 ==> run(cfg, b, costs, times).0 <= cfg.capacity / c + ((times.last()
            - times[0]) as nat * cfg.refill_per_sec as nat) / (SCALE as nat * c as nat),
{
    lemma_run_accounting(cfg, b, c, costs, times);
    lemma_refilled_bounds(cfg, b, times[0]);
    let n = run(cfg, b, costs, times).0;
    let x = (times.last() - times[0]) as nat * cfg.refill_per_sec as nat;
    let d = SCALE as nat * c as nat;
    assert(n * (c as nat * SCALE as nat) == n * d) by (nonlinear_arith)
        requires
            d == SCALE as nat * c as nat,
    ;
    if cfg.capacity % c == 0 {
        let q = cfg.capacity / c;
        assert(cfg.capacity == q * c) by (nonlinear_arith)
            requires
                cfg.capacity % c == 0,
                q == cfg.capacity / c,
                c > 0,
        ;
        assert(cfg.full() == q * d) by (nonlinear_arith)
            requires
                cfg.capacity == q * c,
                cfg.full() == cfg.capacity as nat * SCALE as nat,
                d == SCALE as nat * c as nat,
        ;
        if n > q {
            assert((n - q) * d <= x) by (nonlinear_arith)
                requires
                    n * d <= q * d + x,
                    n > q,
            ;
            assert(n - q <= x / d) by (nonlinear_arith)
                requires
                    (n - q) * d <= x,
                    d > 0,
                    n > q,
            ;
        }
    }
}

proof fn lemma_burst_from(cfg: LimitConfig, b: Bucket, costs: Seq<u64>, times: Seq<u64>, now: u64)
    requires
        cfg.wf(),
        costs.len() == times.len(),
        forall|i: int| 0 <= i < times.len() ==> times[i] == now,
        b.last_refill == now,
        b.last_access == now,
        total(costs) * SCALE as nat <= b.level,
    ensures
        run(cfg, b, costs, times).0 == costs.len(),
        run(cfg, b, costs, times).1.level == b.level - total(costs) * SCALE as nat,
        run(cfg, b, costs, times).1.last_refill == now,
        run(cfg, b, costs, times).1.last_access == now,
    decreases costs.len(),
{
    if costs.len() > 0 {
        let first = step(cfg, Some(b), costs[0], now);
        assert(total(costs) == costs[0] + total(costs.drop_first()));
        lemma_mul_is_distributive_add_other_way(
            SCALE as int,
            costs[0] as int,
            total(costs.drop_first()) as int,
        );
        assert(first.0);
        lemma_burst_from(cfg, first.1, costs.drop_first(), times.drop_first(), now);
    }
}

/// A never-seen identity starts fully charged: a burst of requests made at
/// one instant whose costs add up to at most the capacity is granted in
/// full, and leaves exactly the capacity minus their sum. The first request
/// of such an identity is decided as if its bucket were full.
pub proof fn lemma_fresh_burst(cfg: LimitConfig, costs: Seq<u64>, times: Seq<u64>, now: u64)
    requires
        cfg.wf(),
        costs.len() == times.len(),
        forall|i: int| 0 <= i < times.len() ==> times[i] == now,
        total(costs) <= cfg.capacity,
    ensures
        run(cfg, fresh_bucket(cfg, now), costs, times).0 == costs.len(),
        run(cfg, fresh_bucket(cfg, now), costs, times).1.level == (cfg.capacity - total(costs))
            * SCALE as nat,
        run(cfg, fresh_bucket(cfg, now), costs, times).1.last_refill == now,
        forall|c: u64| step(cfg, None, c, now) == step(cfg, Some(fresh_bucket(cfg, now)), c, now),
{
    assert(total(costs) * SCALE as nat <= cfg.capacity * SCALE as nat) by (nonlinear_arith)
        requires
            total(costs) <= cfg.capacity,
    ;
    lemma_burst_from(cfg, fresh_bucket(cfg, now), costs, times, now);
    assert((cfg.capacity - total(costs)) * SCALE as nat == cfg.capacity * SCALE as nat - total(
        costs,
    ) * SCALE as nat) by (nonlinear_arith)
        requires
            total(costs) <= cfg.capacity,
    ;
}

/// Once a bucket holds less than a request's cost, that request is refused
/// until enough time has passed for the refill to cover the cost, and
/// granted from then on (for a cost within the capacity).
pub proof fn lemma_refused_until_refilled(cfg: LimitConfig, b: Bucket, c: u64, now: u64)
    requires
        cfg.wf(),
        0 < c <= cfg.capacity,
        b.level <= cfg.full(),
        (b.level as nat) < c as nat * SCALE as nat,
        b.last_refill <= now,
    ensures
        step(cfg, Some(b), c, now).0 == (b.level as nat + (now - b.last_refill) as nat
            * cfg.refill_per_sec as nat >= c as nat * SCALE as nat),
{
    assert(c as nat * SCALE as nat <= cfg.full()) by (nonlinear_arith)
        requires
            c <= cfg.capacity,
            cfg.full() == cfg.capacity as nat * SCALE as nat,
    ;
    if now == b.last_refill {
        assert((now - b.last_refill) as nat * cfg.refill_per_sec as nat == 0) by (nonlinear_arith)
            requires
                now == b.last_refill,
        ;
    }
}

/// Isolation: a decision for identity `a` changes nothing about any later
/// decision for a different identity `b`.
pub proof fn lemma_isolation(
    cfg: LimitConfig,
    m: Map<Seq<char>, Bucket>,
    a: Seq<char>,
    cost_a: u64,
    time_a: u64,
    b: Seq<char>,
    cost_b: u64,
    time_b: u64,
)
    requires
        a != b,
    ensures
        step(cfg, lookup(m.insert(a, step(cfg, lookup(m, a), cost_a, time_a).1), b), cost_b, time_b)
            == step(cfg, lookup(m, b), cost_b, time_b),
{
    let m2 = m.insert(a, step(cfg, lookup(m, a), cost_a, time_a).1);
    assert(lookup(m2, b) == lookup(m, b));
}

} // verus!
