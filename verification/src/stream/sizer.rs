//! How many workers an epoch gets for its backlog.
use vstd::prelude::*;

verus! {

#[derive(Clone, Debug)]
pub struct SizerConfig {
    /// About how many records a worker should handle in an epoch.
    pub records_per_worker: u64,
    pub max_workers: usize,
    pub min_workers: usize,
    /// How many records a unit of work holds at most.
    pub max_records_per_unit: u64,
}

impl Default for SizerConfig {
    fn default() -> (c: SizerConfig)
        ensures
            c.records_per_worker == 10_000,
            c.max_workers == 64,
            c.min_workers == 1,
            c.max_records_per_unit == 4_096,
    {
        SizerConfig {
            records_per_worker: 10_000,
            max_workers: 64,
            min_workers: 1,
            max_records_per_unit: 4_096,
        }
    }
}

pub open spec fn at_least_one(n: u64) -> int {
    if n < 1 {
        1
    } else {
        n as int
    }
}

pub open spec fn clamped(n: int, low: int, high: int) -> int {
    if n < low {
        low
    } else if n > high {
        high
    } else {
        n
    }
}

/// The workers for a backlog: as many as it takes at so many records each,
/// between the least and the most; none for no backlog.
pub open spec fn sized(lag: int, cfg: SizerConfig) -> int {
    if lag == 0 {
        0
    } else {
        let per = at_least_one(cfg.records_per_worker);
        clamped((lag + per - 1) / per, cfg.min_workers as int, cfg.max_workers as int)
    }
}

/// Whether a backlog can be sized: there is none, or the limits are in order.
pub open spec fn sizable(lag: int, cfg: SizerConfig) -> bool {
    lag == 0 || cfg.min_workers <= cfg.max_workers
}

/// Sizes an epoch from its backlog alone.
pub fn size_workers(lag: u64, cfg: &SizerConfig) -> (n: usize)
    requires
        sizable(lag as int, *cfg),
    ensures
        n == sized(lag as int, *cfg),
{
    if lag == 0 {
        return 0;
    }
    let per: u64 = if cfg.records_per_worker < 1 { 1 } else { cfg.records_per_worker };
    let whole: u64 = (lag - 1) / per;
    proof {
        vstd::arithmetic::div_mod::lemma_div_plus_one(lag - 1, per as int);
        vstd::arithmetic::div_mod::lemma_div_is_ordered_by_denominator(
            lag - 1,
            1,
            per as int,
        );
    }
    let n: u64 = whole + 1;
    if n < cfg.min_workers as u64 {
        cfg.min_workers
    } else if n > cfg.max_workers as u64 {
        cfg.max_workers
    } else {
        n as usize
    }
}

/// A greater backlog gets no fewer workers.
pub proof fn more_lag_no_fewer_workers(a: int, b: int, cfg: SizerConfig)
    requires
        0 <= a <= b,
        cfg.min_workers <= cfg.max_workers,
    ensures
        sized(a, cfg) <= sized(b, cfg),
{
    let per = at_least_one(cfg.records_per_worker);
    vstd::arithmetic::div_mod::lemma_div_is_ordered(a + per - 1, b + per - 1, per);
    vstd::arithmetic::div_mod::lemma_div_pos_is_pos(b + per - 1, per);
}

/// Unless the most workers are taken, no worker has more records than it
/// should.
pub proof fn workers_suffice(lag: int, cfg: SizerConfig)
    requires
        lag >= 0,
        cfg.min_workers <= cfg.max_workers,
    ensures
        sized(lag, cfg) == cfg.max_workers || sized(lag, cfg) * at_least_one(
            cfg.records_per_worker,
        ) >= lag,
        lag > 0 ==> cfg.min_workers <= sized(lag, cfg) <= cfg.max_workers,
{
    let per = at_least_one(cfg.records_per_worker);
    if lag > 0 {
        let q = (lag + per - 1) / per;
        vstd::arithmetic::div_mod::lemma_fundamental_div_mod(lag + per - 1, per);
        assert(q * per >= lag) by (nonlinear_arith)
            requires
                lag + per - 1 == per * q + (lag + per - 1) % per,
                (lag + per - 1) % per < per,
        ;
        let n = sized(lag, cfg);
        if n != cfg.max_workers {
            assert(n >= q);
            assert(n * per >= q * per) by (nonlinear_arith)
                requires
                    n >= q,
                    per > 0,
            ;
        }
    } else {
        assert(sized(lag, cfg) * per == 0) by (nonlinear_arith)
            requires
                sized(lag, cfg) == 0,
        ;
    }
}

} // verus!
