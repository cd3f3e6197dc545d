//! What holds of epochs and their sizing, said of the records.
use crate::stream::epoch::{lag_of, opened, progressed, wrapped_sum};
use crate::stream::sizer::{sized, SizerConfig};
use crate::stream::source::{batch_records, planned, units_from, Record, UnitView};
use crate::tally::same_word;
use vstd::prelude::*;

verus! {

/// The backlog is the records of all partitions that are behind what was
/// committed; it is zero exactly where every partition is drained.
pub proof fn a_backlog_counts_what_is_not_committed(
    logs: Seq<Seq<Record>>,
    committed: Seq<u64>,
    k: int,
)
    requires
        0 <= k <= logs.len(),
        committed.len() == logs.len(),
    ensures
        lag_of(logs, committed, k) >= 0,
        lag_of(logs, committed, k) == 0 <==> forall|p: int|
            0 <= p < k ==> logs[p].len() <= #[trigger] committed[p],
        k > 0 ==> lag_of(logs, committed, k) - lag_of(logs, committed, k - 1) == logs[k
            - 1].skip(
            if committed[k - 1] < logs[k - 1].len() {
                committed[k - 1] as int
            } else {
                logs[k - 1].len() as int
            },
        ).len(),
    decreases k,
{
    if k > 0 {
        a_backlog_counts_what_is_not_committed(logs, committed, k - 1);
        if lag_of(logs, committed, k) == 0 {
            assert(logs[k - 1].len() <= committed[k - 1]);
        }
    }
}

/// A backlog gets the fewest workers that take it at so many records each, no
/// fewer than the least and no more than the most; no backlog gets none.
pub proof fn workers_are_as_few_as_suffice(lag: int, cfg: SizerConfig)
    requires
        lag >= 0,
        cfg.min_workers <= cfg.max_workers,
        cfg.records_per_worker >= 1,
    ensures
        sized(0, cfg) == 0,
        ({
            let n = sized(lag, cfg);
            &&& lag > 0 ==> cfg.min_workers <= n <= cfg.max_workers
            &&& lag > 0 && n > cfg.min_workers ==> (n - 1) * cfg.records_per_worker < lag
            &&& lag > 0 && n < cfg.max_workers ==> n * cfg.records_per_worker >= lag
        }),
{
    if lag > 0 {
        let per = cfg.records_per_worker as int;
        let q = (lag + per - 1) / per;
        let n = sized(lag, cfg);
        vstd::arithmetic::div_mod::lemma_fundamental_div_mod(lag + per - 1, per);
        let r = (lag + per - 1) % per;
        assert(q * per >= lag && (q - 1) * per < lag) by (nonlinear_arith)
            requires
                lag + per - 1 == per * q + r,
                0 <= r < per,
        ;
        if n > cfg.min_workers {
            assert(n <= q);
            assert((n - 1) * per <= (q - 1) * per) by (nonlinear_arith)
                requires
                    n <= q,
                    per >= 1,
            ;
        }
        if n < cfg.max_workers {
            assert(n >= q);
            assert(n * per >= q * per) by (nonlinear_arith)
                requires
                    n >= q,
                    per >= 1,
            ;
        }
    }
}

/// An epoch has the workers that its backlog calls for, or those at hand where
/// these are more, starts from what was committed, and has nothing done.
pub proof fn an_epoch_opens_with_its_backlog(
    id: u64,
    logs: Seq<Seq<Record>>,
    committed: Seq<u64>,
    cfg: SizerConfig,
    local: usize,
)
    ensures
        ({
            let e = opened(id, logs, committed, cfg, local);
            &&& e.epoch_id == id
            &&& e.lag == lag_of(logs, committed, logs.len() as int)
            &&& e.workers >= local && e.workers >= sized(e.lag, cfg)
            &&& e.workers == local || e.workers == sized(e.lag, cfg)
            &&& e.pending == planned(logs, committed, cfg.max_records_per_unit, logs.len() as int)
            &&& e.total == e.pending.len()
            &&& e.records == 0
            &&& e.progress == committed
        }),
{
}

/// The units of a partition follow each other without a gap, from the offset
/// to the end of the log, and all name the partition.
pub proof fn units_follow_each_other(p: u32, log: Seq<Record>, start: int, max: u64)
    requires
        0 <= start < log.len() <= u64::MAX,
    ensures
        ({
            let u = units_from(p, log, start, max);
            &&& u.len() > 0
            &&& u[0].start == start
            &&& u[u.len() - 1].end == log.len()
            &&& forall|i: int|
                0 <= i < u.len() ==> (#[trigger] u[i]).partition == p && u[i].start < u[i].end
            &&& forall|i: int, j: int|
                0 <= i && j == i + 1 && j < u.len() ==> (#[trigger] u[i]).end == (
                #[trigger] u[j]).start
        }),
    decreases log.len() - start,
{
    let u = units_from(p, log, start, max);
    let end = u[0].end as int;
    let t = units_from(p, log, end, max);
    assert(u.skip(1) =~= t);
    if end < log.len() {
        units_follow_each_other(p, log, end, max);
        assert forall|i: int| 0 <= i < u.len() implies (#[trigger] u[i]).partition == p
            && u[i].start < u[i].end by {
            if i > 0 {
                assert(u[i] == t[i - 1]);
            }
        }
        assert forall|i: int, j: int| 0 <= i && j == i + 1 && j < u.len() implies (
        #[trigger] u[i]).end == (#[trigger] u[j]).start by {
            assert(u[j] == t[j - 1]);
            if i > 0 {
                assert(u[i] == t[i - 1]);
            }
        }
        assert(u[u.len() - 1] == t[t.len() - 1]);
    } else {
        assert(t.len() == 0);
        assert(u.len() == 1);
    }
}

/// A drained partition has no units.
pub proof fn a_drained_partition_has_no_units(p: u32, log: Seq<Record>, start: int, max: u64)
    requires
        start >= log.len(),
    ensures
        units_from(p, log, start, max).len() == 0,
{
}

/// A partition's progress is the farthest end of the units that were done of
/// it, or where it started if that is farther; other partitions stay.
pub proof fn progress_is_the_farthest_end(start: Seq<u64>, done: Seq<UnitView>, p: int)
    requires
        0 <= p < start.len(),
        forall|i: int| 0 <= i < done.len() ==> (#[trigger] done[i]).partition < start.len(),
    ensures
        ({
            let r = progressed(start, done);
            &&& r.len() == start.len()
            &&& r[p] >= start[p]
            &&& forall|i: int|
                0 <= i < done.len() && (#[trigger] done[i]).partition == p ==> r[p] >= done[i].end
            &&& r[p] == start[p] || exists|i: int|
                0 <= i < done.len() && (#[trigger] done[i]).partition == p && done[i].end == r[p]
        }),
    decreases done.len(),
{
    if done.len() > 0 {
        let d = done.drop_last();
        let u = done.last();
        assert forall|i: int| 0 <= i < d.len() implies (#[trigger] d[i]).partition < start.len() by {
            assert(d[i] == done[i]);
        }
        progress_is_the_farthest_end(start, d, p);
        assert(done[done.len() - 1] == u);
        let q = progressed(start, d);
        let r = progressed(start, done);
        assert forall|i: int| 0 <= i < done.len() && (#[trigger] done[i]).partition == p implies r[p]
            >= done[i].end by {
            if i < d.len() {
                assert(d[i] == done[i]);
            }
        }
        if r[p] == q[p] && r[p] != start[p] {
            let i = choose|i: int|
                0 <= i < d.len() && (#[trigger] d[i]).partition == p && d[i].end == q[p];
            assert(done[i] == d[i]);
        }
    }
}

/// The sum of some counts without a bound.
pub open spec fn count_total(v: Seq<u64>) -> int
    decreases v.len(),
{
    if v.len() == 0 {
        0
    } else {
        v[0] + count_total(v.skip(1))
    }
}

proof fn count_push(v: Seq<u64>, x: u64)
    ensures
        count_total(v.push(x)) == count_total(v) + x,
    decreases v.len(),
{
    let w = v.push(x);
    if v.len() == 0 {
        assert(w.skip(1) =~= Seq::empty());
        assert(count_total(w.skip(1)) == 0);
    } else {
        assert(w.skip(1) =~= v.skip(1).push(x));
        count_push(v.skip(1), x);
    }
}

/// Counts are added modulo `2^64`.
pub proof fn counts_add_up(rs: Seq<u64>)
    ensures
        same_word(wrapped_sum(rs) as int, count_total(rs)),
    decreases rs.len(),
{
    if rs.len() > 0 {
        counts_add_up(rs.drop_last());
        count_push(rs.drop_last(), rs.last());
        assert(rs.drop_last().push(rs.last()) =~= rs);
        let a = wrapped_sum(rs.drop_last()) as int;
        let t = count_total(rs.drop_last());
        let s = wrapped_sum(rs) as int;
        let x = rs.last() as int;
        assert(s == a + x || s == a + x - 0x1_0000_0000_0000_0000);
        assert((s - (t + x)) % 0x1_0000_0000_0000_0000 == 0) by (nonlinear_arith)
            requires
                (a - t) % 0x1_0000_0000_0000_0000 == 0,
                s == a + x || s == a + x - 0x1_0000_0000_0000_0000,
        ;
    }
}

/// A batch becomes one record for each value, in order, at offsets that go on
/// from where the log ended; its key is the value.
pub proof fn a_batch_is_pushed_in_order(values: Seq<u64>, from: int, i: int)
    requires
        0 <= i <= values.len(),
        0 <= from,
        from + values.len() <= u64::MAX,
    ensures
        ({
            let b = batch_records(values, from, i);
            &&& b.len() == values.len() - i
            &&& forall|k: int|
                0 <= k < b.len() ==> (#[trigger] b[k]).offset == from + i + k && b[k].key == values[i
                    + k]
        }),
    decreases values.len() - i,
{
    if i < values.len() {
        a_batch_is_pushed_in_order(values, from, i + 1);
        let b = batch_records(values, from, i);
        let t = batch_records(values, from, i + 1);
        assert forall|k: int| 0 <= k < b.len() implies (#[trigger] b[k]).offset == from + i + k
            && b[k].key == values[i + k] by {
            if k > 0 {
                assert(b[k] == t[k - 1]);
            }
        }
    }
}

} // verus!
