//! Epochs: sizing from the backlog, handing out units of work, and committing
//! the offsets reached.
use crate::stream::offsets::OffsetStore;
use crate::stream::sizer::{size_workers, sizable, sized, SizerConfig};
use crate::stream::source::{one_or_more, planned, unit_views, units_from, Record, StreamSource, UnitView, WorkUnit};
use vstd::prelude::*;

verus! {

/// What became of an epoch.
#[derive(Clone, Debug)]
pub struct EpochReport {
    pub epoch_id: u64,
    pub lag_before: u64,
    pub workers: usize,
    pub units_total: usize,
    pub records_processed: u64,
    pub offsets_committed: Vec<(u32, u64)>,
}

pub open spec fn behind(log: Seq<Record>, committed: u64) -> int {
    if committed < log.len() {
        log.len() - committed
    } else {
        0
    }
}

/// The backlog of the first `k` partitions.
pub open spec fn lag_of(logs: Seq<Seq<Record>>, committed: Seq<u64>, k: int) -> int
    decreases k,
{
    if k <= 0 {
        0
    } else {
        lag_of(logs, committed, k - 1) + behind(logs[k - 1], committed[k - 1])
    }
}

pub open spec fn larger(a: int, b: int) -> int {
    if a < b {
        b
    } else {
        a
    }
}

/// How far each partition got after a unit was done.
pub open spec fn advanced(progress: Seq<u64>, u: UnitView) -> Seq<u64> {
    if u.end > progress[u.partition as int] {
        progress.update(u.partition as int, u.end)
    } else {
        progress
    }
}

/// How far each partition got after some units were done.
pub open spec fn progressed(start: Seq<u64>, done: Seq<UnitView>) -> Seq<u64>
    decreases done.len(),
{
    if done.len() == 0 {
        start
    } else {
        advanced(progressed(start, done.drop_last()), done.last())
    }
}

/// An epoch under way.
#[verifier::ext_equal]
pub struct EpochView {
    pub epoch_id: u64,
    pub lag: int,
    pub workers: int,
    pub pending: Seq<UnitView>,
    pub total: int,
    pub records: u64,
    pub progress: Seq<u64>,
}

/// The epoch that starts from what was committed of each partition.
pub open spec fn opened(
    epoch_id: u64,
    logs: Seq<Seq<Record>>,
    committed: Seq<u64>,
    sizer: SizerConfig,
    n_local: usize,
) -> EpochView {
    let lag = lag_of(logs, committed, logs.len() as int);
    let units = planned(logs, committed, sizer.max_records_per_unit, logs.len() as int);
    EpochView {
        epoch_id,
        lag,
        workers: larger(sized(lag, sizer), n_local as int),
        pending: units,
        total: units.len() as int,
        records: 0,
        progress: committed,
    }
}

pub struct Epoch {
    pub epoch_id: u64,
    pub lag_before: u64,
    pub workers: usize,
    pub units: Vec<WorkUnit>,
    pub units_total: usize,
    pub records: u64,
    pub progress: Vec<u64>,
}

impl View for Epoch {
    type V = EpochView;

    open spec fn view(&self) -> EpochView {
        EpochView {
            epoch_id: self.epoch_id,
            lag: self.lag_before as int,
            workers: self.workers as int,
            pending: unit_views(self.units@),
            total: self.units_total as int,
            records: self.records,
            progress: self.progress@,
        }
    }
}

proof fn lag_grows(logs: Seq<Seq<Record>>, committed: Seq<u64>, k: int, n: int)
    requires
        0 <= k <= n,
    ensures
        0 <= lag_of(logs, committed, k) <= lag_of(logs, committed, n),
    decreases n,
{
    if k < n {
        lag_grows(logs, committed, k, n - 1);
    } else if n > 0 {
        lag_grows(logs, committed, k - 1, n - 1);
    }
}

/// Whether an epoch can be sized from what was committed.
pub open spec fn openable(logs: Seq<Seq<Record>>, committed: Seq<u64>, sizer: SizerConfig) -> bool {
    let lag = lag_of(logs, committed, logs.len() as int);
    lag <= u64::MAX && sizable(lag, sizer)
}

/// Tests whether an epoch can be sized.
pub fn check_open<S: StreamSource>(source: &S, committed: &Vec<u64>, sizer: &SizerConfig) -> (r: bool)
    requires
        source.wf(),
        committed@.len() == source.logs().len(),
    ensures
        r == openable(source.logs(), committed@, *sizer),
{
    let ghost logs = source.logs();
    let count: u32 = source.partition_count();
    let mut lag: u64 = 0;
    let mut p: u32 = 0;
    while p < count
        invariant
            p <= count,
            count == logs.len(),
            logs == source.logs(),
            source.wf(),
            committed@.len() == logs.len(),
            lag == lag_of(logs, committed@, p as int),
        decreases count - p,
    {
        let c: u64 = committed[p as usize];
        let high: u64 = source.high_watermark(p);
        proof {
            lag_grows(logs, committed@, p + 1, logs.len() as int);
        }
        if c < high {
            match lag.checked_add(high - c) {
                Some(n) => lag = n,
                None => return false,
            }
        }
        p += 1;
    }
    lag == 0 || sizer.min_workers <= sizer.max_workers
}

impl Epoch {
    /// Measures the backlog, sizes the epoch and plans its units.
    pub fn open<S: StreamSource>(
        epoch_id: u64,
        source: &S,
        committed: &Vec<u64>,
        sizer: &SizerConfig,
        n_local: usize,
    ) -> (e: Epoch)
        requires
            source.wf(),
            committed@.len() == source.logs().len(),
            openable(source.logs(), committed@, *sizer),
        ensures
            e@ == opened(epoch_id, source.logs(), committed@, *sizer, n_local),
    {
        let ghost logs = source.logs();
        let count: u32 = source.partition_count();
        let mut lag: u64 = 0;
        let mut progress: Vec<u64> = Vec::new();
        let mut p: u32 = 0;
        while p < count
            invariant
                p <= count,
                count == logs.len(),
                logs == source.logs(),
                source.wf(),
                committed@.len() == logs.len(),
                lag == lag_of(logs, committed@, p as int),
                lag_of(logs, committed@, logs.len() as int) <= u64::MAX,
                progress@ == committed@.take(p as int),
            decreases count - p,
        {
            let c: u64 = committed[p as usize];
            let high: u64 = source.high_watermark(p);
            proof {
                lag_grows(logs, committed@, p + 1, logs.len() as int);
            }
            if c < high {
                lag = lag + (high - c);
            }
            progress.push(c);
            assert(progress@ =~= committed@.take(p + 1));
            p += 1;
        }
        assert(progress@ =~= committed@);
        let n: usize = size_workers(lag, sizer);
        let workers: usize = if n < n_local { n_local } else { n };
        let units: Vec<WorkUnit> = source.plan_work(committed, sizer.max_records_per_unit);
        let units_total: usize = units.len();
        Epoch { epoch_id, lag_before: lag, workers, units, units_total, records: 0, progress }
    }

    /// Hands out a unit, if any is left.
    pub fn take(&mut self) -> (r: Option<WorkUnit>)
        ensures
            match r {
                Some(u) => old(self)@.pending.len() > 0 && u@ == old(self)@.pending.last()
                    && final(self)@ == (EpochView {
                    pending: old(self)@.pending.drop_last(),
                    ..old(self)@
                }),
                None => old(self)@.pending.len() == 0 && final(self)@ == old(self)@,
            },
    {
        let ghost before = self.units@;
        let r: Option<WorkUnit> = self.units.pop();
        proof {
            if before.len() > 0 {
                assert(unit_views(self.units@) =~= unit_views(before).drop_last());
            } else {
                assert(self.units@ =~= before);
            }
        }
        r
    }

    /// Takes note of a unit that was done and of how many records it gave.
    pub fn finish(&mut self, unit: &WorkUnit, n: u64)
        requires
            unit.partition < old(self)@.progress.len(),
        ensures
            final(self)@ == (EpochView {
                records: old(self)@.records.wrapping_add(n),
                progress: advanced(old(self)@.progress, unit@),
                ..old(self)@
            }),
    {
        self.records = self.records.wrapping_add(n);
        let p: usize = unit.partition as usize;
        if unit.end_offset > self.progress[p] {
            self.progress.set(p, unit.end_offset);
        }
        assert(self@ =~= (EpochView {
            records: old(self)@.records.wrapping_add(n),
            progress: advanced(old(self)@.progress, unit@),
            ..old(self)@
        }));
    }

    /// What is to be committed of a partition, given what was.
    pub fn due(&self, partition: usize, prev: u64) -> (r: Option<u64>)
        requires
            partition < self@.progress.len(),
        ensures
            r == (if self@.progress[partition as int] > prev {
                Some(self@.progress[partition as int])
            } else {
                None
            }),
    {
        if self.progress[partition] > prev {
            Some(self.progress[partition])
        } else {
            None
        }
    }
}

// ---------------------------------------------------------------------------
// Every unit done, every partition drained
// ---------------------------------------------------------------------------

proof fn progress_bounds(start: Seq<u64>, done: Seq<UnitView>, p: int)
    requires
        0 <= p < start.len(),
        forall|i: int| 0 <= i < done.len() ==> (#[trigger] done[i]).partition < start.len(),
    ensures
        progressed(start, done).len() == start.len(),
        progressed(start, done)[p] >= start[p],
        forall|i: int|
            0 <= i < done.len() && (#[trigger] done[i]).partition == p ==> progressed(start, done)[p]
                >= done[i].end,
        progressed(start, done)[p] == start[p] || exists|i: int|
            0 <= i < done.len() && (#[trigger] done[i]).partition == p && done[i].end == progressed(
                start,
                done,
            )[p],
    decreases done.len(),
{
    if done.len() > 0 {
        let d = done.drop_last();
        assert forall|i: int| 0 <= i < d.len() implies (#[trigger] d[i]).partition < start.len() by {
            assert(d[i] == done[i]);
        }
        progress_bounds(start, d, p);
        let last = done.last();
        assert(last == done[done.len() - 1]);
        let was = progressed(start, d);
        let now = progressed(start, done);
        assert(now == advanced(was, last));
        assert forall|i: int| 0 <= i < done.len() && (#[trigger] done[i]).partition == p implies now[p]
            >= done[i].end by {
            if i < d.len() {
                assert(d[i] == done[i]);
            }
        }
        if now[p] == was[p] && was[p] != start[p] {
            let i = choose|i: int|
                0 <= i < d.len() && (#[trigger] d[i]).partition == p && d[i].end == was[p];
            assert(done[i] == d[i]);
        }
    }
}

proof fn units_facts(p: u32, log: Seq<Record>, start: int, max: u64)
    requires
        0 <= start,
        log.len() <= u64::MAX,
    ensures
        forall|i: int|
            0 <= i < units_from(p, log, start, max).len() ==> (#[trigger] units_from(
                p,
                log,
                start,
                max,
            )[i]).partition == p && units_from(p, log, start, max)[i].end <= log.len(),
        start < log.len() ==> units_from(p, log, start, max).len() > 0 && units_from(
            p,
            log,
            start,
            max,
        ).last().end == log.len(),
    decreases log.len() - start,
{
    if start < log.len() {
        let end = if log.len() - start <= one_or_more(max) {
            log.len() as int
        } else {
            start + one_or_more(max)
        };
        units_facts(p, log, end, max);
        let u = UnitView {
            partition: p,
            start: start as u64,
            end: end as u64,
            records: log.subrange(start, end),
        };
        let tail = units_from(p, log, end, max);
        let all = units_from(p, log, start, max);
        assert(all == seq![u] + tail);
        assert forall|i: int| 0 <= i < all.len() implies (#[trigger] all[i]).partition == p
            && all[i].end <= log.len() by {
            if i > 0 {
                assert(all[i] == tail[i - 1]);
            }
        }
        if end == log.len() {
            assert(tail.len() == 0);
            assert(all.last() == u);
        } else {
            assert(all.last() == tail.last());
        }
    }
}

proof fn planned_facts(logs: Seq<Seq<Record>>, committed: Seq<u64>, max: u64, k: int)
    requires
        0 <= k <= logs.len() <= u32::MAX,
        forall|i: int| 0 <= i < logs.len() ==> (#[trigger] logs[i]).len() <= u64::MAX,
    ensures
        forall|i: int|
            #![trigger planned(logs, committed, max, k)[i]]
            0 <= i < planned(logs, committed, max, k).len() ==> planned(
                logs,
                committed,
                max,
                k,
            )[i].partition < k && planned(logs, committed, max, k)[i].end <= logs[planned(
                logs,
                committed,
                max,
                k,
            )[i].partition as int].len(),
        forall|p: int|
            #![trigger logs[p]]
            0 <= p < k && committed[p] < logs[p].len() ==> exists|i: int|
                0 <= i < planned(logs, committed, max, k).len() && (#[trigger] planned(
                    logs,
                    committed,
                    max,
                    k,
                )[i]).partition == p && planned(logs, committed, max, k)[i].end == logs[p].len(),
    decreases k,
{
    if k > 0 {
        planned_facts(logs, committed, max, k - 1);
        let head = planned(logs, committed, max, k - 1);
        let log = logs[k - 1];
        assert(log.len() <= u64::MAX);
        let start = committed[k - 1] as int;
        let tail = units_from((k - 1) as u32, log, start, max);
        units_facts((k - 1) as u32, log, start, max);
        let all = planned(logs, committed, max, k);
        assert(all == head + tail);
        assert forall|i: int| #![trigger all[i]] 0 <= i < all.len() implies all[i].partition < k
            && all[i].end <= logs[all[i].partition as int].len() by {
            if i < head.len() {
                assert(all[i] == head[i]);
            } else {
                assert(all[i] == tail[i - head.len()]);
            }
        }
        assert forall|p: int| #![trigger logs[p]] 0 <= p < k && committed[p] < logs[p].len() implies exists|
            i: int,
        |
            0 <= i < all.len() && (#[trigger] all[i]).partition == p && all[i].end == logs[p].len() by {
            if p < k - 1 {
                let i = choose|i: int|
                    0 <= i < head.len() && (#[trigger] head[i]).partition == p && head[i].end
                        == logs[p].len();
                assert(all[i] == head[i]);
            } else {
                let i = head.len() + tail.len() - 1;
                assert(all[i] == tail.last());
                assert(tail[tail.len() - 1] == tail.last());
            }
        }
    }
}

/// Where nothing is planned, nothing is behind.
proof fn nothing_due(logs: Seq<Seq<Record>>, committed: Seq<u64>, max: u64)
    requires
        logs.len() <= u32::MAX,
        forall|i: int| 0 <= i < logs.len() ==> (#[trigger] logs[i]).len() <= u64::MAX,
        planned(logs, committed, max, logs.len() as int).len() == 0,
    ensures
        forall|p: int| 0 <= p < logs.len() ==> (#[trigger] logs[p]).len() <= committed[p],
{
    planned_facts(logs, committed, max, logs.len() as int);
}

/// Where an epoch leaves each partition.
pub open spec fn drained_to(logs: Seq<Seq<Record>>, committed: Seq<u64>) -> Seq<u64> {
    Seq::new(
        logs.len(),
        |p: int|
            if committed[p] < logs[p].len() {
                logs[p].len() as u64
            } else {
                committed[p]
            },
    )
}

/// In whatever order the units of an epoch are done, every partition is
/// drained to the end of its log, and none moves back.
pub proof fn any_order_drains(
    logs: Seq<Seq<Record>>,
    committed: Seq<u64>,
    max: u64,
    done: Seq<UnitView>,
)
    requires
        logs.len() <= u32::MAX,
        committed.len() == logs.len(),
        forall|i: int| 0 <= i < logs.len() ==> (#[trigger] logs[i]).len() <= u64::MAX,
        forall|u: UnitView| #[trigger]
            done.contains(u) <==> planned(logs, committed, max, logs.len() as int).contains(u),
    ensures
        progressed(committed, done) == drained_to(logs, committed),
{
    let all = planned(logs, committed, max, logs.len() as int);
    planned_facts(logs, committed, max, logs.len() as int);
    let want = drained_to(logs, committed);
    let got = progressed(committed, done);
    assert forall|i: int| 0 <= i < done.len() implies (#[trigger] done[i]).partition < logs.len()
        && done[i].end <= logs[done[i].partition as int].len() by {
        assert(done.contains(done[i]));
        let j = choose|j: int| 0 <= j < all.len() && all[j] == done[i];
        assert(all[j].partition < logs.len());
    }
    assert forall|p: int| 0 <= p < want.len() implies got[p] == want[p] by {
        progress_bounds(committed, done, p);
        if committed[p] < logs[p].len() {
            let i = choose|i: int|
                0 <= i < all.len() && (#[trigger] all[i]).partition == p && all[i].end
                    == logs[p].len();
            assert(all.contains(all[i]));
            assert(done.contains(all[i]));
            let j = choose|j: int| 0 <= j < done.len() && done[j] == all[i];
            assert(got[p] >= done[j].end);
        }
        if got[p] != committed[p] {
            let i = choose|i: int|
                0 <= i < done.len() && (#[trigger] done[i]).partition == p && done[i].end == got[p];
            assert(done[i].end <= logs[p].len());
        }
    }
    if logs.len() > 0 {
        progress_bounds(committed, done, 0);
    } else {
        if done.len() > 0 {
            assert(done.contains(done[0]));
        }
        assert(done.len() == 0);
    }
    assert(got =~= want);
}

// ---------------------------------------------------------------------------
// Running epochs
// ---------------------------------------------------------------------------

pub open spec fn or_zero(o: Option<u64>) -> u64 {
    match o {
        Some(n) => n,
        None => 0,
    }
}

/// What a store has committed of the first partitions of a stream.
pub open spec fn committed_of<O: OffsetStore>(o: O, stream: Seq<char>, n: nat) -> Seq<u64> {
    Seq::new(n, |p: int| or_zero(o.offset(stream, p as u32)))
}

/// The sum of some counts, modulo 2^64.
pub open spec fn wrapped_sum(rs: Seq<u64>) -> u64
    decreases rs.len(),
{
    if rs.len() == 0 {
        0
    } else {
        wrapped_sum(rs.drop_last()).wrapping_add(rs.last())
    }
}

/// Whether the processing of a unit can give a count.
pub open spec fn gives<F: Fn(&WorkUnit) -> u64>(process: F, u: UnitView, n: u64) -> bool {
    exists|w: WorkUnit| #[trigger] call_ensures(process, (&w,), n) && w@ == u
}

/// Whether some counts can come of the units, the last unit first.
pub open spec fn counts<F: Fn(&WorkUnit) -> u64>(process: F, units: Seq<UnitView>, rs: Seq<u64>) -> bool {
    &&& rs.len() == units.len()
    &&& forall|i: int|
        0 <= i < rs.len() ==> gives(process, units[units.len() - 1 - i], #[trigger] rs[i])
}

/// Whether a store is another one with every partition of a stream committed
/// to the end of its log, and nothing moved back.
pub open spec fn caught_up<O: OffsetStore>(
    before: O,
    after: O,
    stream: Seq<char>,
    logs: Seq<Seq<Record>>,
) -> bool {
    forall|s: Seq<char>, p: u32| #[trigger]
        after.offset(s, p) == (if s == stream && p < logs.len() && or_zero(before.offset(s, p))
            < logs[p as int].len() {
            Some(logs[p as int].len() as u64)
        } else {
            before.offset(s, p)
        })
}

/// The ends of some logs.
pub open spec fn log_ends(logs: Seq<Seq<Record>>) -> Seq<u64> {
    Seq::new(logs.len(), |p: int| logs[p].len() as u64)
}

/// Whether a store is another one after partition `k` of a stream was refused:
/// the partitions before it are committed to their ends, those behind it and
/// all other streams are as they were. Of the offset of `k` nothing is said.
pub open spec fn refused_at<O: OffsetStore>(
    before: O,
    after: O,
    stream: Seq<char>,
    ends: Seq<u64>,
    k: u32,
) -> bool {
    &&& k < ends.len()
    &&& or_zero(before.offset(stream, k)) < ends[k as int]
    &&& forall|s: Seq<char>, p: u32|
        s != stream || p != k ==> #[trigger] after.offset(s, p) == (if s == stream && p < k
            && or_zero(before.offset(s, p)) < ends[p as int] {
            Some(ends[p as int])
        } else {
            before.offset(s, p)
        })
}

fn read_committed<O: OffsetStore>(offsets: &O, stream: &str, count: u32) -> (v: Vec<u64>)
    requires
        offsets.wf(),
    ensures
        v@ == committed_of(*offsets, stream@, count as nat),
{
    let mut v: Vec<u64> = Vec::new();
    let mut p: u32 = 0;
    while p < count
        invariant
            p <= count,
            offsets.wf(),
            v@ == committed_of(*offsets, stream@, p as nat),
        decreases count - p,
    {
        let o: u64 = match offsets.get(stream, p) {
            Some(n) => n,
            None => 0,
        };
        v.push(o);
        assert(v@ =~= committed_of(*offsets, stream@, (p + 1) as nat));
        p += 1;
    }
    assert(v@ =~= committed_of(*offsets, stream@, count as nat));
    v
}

/// The pairs of a partition and its offset.
pub open spec fn pairs(v: Seq<u64>) -> Seq<(u32, u64)> {
    Seq::new(v.len(), |p: int| (p as u32, v[p]))
}

fn pair_up(v: &Vec<u64>) -> (r: Vec<(u32, u64)>)
    requires
        v@.len() <= u32::MAX,
    ensures
        r@ == pairs(v@),
{
    let mut r: Vec<(u32, u64)> = Vec::new();
    let mut p: usize = 0;
    while p < v.len()
        invariant
            p <= v@.len() <= u32::MAX,
            r@ == pairs(v@).take(p as int),
        decreases v@.len() - p,
    {
        r.push((p as u32, v[p]));
        assert(r@ =~= pairs(v@).take(p + 1));
        p += 1;
    }
    assert(r@ =~= pairs(v@));
    r
}

/// Works through the units of an epoch, the last first.
fn work_off<F: Fn(&WorkUnit) -> u64>(epoch: &mut Epoch, process: &F) -> (rs: Ghost<Seq<u64>>)
    requires
        forall|u: &WorkUnit| call_requires(*process, (u,)),
        old(epoch)@.records == 0,
        forall|i: int|
            0 <= i < old(epoch)@.pending.len() ==> (#[trigger] old(epoch)@.pending[i]).partition
                < old(epoch)@.progress.len(),
    ensures
        counts(*process, old(epoch)@.pending, rs@),
        final(epoch)@ == (EpochView {
            pending: Seq::empty(),
            records: wrapped_sum(rs@),
            progress: progressed(old(epoch)@.progress, old(epoch)@.pending.reverse()),
            ..old(epoch)@
        }),
{
    let ghost start = epoch@;
    let ghost units = start.pending;
    let ghost n = units.len() as int;
    let ghost mut rs: Seq<u64> = Seq::empty();
    proof {
        assert(units.take(n) =~= units);
        assert(units.reverse().take(0) =~= Seq::empty());
    }
    loop
        invariant
            start == old(epoch)@,
            units == start.pending,
            n == units.len(),
            rs.len() <= n,
            forall|u: &WorkUnit| call_requires(*process, (u,)),
            forall|i: int| 0 <= i < n ==> (#[trigger] units[i]).partition < start.progress.len(),
            epoch@.pending == units.take(n - rs.len()),
            epoch@.progress == progressed(start.progress, units.reverse().take(rs.len() as int)),
            epoch@.progress.len() == start.progress.len(),
            epoch@.records == wrapped_sum(rs),
            epoch@ == (EpochView {
                pending: epoch@.pending,
                records: epoch@.records,
                progress: epoch@.progress,
                ..start
            }),
            forall|i: int| 0 <= i < rs.len() ==> gives(*process, units[n - 1 - i], #[trigger] rs[i]),
        ensures
            rs.len() == n,
            epoch@.pending.len() == 0,
        decreases n - rs.len(),
    {
        let ghost k = rs.len() as int;
        match epoch.take() {
            Some(u) => {
                assert(u@ == units[n - 1 - k]);
                let c: u64 = process(&u);
                epoch.finish(&u, c);
                proof {
                    assert(gives(*process, u@, c));
                    let r = units.reverse();
                    assert(r[k] == units[n - 1 - k]);
                    assert(r.take(k + 1).drop_last() =~= r.take(k));
                    assert(r.take(k + 1).last() == u@);
                    assert(units.take(n - k).drop_last() =~= units.take(n - k - 1));
                    assert(rs.push(c).drop_last() =~= rs);
                    rs = rs.push(c);
                }
            },
            None => {
                break;
            },
        }
    }
    proof {
        assert(units.reverse().take(n) =~= units.reverse());
        assert(epoch@.pending =~= Seq::empty());
    }
    Ghost(rs)
}

/// Commits what an epoch reached, partition by partition.
fn commit<O: OffsetStore>(epoch: &Epoch, offsets: &mut O, stream: &str) -> (r: Result<
    Vec<(u32, u64)>,
    String,
>)
    requires
        old(offsets).wf(),
        epoch@.progress.len() <= u32::MAX,
    ensures
        final(offsets).wf(),
        final(offsets).never_refuses() == old(offsets).never_refuses(),
        old(offsets).never_refuses() ==> r is Ok,
        r is Err ==> exists|k: u32| #[trigger]
            refused_at(*old(offsets), *final(offsets), stream@, epoch@.progress, k),
        r is Ok ==> forall|s: Seq<char>, p: u32| #[trigger]
            final(offsets).offset(s, p) == (if s == stream@ && p < epoch@.progress.len() && or_zero(
                old(offsets).offset(s, p),
            ) < epoch@.progress[p as int] {
                Some(epoch@.progress[p as int])
            } else {
                old(offsets).offset(s, p)
            }),
        r matches Ok(v) ==> v@ == pairs(
            committed_of(*final(offsets), stream@, epoch@.progress.len()),
        ),
{
    let n: usize = epoch.progress.len();
    let ghost prog = epoch@.progress;
    let ghost first = *offsets;
    let mut out: Vec<(u32, u64)> = Vec::new();
    let mut k: usize = 0;
    while k < n
        invariant
            k <= n,
            n == prog.len() <= u32::MAX,
            prog == epoch@.progress,
            first == *old(offsets),
            offsets.wf(),
            offsets.never_refuses() == first.never_refuses(),
            forall|s: Seq<char>, p: u32| #[trigger]
                offsets.offset(s, p) == (if s == stream@ && p < k && or_zero(first.offset(s, p))
                    < prog[p as int] {
                    Some(prog[p as int])
                } else {
                    first.offset(s, p)
                }),
            out@ == pairs(committed_of(*offsets, stream@, k as nat)),
        decreases n - k,
    {
        let p: u32 = k as u32;
        let ghost was = *offsets;
        let prev: u64 = match offsets.get(stream, p) {
            Some(v) => v,
            None => 0,
        };
        if let Some(end) = epoch.due(k, prev) {
            match offsets.put(stream, p, end) {
                Ok(_) => {},
                Err(e) => {
                    proof {
                        assert forall|s: Seq<char>, q: u32| s != stream@ || q != p implies
                            #[trigger] offsets.offset(s, q) == (if s == stream@ && q < p && or_zero(
                            first.offset(s, q),
                        ) < prog[q as int] {
                            Some(prog[q as int])
                        } else {
                            first.offset(s, q)
                        }) by {
                            assert(offsets.offset(s, q) == was.offset(s, q));
                        }
                        assert(was.offset(stream@, p) == first.offset(stream@, p));
                        assert(refused_at(first, *offsets, stream@, prog, p));
                    }
                    return Err(e);
                },
            }
        }
        let now: u64 = match offsets.get(stream, p) {
            Some(v) => v,
            None => 0,
        };
        out.push((p, now));
        proof {
            assert forall|s: Seq<char>, q: u32| #[trigger]
                offsets.offset(s, q) == (if s == stream@ && q < k + 1 && or_zero(first.offset(s, q))
                    < prog[q as int] {
                    Some(prog[q as int])
                } else {
                    first.offset(s, q)
                }) by {
                assert(was.offset(s, q) == (if s == stream@ && q < k && or_zero(first.offset(s, q))
                    < prog[q as int] {
                    Some(prog[q as int])
                } else {
                    first.offset(s, q)
                }));
            }
            let want = pairs(committed_of(*offsets, stream@, (k + 1) as nat));
            let had = pairs(committed_of(was, stream@, k as nat));
            assert forall|i: int| 0 <= i < k implies want[i] == had[i] by {
                assert(was.offset(stream@, i as u32) == offsets.offset(stream@, i as u32));
            }
            assert(out@ =~= want);
        }
        k += 1;
    }
    Ok(out)
}

/// Runs one epoch: measures the backlog, works the units off, and commits the
/// offsets, partition by partition. It fails only where an offset cannot be
/// committed, so not with offsets that are never refused, and then stops there.
pub fn run_epoch<S: StreamSource, O: OffsetStore, F: Fn(&WorkUnit) -> u64>(
    epoch_id: u64,
    source: &S,
    offsets: &mut O,
    stream_name: &str,
    sizer: &SizerConfig,
    n_local: usize,
    process: &F,
) -> (r: Result<EpochReport, String>)
    requires
        source.wf(),
        old(offsets).wf(),
        openable(
            source.logs(),
            committed_of(*old(offsets), stream_name@, source.logs().len()),
            *sizer,
        ),
        forall|u: &WorkUnit| call_requires(*process, (u,)),
    ensures
        ({
            let committed = committed_of(*old(offsets), stream_name@, source.logs().len());
            let e = opened(epoch_id, source.logs(), committed, *sizer, n_local);
            &&& e.total == 0 ==> r is Ok && *final(offsets) == *old(offsets)
            &&& old(offsets).never_refuses() ==> r is Ok
            &&& final(offsets).wf()
            &&& final(offsets).never_refuses() == old(offsets).never_refuses()
            &&& r is Err ==> exists|k: u32| #[trigger]
                refused_at(
                    *old(offsets),
                    *final(offsets),
                    stream_name@,
                    log_ends(source.logs()),
                    k,
                )
            &&& r matches Ok(rep) ==> {
                &&& rep.epoch_id == epoch_id
                &&& rep.lag_before == e.lag
                &&& rep.workers == e.workers
                &&& rep.units_total == e.total
                &&& exists|rs: Seq<u64>| #[trigger]
                    counts(*process, e.pending, rs) && rep.records_processed == wrapped_sum(rs)
                &&& caught_up(*old(offsets), *final(offsets), stream_name@, source.logs())
                &&& rep.offsets_committed@ == pairs(
                    committed_of(*final(offsets), stream_name@, source.logs().len()),
                )
            }
        }),
{
    let ghost logs = source.logs();
    let count: u32 = source.partition_count();
    let committed: Vec<u64> = read_committed(offsets, stream_name, count);
    let mut epoch: Epoch = Epoch::open(epoch_id, source, &committed, sizer, n_local);
    let ghost e = epoch@;
    if epoch.units_total == 0 {
        proof {
            nothing_due(logs, committed@, sizer.max_records_per_unit);
            assert(caught_up(*offsets, *offsets, stream_name@, logs)) by {
                assert forall|s: Seq<char>, p: u32| #[trigger] offsets.offset(s, p) == (if s
                    == stream_name@ && p < logs.len() && or_zero(offsets.offset(s, p))
                    < logs[p as int].len() {
                    Some(logs[p as int].len() as u64)
                } else {
                    offsets.offset(s, p)
                }) by {
                    if s == stream_name@ && p < logs.len() {
                        assert(committed@[p as int] == or_zero(offsets.offset(s, p)));
                    }
                }
            }
            let rs = Seq::<u64>::empty();
            assert(counts(*process, e.pending, rs));
            assert(wrapped_sum(rs) == 0);
        }
        return Ok(
            EpochReport {
                epoch_id,
                lag_before: epoch.lag_before,
                workers: epoch.workers,
                units_total: 0,
                records_processed: 0,
                offsets_committed: pair_up(&committed),
            },
        );
    }
    proof {
        planned_facts(logs, committed@, sizer.max_records_per_unit, logs.len() as int);
    }
    let rs: Ghost<Seq<u64>> = work_off(&mut epoch, process);
    proof {
        let done = e.pending.reverse();
        assert forall|u: UnitView| #[trigger] done.contains(u) <==> e.pending.contains(u) by {
            if done.contains(u) {
                let i = choose|i: int| 0 <= i < done.len() && done[i] == u;
                assert(e.pending[done.len() - 1 - i] == u);
            }
            if e.pending.contains(u) {
                let i = choose|i: int| 0 <= i < done.len() && e.pending[i] == u;
                assert(done[done.len() - 1 - i] == u);
            }
        }
        any_order_drains(logs, committed@, sizer.max_records_per_unit, done);
        assert(epoch@.progress == drained_to(logs, committed@));
    }
    let ghost before = *offsets;
    match commit(&epoch, offsets, stream_name) {
        Ok(offsets_committed) => {
            proof {
                let prog = epoch@.progress;
                assert forall|s: Seq<char>, p: u32| #[trigger] offsets.offset(s, p) == (if s
                    == stream_name@ && p < logs.len() && or_zero(before.offset(s, p))
                    < logs[p as int].len() {
                    Some(logs[p as int].len() as u64)
                } else {
                    before.offset(s, p)
                }) by {
                    if s == stream_name@ && p < logs.len() {
                        assert(committed@[p as int] == or_zero(before.offset(s, p)));
                        assert(prog[p as int] == drained_to(logs, committed@)[p as int]);
                    }
                }
                assert(caught_up(before, *offsets, stream_name@, logs));
            }
            Ok(
                EpochReport {
                    epoch_id,
                    lag_before: epoch.lag_before,
                    workers: epoch.workers,
                    units_total: epoch.units_total,
                    records_processed: epoch.records,
                    offsets_committed,
                },
            )
        },
        Err(m) => {
            proof {
                let prog = epoch@.progress;
                let ends = log_ends(logs);
                let k = choose|k: u32| #[trigger]
                    refused_at(before, *offsets, stream_name@, prog, k);
                assert forall|p: u32| p < logs.len() implies (or_zero(
                    #[trigger] before.offset(stream_name@, p),
                ) < prog[p as int]) == (or_zero(before.offset(stream_name@, p)) < ends[p as int])
                    && (or_zero(before.offset(stream_name@, p)) < ends[p as int] ==> prog[p as int]
                    == ends[p as int]) by {
                    assert(committed@[p as int] == or_zero(before.offset(stream_name@, p)));
                    assert(prog[p as int] == drained_to(logs, committed@)[p as int]);
                }
                assert(before.offset(stream_name@, k) == before.offset(stream_name@, k));
                assert(refused_at(before, *offsets, stream_name@, ends, k));
            }
            Err(m)
        },
    }
}

proof fn none_behind(logs: Seq<Seq<Record>>, committed: Seq<u64>, max: u64, k: int)
    requires
        0 <= k <= logs.len(),
        forall|p: int| 0 <= p < logs.len() ==> (#[trigger] logs[p]).len() <= committed[p],
    ensures
        planned(logs, committed, max, k).len() == 0,
        lag_of(logs, committed, k) == 0,
    decreases k,
{
    if k > 0 {
        none_behind(logs, committed, max, k - 1);
        assert(logs[k - 1].len() <= committed[k - 1]);
    }
}

/// Runs epochs until nothing is left to do, or so many have run. The first
/// epoch drains the source; the next, if there is one, finds nothing.
pub fn run_until_caught_up<S: StreamSource, O: OffsetStore, F: Fn(&WorkUnit) -> u64>(
    source: &S,
    offsets: &mut O,
    stream_name: &str,
    sizer: &SizerConfig,
    n_local: usize,
    max_epochs: u64,
    process: &F,
) -> (r: Result<Vec<EpochReport>, String>)
    requires
        source.wf(),
        old(offsets).wf(),
        openable(
            source.logs(),
            committed_of(*old(offsets), stream_name@, source.logs().len()),
            *sizer,
        ),
        forall|u: &WorkUnit| call_requires(*process, (u,)),
    ensures
        ({
            let committed = committed_of(*old(offsets), stream_name@, source.logs().len());
            let e = opened(1, source.logs(), committed, *sizer, n_local);
            &&& max_epochs == 0 || e.total == 0 ==> r is Ok && *final(offsets) == *old(offsets)
            &&& old(offsets).never_refuses() ==> r is Ok
            &&& final(offsets).wf()
            &&& final(offsets).never_refuses() == old(offsets).never_refuses()
            &&& r is Err ==> exists|k: u32| #[trigger]
                refused_at(
                    *old(offsets),
                    *final(offsets),
                    stream_name@,
                    log_ends(source.logs()),
                    k,
                )
            &&& r matches Ok(reps) ==> {
                &&& max_epochs > 0 ==> caught_up(
                    *old(offsets),
                    *final(offsets),
                    stream_name@,
                    source.logs(),
                )
                &&& reps@.len() == (if max_epochs == 0 {
                    0int
                } else if e.total == 0 || max_epochs == 1 {
                    1int
                } else {
                    2int
                })
                &&& reps@.len() > 0 ==> {
                    &&& reps@[0].epoch_id == 1
                    &&& reps@[0].lag_before == e.lag
                    &&& reps@[0].workers == e.workers
                    &&& reps@[0].units_total == e.total
                    &&& exists|rs: Seq<u64>| #[trigger]
                        counts(*process, e.pending, rs) && reps@[0].records_processed
                            == wrapped_sum(rs)
                    &&& reps@[0].offsets_committed@ == pairs(
                        committed_of(*final(offsets), stream_name@, source.logs().len()),
                    )
                }
                &&& reps@.len() > 1 ==> {
                    &&& reps@[1].epoch_id == 2
                    &&& reps@[1].lag_before == 0
                    &&& reps@[1].workers == n_local
                    &&& reps@[1].units_total == 0
                    &&& reps@[1].records_processed == 0
                    &&& reps@[1].offsets_committed@ == reps@[0].offsets_committed@
                }
            }
        }),
{
    let mut reports: Vec<EpochReport> = Vec::new();
    if max_epochs == 0 {
        return Ok(reports);
    }
    let ghost logs = source.logs();
    let ghost first = *offsets;
    let rep: EpochReport = match run_epoch(
        1,
        source,
        offsets,
        stream_name,
        sizer,
        n_local,
        process,
    ) {
        Ok(rep) => rep,
        Err(m) => return Err(m),
    };
    let mut empty: bool = rep.units_total == 0;
    reports.push(rep);
    let mut epoch_id: u64 = 1;
    let ghost second = *offsets;
    let ghost after = committed_of(second, stream_name@, logs.len());
    let count: u32 = source.partition_count();
    proof {
        assert forall|p: int| 0 <= p < logs.len() implies (#[trigger] logs[p]).len() <= after[p] by {
            let q = p as u32;
            assert(second.offset(stream_name@, q) == (if or_zero(first.offset(stream_name@, q))
                < logs[p].len() {
                Some(logs[p].len() as u64)
            } else {
                first.offset(stream_name@, q)
            }));
        }
        none_behind(logs, after, sizer.max_records_per_unit, logs.len() as int);
    }
    while epoch_id < max_epochs && !empty
        invariant
            1 <= epoch_id <= 2,
            epoch_id <= max_epochs,
            source.wf(),
            logs == source.logs(),
            offsets.wf(),
            *offsets == second,
            after == committed_of(second, stream_name@, logs.len()),
            planned(logs, after, sizer.max_records_per_unit, logs.len() as int).len() == 0,
            lag_of(logs, after, logs.len() as int) == 0,
            forall|u: &WorkUnit| call_requires(*process, (u,)),
            reports@.len() == epoch_id,
            reports@[0] == rep,
            empty == (rep.units_total == 0) || empty,
            epoch_id == 1 ==> empty == (rep.units_total == 0),
            epoch_id == 2 ==> empty && rep.units_total != 0,
            epoch_id == 2 ==> reports@[1].epoch_id == 2 && reports@[1].lag_before == 0
                && reports@[1].workers == n_local && reports@[1].units_total == 0
                && reports@[1].records_processed == 0 && reports@[1].offsets_committed@ == pairs(
                committed_of(second, stream_name@, logs.len()),
            ),
        decreases max_epochs - epoch_id,
    {
        epoch_id = epoch_id + 1;
        match run_epoch(epoch_id, source, offsets, stream_name, sizer, n_local, process) {
            Ok(next) => {
                proof {
                    let rs = choose|rs: Seq<u64>| #[trigger]
                        counts(
                            *process,
                            opened(epoch_id, logs, after, *sizer, n_local).pending,
                            rs,
                        ) && next.records_processed == wrapped_sum(rs);
                    assert(rs.len() == 0);
                }
                empty = next.units_total == 0;
                reports.push(next);
            },
            Err(m) => {
                return Err(m);
            },
        }
    }
    Ok(reports)
}

} // verus!
