//! Partitioned logs, and the units of work that an epoch takes from them.
use vstd::prelude::*;

verus! {

#[derive(Clone, Copy, Debug, PartialEq, Eq, Structural)]
pub struct Record {
    pub offset: u64,
    pub key: u64,
    pub value: u64,
}

/// A unit of work: a run of offsets of one partition.
#[derive(Clone, Debug)]
pub struct WorkUnit {
    pub partition: u32,
    pub start_offset: u64,
    /// One past the last offset.
    pub end_offset: u64,
    pub records: Vec<Record>,
}

#[verifier::ext_equal]
pub struct UnitView {
    pub partition: u32,
    pub start: u64,
    pub end: u64,
    pub records: Seq<Record>,
}

impl View for WorkUnit {
    type V = UnitView;

    open spec fn view(&self) -> UnitView {
        UnitView {
            partition: self.partition,
            start: self.start_offset,
            end: self.end_offset,
            records: self.records@,
        }
    }
}

pub open spec fn unit_views(v: Seq<WorkUnit>) -> Seq<UnitView> {
    Seq::new(v.len(), |i: int| v[i]@)
}

pub open spec fn one_or_more(n: u64) -> int {
    if n < 1 {
        1
    } else {
        n as int
    }
}

/// The units of a partition from an offset to the end of its log.
pub open spec fn units_from(p: u32, log: Seq<Record>, start: int, max: u64) -> Seq<UnitView>
    decreases log.len() - start,
{
    if start < 0 || start >= log.len() {
        Seq::empty()
    } else {
        let end = if log.len() - start <= one_or_more(max) {
            log.len() as int
        } else {
            start + one_or_more(max)
        };
        seq![
            UnitView {
                partition: p,
                start: start as u64,
                end: end as u64,
                records: log.subrange(start, end),
            },
        ] + units_from(p, log, end, max)
    }
}

/// The units of the first `k` partitions behind what was committed of each.
pub open spec fn planned(logs: Seq<Seq<Record>>, committed: Seq<u64>, max: u64, k: int) -> Seq<
    UnitView,
>
    decreases k,
{
    if k <= 0 {
        Seq::empty()
    } else {
        planned(logs, committed, max, k - 1) + units_from(
            (k - 1) as u32,
            logs[k - 1],
            committed[k - 1] as int,
            max,
        )
    }
}

/// A source of records in partitions, which does not change while it is read.
pub trait StreamSource {
    spec fn logs(&self) -> Seq<Seq<Record>>;

    spec fn wf(&self) -> bool;

    fn partition_count(&self) -> (n: u32)
        requires
            self.wf(),
        ensures
            n == self.logs().len(),
            forall|i: int|
                0 <= i < self.logs().len() ==> (#[trigger] self.logs()[i]).len() <= u64::MAX,
    ;

    /// One past the last offset of a partition.
    fn high_watermark(&self, partition: u32) -> (n: u64)
        requires
            self.wf(),
            partition < self.logs().len(),
        ensures
            n == self.logs()[partition as int].len(),
    ;

    /// The units of work behind what was committed of each partition.
    fn plan_work(&self, committed: &Vec<u64>, max_per_unit: u64) -> (units: Vec<WorkUnit>)
        requires
            self.wf(),
            committed@.len() == self.logs().len(),
        ensures
            unit_views(units@) == planned(
                self.logs(),
                committed@,
                max_per_unit,
                self.logs().len() as int,
            ),
    ;
}

/// A partitioned log in memory.
pub struct InMemorySource {
    pub partitions: Vec<Vec<Record>>,
}

pub open spec fn log_views(v: Seq<Vec<Record>>) -> Seq<Seq<Record>> {
    Seq::new(v.len(), |i: int| v[i]@)
}

/// What a batch of values is pushed as, from the one at `i` on.
pub open spec fn batch_records(values: Seq<u64>, from: int, i: int) -> Seq<Record>
    decreases values.len() - i,
{
    if i < 0 || i >= values.len() {
        Seq::empty()
    } else {
        seq![
            Record {
                offset: (from + i) as u64,
                key: values[i],
                value: (values[i].wrapping_mul(3) + i) as u64,
            },
        ] + batch_records(values, from, i + 1)
    }
}

impl InMemorySource {
    pub fn new(partitions: u32) -> (s: InMemorySource)
        ensures
            s.wf(),
            s.logs() == Seq::new(partitions as nat, |i: int| Seq::<Record>::empty()),
    {
        let mut v: Vec<Vec<Record>> = Vec::new();
        let mut k: u32 = 0;
        while k < partitions
            invariant
                k <= partitions,
                v@.len() == k,
                forall|i: int| 0 <= i < k ==> (#[trigger] v@[i])@.len() == 0,
            decreases partitions - k,
        {
            v.push(Vec::new());
            k += 1;
        }
        let s: InMemorySource = InMemorySource { partitions: v };
        proof {
            let want = Seq::new(partitions as nat, |i: int| Seq::<Record>::empty());
            assert forall|i: int| 0 <= i < want.len() implies s.logs()[i] == want[i] by {
                assert(v@[i]@ =~= Seq::empty());
            }
            assert(s.logs() =~= want);
        }
        s
    }

    /// Appends a record; its offset is its place in the log.
    pub fn push(&mut self, partition: u32, rec: Record)
        requires
            old(self).wf(),
            partition < old(self).logs().len(),
        ensures
            final(self).wf(),
            final(self).logs() == old(self).logs().update(
                partition as int,
                old(self).logs()[partition as int].push(
                    Record { offset: old(self).logs()[partition as int].len() as u64, ..rec },
                ),
            ),
    {
        let p: usize = partition as usize;
        let ghost before = self.partitions@;
        let mut log: Vec<Record> = self.partitions.remove(p);
        let at: u64 = log.len() as u64;
        let kept: Record = Record { offset: at, key: rec.key, value: rec.value };
        log.push(kept);
        self.partitions.insert(p, log);
        proof {
            let old_logs = log_views(before);
            let want = old_logs.update(p as int, old_logs[p as int].push(kept));
            assert(self.partitions@ =~= before.update(p as int, log));
            assert forall|i: int| 0 <= i < want.len() implies self.logs()[i] == want[i] by {
                if i == p {
                    assert(log@ =~= before[p as int]@.push(kept));
                }
            }
            assert(self.logs() =~= want);
        }
    }

    /// Appends a record for each value, with three times the value and its
    /// place in the batch.
    pub fn push_batch(&mut self, partition: u32, values: &Vec<u64>)
        requires
            old(self).wf(),
            partition < old(self).logs().len(),
            forall|i: int|
                0 <= i < values@.len() ==> (#[trigger] values@[i]).wrapping_mul(3) + i <= u64::MAX,
        ensures
            final(self).wf(),
            final(self).logs() == old(self).logs().update(
                partition as int,
                old(self).logs()[partition as int] + batch_records(
                    values@,
                    old(self).logs()[partition as int].len() as int,
                    0,
                ),
            ),
    {
        let ghost l0 = self.logs();
        let ghost p = partition as int;
        let ghost from = l0[p].len() as int;
        let mut i: usize = 0;
        assert(l0.update(p, l0[p]) =~= l0);
        while i < values.len()
            invariant
                i <= values@.len(),
                l0 == old(self).logs(),
                p == partition < l0.len(),
                from == l0[p].len(),
                self.wf(),
                self.logs().len() == l0.len(),
                self.logs()[p].len() == from + i,
                self.logs() == l0.update(p, self.logs()[p]),
                self.logs()[p] + batch_records(values@, from, i as int) == l0[p] + batch_records(
                    values@,
                    from,
                    0,
                ),
                forall|j: int|
                    0 <= j < values@.len() ==> (#[trigger] values@[j]).wrapping_mul(3) + j
                        <= u64::MAX,
            decreases values@.len() - i,
        {
            let ghost was = self.logs()[p];
            let v: u64 = values[i];
            let rec: Record = Record { offset: 0, key: v, value: v.wrapping_mul(3) + i as u64 };
            self.push(partition, rec);
            proof {
                let kept = self.logs()[p].last();
                assert(self.logs()[p] == was.push(kept));
                assert(was.push(kept) + batch_records(values@, from, i + 1) =~= was + batch_records(
                    values@,
                    from,
                    i as int,
                ));
                assert(self.logs() =~= l0.update(p, self.logs()[p]));
            }
            i += 1;
        }
        proof {
            assert(self.logs()[p] + batch_records(values@, from, i as int) =~= self.logs()[p]);
        }
    }
}

proof fn unit_views_push(v: Seq<WorkUnit>, u: WorkUnit)
    ensures
        unit_views(v.push(u)) == unit_views(v).push(u@),
{
    assert(unit_views(v.push(u)) =~= unit_views(v).push(u@));
}

impl StreamSource for InMemorySource {
    open spec fn logs(&self) -> Seq<Seq<Record>> {
        log_views(self.partitions@)
    }

    open spec fn wf(&self) -> bool {
        self.partitions@.len() <= u32::MAX
    }

    fn partition_count(&self) -> (n: u32) {
        proof {
            assert forall|i: int| 0 <= i < self.logs().len() implies (#[trigger] self.logs()[i]).len()
                <= u64::MAX by {
                assert(self.partitions@[i].len() <= usize::MAX);
            }
        }
        self.partitions.len() as u32
    }

    fn high_watermark(&self, partition: u32) -> (n: u64) {
        self.partitions[partition as usize].len() as u64
    }

    fn plan_work(&self, committed: &Vec<u64>, max_per_unit: u64) -> (units: Vec<WorkUnit>) {
        let max: u64 = if max_per_unit < 1 { 1 } else { max_per_unit };
        let ghost logs = self.logs();
        let mut units: Vec<WorkUnit> = Vec::new();
        assert(unit_views(units@) =~= Seq::empty());
        let count: u32 = self.partition_count();
        let mut p: u32 = 0;
        while p < count
            invariant
                p <= count,
                count == logs.len(),
                logs == self.logs(),
                committed@.len() == logs.len(),
                max == one_or_more(max_per_unit),
                unit_views(units@) == planned(logs, committed@, max_per_unit, p as int),
            decreases count - p,
        {
            let log: &Vec<Record> = &self.partitions[p as usize];
            let size: usize = log.len();
            let high: u64 = size as u64;
            let mut start: u64 = committed[p as usize];
            let ghost goal = planned(logs, committed@, max_per_unit, p + 1);
            while start < high
                invariant
                    high == size == log@.len(),
                    p < count,
                    max == one_or_more(max_per_unit),
                    unit_views(units@) + units_from(p, log@, start as int, max_per_unit) == goal,
                decreases high - start,
            {
                let end: u64 = if high - start <= max { high } else { start + max };
                let mut records: Vec<Record> = Vec::new();
                let mut i: u64 = start;
                while i < end
                    invariant
                        start <= i <= end <= high,
                        high == size == log@.len(),
                        records@ == log@.subrange(start as int, i as int),
                    decreases end - i,
                {
                    records.push(log[i as usize]);
                    i += 1;
                    assert(records@ =~= log@.subrange(start as int, i as int));
                }
                let u: WorkUnit = WorkUnit {
                    partition: p,
                    start_offset: start,
                    end_offset: end,
                    records,
                };
                proof {
                    unit_views_push(units@, u);
                    let tail = units_from(p, log@, end as int, max_per_unit);
                    assert(unit_views(units@).push(u@) + tail =~= unit_views(units@) + (seq![u@]
                        + tail));
                }
                units.push(u);
                start = end;
            }
            proof {
                assert(unit_views(units@) + Seq::<UnitView>::empty() =~= unit_views(units@));
            }
            p += 1;
        }
        units
    }
}

/// The records of some units, one after another.
pub open spec fn records_of(units: Seq<UnitView>) -> Seq<Record>
    decreases units.len(),
{
    if units.len() == 0 {
        Seq::empty()
    } else {
        units[0].records + records_of(units.skip(1))
    }
}

/// The units of a partition hold each record behind an offset once, in order,
/// and none holds more than it may.
pub proof fn units_hold_each_record_once(p: u32, log: Seq<Record>, start: int, max: u64)
    requires
        0 <= start <= log.len() <= u64::MAX,
    ensures
        records_of(units_from(p, log, start, max)) == log.skip(start),
        forall|i: int|
            0 <= i < units_from(p, log, start, max).len() ==> 0 < (#[trigger] units_from(
                p,
                log,
                start,
                max,
            )[i]).records.len() <= one_or_more(max) && units_from(p, log, start, max)[i].records
                == log.subrange(
                units_from(p, log, start, max)[i].start as int,
                units_from(p, log, start, max)[i].end as int,
            ),
    decreases log.len() - start,
{
    let all = units_from(p, log, start, max);
    if start < log.len() {
        let end = if log.len() - start <= one_or_more(max) {
            log.len() as int
        } else {
            start + one_or_more(max)
        };
        units_hold_each_record_once(p, log, end, max);
        let tail = units_from(p, log, end, max);
        assert(all.skip(1) =~= tail);
        assert(log.subrange(start, end) + log.skip(end) =~= log.skip(start));
        assert forall|i: int| 0 <= i < all.len() implies 0 < (#[trigger] all[i]).records.len()
            <= one_or_more(max) && all[i].records == log.subrange(
            all[i].start as int,
            all[i].end as int,
        ) by {
            if i > 0 {
                assert(all[i] == tail[i - 1]);
            }
        }
    } else {
        assert(log.skip(start) =~= Seq::empty());
    }
}

} // verus!
