//! The coordinator's side: the queue of morsels, who takes them, and what
//! their partial results make together.
use crate::cluster::{skipped, ClusteredTable};
use crate::kernel::{entries, lists, Acc, Block};
use crate::ramp::message::{write_query, wr_query, MSG_DONE, MSG_NEXT};
use crate::ramp::morsel::{
    exec_morsel, fits, has_columns, merged_over, merged_over_push, partial_merge_laws, partial_of, pruning_changes_nothing,
    schedule_changes_nothing, task_of, Partial, PartialView, Task,
};
use crate::ramp::resolve::{resolve_table_source, resolved, MAX_NESTING};
use crate::ramp::worker::{inline_message, morsel_message, picked_cols, wr_inline, wr_morsel};
use crate::sort::{below, goes_before, positions, sort_positions};
use crate::sql::{Query, QueryView};
use crate::text::join2;
use std::collections::HashMap;
use vstd::multiset::Multiset;
use vstd::prelude::*;

verus! {

broadcast use vstd::std_specs::hash::group_hash_axioms;

/// What all who work on a query share. The queue is taken from its end.
pub struct Shared {
    pub queue: Vec<usize>,
    pub result: Partial,
    pub morsels_total: usize,
    pub morsels_done: usize,
}

impl Shared {
    pub fn new(morsels: Vec<usize>) -> (s: Shared)
        ensures
            s.queue == morsels,
            s.result@ == PartialView::none(),
            s.morsels_total == morsels@.len(),
            s.morsels_done == 0,
    {
        let morsels_total: usize = morsels.len();
        Shared { queue: morsels, result: Partial::default(), morsels_total, morsels_done: 0 }
    }

    /// Takes a morsel.
    pub fn pop(&mut self) -> (m: Option<usize>)
        ensures
            final(self).result == old(self).result,
            final(self).morsels_total == old(self).morsels_total,
            final(self).morsels_done == old(self).morsels_done,
            match m {
                Some(m) => {
                    &&& old(self).queue@.len() > 0
                    &&& m == old(self).queue@.last()
                    &&& final(self).queue@ == old(self).queue@.drop_last()
                },
                None => old(self).queue@.len() == 0 && final(self).queue@ == old(self).queue@,
            },
    {
        self.queue.pop()
    }

    /// Merges the partial result of some morsels.
    pub fn finish(&mut self, p: Partial, n: usize)
        requires
            old(self).morsels_done + n <= usize::MAX,
        ensures
            final(self).queue == old(self).queue,
            final(self).morsels_total == old(self).morsels_total,
            final(self).result@ == old(self).result@.merged(p@),
            final(self).morsels_done == old(self).morsels_done + n,
    {
        self.result.merge(p);
        self.morsels_done = self.morsels_done + n;
    }

    /// Puts a morsel back whose worker was lost.
    pub fn put_back(&mut self, m: usize)
        ensures
            final(self).result == old(self).result,
            final(self).morsels_total == old(self).morsels_total,
            final(self).morsels_done == old(self).morsels_done,
            final(self).queue@ == old(self).queue@.push(m),
    {
        self.queue.push(m);
    }

    /// Whether every morsel's partial result has come in.
    pub fn complete(&self) -> (r: bool)
        ensures
            r == (self.morsels_done >= self.morsels_total),
    {
        self.morsels_done >= self.morsels_total
    }
}

// ---------------------------------------------------------------------------
// Starting
// ---------------------------------------------------------------------------

/// A query under way.
pub struct Ramp {
    pub query: Query,
    pub shared: Shared,
    pub pruned: usize,
}

/// Why a query cannot run.
#[derive(Debug)]
pub enum RampError {
    /// Its source does not resolve.
    Resolve(String),
    /// A block lacks a column it asks for.
    NoColumn,
}

/// Whether every block has the column of a filter.
pub open spec fn filter_known(blocks: Seq<Block>, filter: Option<(usize, crate::kernel::CmpOp, i64)>) -> bool {
    filter matches Some((col, op, lit)) ==> forall|b: int|
        0 <= b < blocks.len() ==> col < (#[trigger] blocks[b]).columns@.len()
}

/// The morsels of a query: the blocks whose zone maps do not rule them out.
pub open spec fn morsels_of(blocks: Seq<Block>, filter: Option<(usize, crate::kernel::CmpOp, i64)>) -> Seq<
    usize,
> {
    positions(blocks.len()).filter(|b: usize| !skipped(blocks, filter, b))
}

/// Whether each of some morsels has the columns of a task.
pub open spec fn all_fit(blocks: Seq<Block>, t: Task, ms: Seq<usize>) -> bool {
    forall|i: int|
        0 <= i < ms.len() ==> (#[trigger] ms[i]) < blocks.len() && has_columns(
            blocks[ms[i] as int],
            t,
        )
}

pub open spec fn runnable(blocks: Seq<Block>, q: QueryView) -> bool {
    filter_known(blocks, q.filter) && all_fit(blocks, task_of(q), morsels_of(blocks, q.filter))
}

fn check_filter(t: &ClusteredTable, q: &Query) -> (r: bool)
    ensures
        r == filter_known(t.blocks@, q.filter),
{
    if let Some((col, op, lit)) = q.filter {
        let mut b: usize = 0;
        while b < t.blocks.len()
            invariant
                q.filter == Some((col, op, lit)),
                b <= t.blocks@.len(),
                forall|k: int| 0 <= k < b ==> col < (#[trigger] t.blocks@[k]).columns@.len(),
            decreases t.blocks@.len() - b,
        {
            if col >= t.blocks[b].columns.len() {
                assert(!(col < t.blocks@[b as int].columns@.len()));
                return false;
            }
            b += 1;
        }
    }
    true
}

fn check_fit(t: &ClusteredTable, q: &Query, ms: &Vec<usize>) -> (r: bool)
    requires
        forall|i: int| 0 <= i < ms@.len() ==> (#[trigger] ms@[i]) < t.blocks@.len(),
    ensures
        r == all_fit(t.blocks@, task_of(q.model()), ms@),
{
    let mut i: usize = 0;
    while i < ms.len()
        invariant
            i <= ms@.len(),
            forall|i: int| 0 <= i < ms@.len() ==> (#[trigger] ms@[i]) < t.blocks@.len(),
            forall|k: int|
                0 <= k < i ==> has_columns(
                    t.blocks@[(#[trigger] ms@[k]) as int],
                    task_of(q.model()),
                ),
        decreases ms@.len() - i,
    {
        assert(ms@[i as int] < t.blocks@.len());
        if !fits(&t.blocks[ms[i]], q) {
            return false;
        }
        i += 1;
    }
    true
}

proof fn filter_within(s: Seq<usize>, f: spec_fn(usize) -> bool, n: int)
    requires
        below(s, n),
    ensures
        below(s.filter(f), n),
        s.filter(f).len() <= s.len(),
    decreases s.len(),
{
    reveal(Seq::filter);
    if s.len() > 0 {
        let d = s.drop_last();
        assert(below(d, n)) by {
            assert forall|i: int| 0 <= i < d.len() implies (#[trigger] d[i]) < n by {
                assert(s[i] < n);
            }
        }
        filter_within(d, f, n);
        let g = s.filter(f);
        assert forall|i: int| 0 <= i < g.len() implies (#[trigger] g[i]) < n by {
            if i < d.filter(f).len() {
                assert(g[i] == d.filter(f)[i]);
            } else {
                assert(g[i] == s[s.len() - 1]);
            }
        }
    }
}

/// Starts a query: resolves its source and leaves out the blocks that its zone
/// maps rule out.
pub fn start(table: &ClusteredTable, q: Query) -> (r: Result<Ramp, RampError>)
    requires
        table.wf(),
    ensures
        match (r, resolved(q.model(), MAX_NESTING as nat)) {
            (Err(RampError::Resolve(e)), Err(m)) => e@ == m,
            (Err(RampError::NoColumn), Ok(v)) => !runnable(table.blocks@, v),
            (Ok(ramp), Ok(v)) => {
                &&& runnable(table.blocks@, v)
                &&& ramp.query.model() == v
                &&& ramp.shared.queue@ == morsels_of(table.blocks@, v.filter)
                &&& ramp.shared.result@ == PartialView::none()
                &&& ramp.shared.morsels_total == ramp.shared.queue@.len()
                &&& ramp.shared.morsels_done == 0
                &&& ramp.pruned == table.blocks@.len() - ramp.shared.queue@.len()
            },
            _ => false,
        },
{
    let q: Query = match resolve_table_source(q) {
        Ok(q) => q,
        Err(e) => return Err(RampError::Resolve(e)),
    };
    if !check_filter(table, &q) {
        return Err(RampError::NoColumn);
    }
    let all: usize = table.blocks.len();
    let morsels: Vec<usize> = table.pruned_morsels(q.filter);
    proof {
        let f = |b: usize| !skipped(table.blocks@, q.filter, b);
        filter_within(positions(table.blocks@.len()), f, all as int);
        assert(below(morsels@, all as int));
    }
    if !check_fit(table, &q, &morsels) {
        return Err(RampError::NoColumn);
    }
    let pruned: usize = all - morsels.len();
    Ok(Ramp { query: q, shared: Shared::new(morsels), pruned })
}

// ---------------------------------------------------------------------------
// Working
// ---------------------------------------------------------------------------

/// A task on the coordinator: takes morsels until none is left, then hands in
/// what they came to. Returns how many it took.
pub fn work(shared: &mut Shared, table: &ClusteredTable, q: &Query) -> (n: usize)
    requires
        all_fit(table.blocks@, task_of(q.model()), old(shared).queue@),
        old(shared).morsels_done + old(shared).queue@.len() <= usize::MAX,
    ensures
        n == old(shared).queue@.len(),
        final(shared).queue@ == Seq::<usize>::empty(),
        final(shared).morsels_total == old(shared).morsels_total,
        final(shared).morsels_done == old(shared).morsels_done + n,
        final(shared).result@ == old(shared).result@.merged(
            merged_over(table.blocks@, task_of(q.model()), old(shared).queue@),
        ),
{
    let ghost t = task_of(q.model());
    let ghost all = shared.queue@;
    let ghost mut took = Seq::<usize>::empty();
    let mut local: Partial = Partial::default();
    let mut n: usize = 0;
    proof {
        assert(all.reverse().take(0) =~= took);
        assert(merged_over(table.blocks@, t, took) == PartialView::none()) by {
            reveal_with_fuel(Seq::fold_left, 1);
        }
    }
    loop
        invariant_except_break
            n + shared.queue@.len() == all.len(),
        invariant
            t == task_of(q.model()),
            all == old(shared).queue@,
            all_fit(table.blocks@, t, all),
            all.len() <= usize::MAX,
            n <= all.len(),
            shared.queue@ == all.take(all.len() - n),
            took == all.reverse().take(n as int),
            local@ == merged_over(table.blocks@, t, took),
            shared.result == old(shared).result,
            shared.morsels_total == old(shared).morsels_total,
            shared.morsels_done == old(shared).morsels_done,
        ensures
            n == all.len(),
            shared.queue@.len() == 0,
        decreases shared.queue@.len(),
    {
        match shared.pop() {
            None => break,
            Some(m) => {
                proof {
                    assert(m == all[all.len() - n - 1]);
                    assert(has_columns(table.blocks@[m as int], t));
                    assert(all.reverse().take(n + 1) =~= took.push(m));
                    merged_over_push(table.blocks@, t, took, m);
                    took = took.push(m);
                }
                local.merge(exec_morsel(&table.blocks[m], q));
                n = n + 1;
                assert(shared.queue@ =~= all.take(all.len() - n));
            },
        }
    }
    proof {
        assert(took =~= all.reverse());
        all.lemma_reverse_to_multiset();
        schedule_changes_nothing(table.blocks@, t, took, all);
    }
    shared.finish(local, n);
    n
}

/// The result of a query and how it came about.
pub struct RampReport {
    pub result: Partial,
    /// Why nothing was run, where the query's source does not resolve.
    pub note: Option<String>,
    pub morsels_executed: usize,
    pub morsels_pruned: usize,
}

/// The report on a query that does not resolve: an empty result, and why.
pub open spec fn is_unresolved(r: RampReport, why: Seq<char>) -> bool {
    &&& r.result@ == PartialView::none()
    &&& r.note matches Some(t) && t@ == "query resolve failed: "@ + why
    &&& r.morsels_executed == 0
    &&& r.morsels_pruned == 0
}

/// Reports on a query that does not resolve.
pub fn unresolved(why: String) -> (r: RampReport)
    ensures
        is_unresolved(r, why@),
{
    let note: String = join2("query resolve failed: ", why.as_str());
    RampReport {
        result: Partial::default(),
        note: Some(note),
        morsels_executed: 0,
        morsels_pruned: 0,
    }
}

/// The places below a bound, whatever the pruning of blocks may leave of them.
pub open spec fn all_of(blocks: Seq<Block>) -> Seq<usize> {
    positions(blocks.len())
}

/// Runs a query on one task, with no worker. One whose source does not resolve
/// gives an empty result.
pub fn run_alone(table: &ClusteredTable, q: Query) -> (r: Result<RampReport, RampError>)
    requires
        table.wf(),
    ensures
        match (r, resolved(q.model(), MAX_NESTING as nat)) {
            (Ok(rep), Err(m)) => is_unresolved(rep, m),
            (Err(RampError::NoColumn), Ok(v)) => !runnable(table.blocks@, v),
            (Ok(rep), Ok(v)) => {
                let whole = merged_over(table.blocks@, task_of(v), all_of(table.blocks@));
                &&& runnable(table.blocks@, v)
                &&& rep.note is None
                &&& rep.result.scalar == whole.scalar
                &&& limited(rep.result.groups@, whole.groups, v.order_by, v.limit)
                &&& rep.morsels_executed == morsels_of(table.blocks@, v.filter).len()
                &&& rep.morsels_pruned == table.blocks@.len() - rep.morsels_executed
            },
            _ => false,
        },
{
    let mut ramp: Ramp = match start(table, q) {
        Ok(r) => r,
        Err(RampError::Resolve(e)) => return Ok(unresolved(e)),
        Err(RampError::NoColumn) => return Err(RampError::NoColumn),
    };
    let ghost t = task_of(ramp.query.model());
    proof {
        let p = positions(table.blocks@.len());
        assert forall|i: int| 0 <= i < p.len() implies (#[trigger] p[i]) < table.blocks@.len() by {}
        pruning_changes_nothing(table.blocks@, t, p);
        partial_merge_laws(
            PartialView::none(),
            merged_over(table.blocks@, t, ramp.shared.queue@),
            PartialView::none(),
        );
    }
    let executed: usize = work(&mut ramp.shared, table, &ramp.query);
    let mut result: Partial = Partial::default();
    std::mem::swap(&mut result, &mut ramp.shared.result);
    proof {
        partial_merge_laws(
            merged_over(table.blocks@, t, all_of(table.blocks@)),
            PartialView::none(),
            PartialView::none(),
        );
    }
    apply_order_limit(&mut result, ramp.query.order_by, ramp.query.limit);
    Ok(
        RampReport {
            result,
            note: None,
            morsels_executed: executed,
            morsels_pruned: ramp.pruned,
        },
    )
}

// ---------------------------------------------------------------------------
// Serving workers
// ---------------------------------------------------------------------------

/// The columns a task reads, each once.
pub open spec fn needed_of(t: Task) -> Seq<usize> {
    let a = seq![t.agg_col];
    let b = match t.filter {
        Some((c, op, lit)) if !a.contains(c) => a.push(c),
        _ => a,
    };
    match t.group_by {
        Some(c) if !b.contains(c) => b.push(c),
        _ => b,
    }
}

fn push_new(v: &mut Vec<usize>, c: usize)
    ensures
        final(v)@ == if old(v)@.contains(c) {
            old(v)@
        } else {
            old(v)@.push(c)
        },
{
    let mut i: usize = 0;
    while i < v.len()
        invariant
            i <= v@.len(),
            v@ == old(v)@,
            forall|k: int| 0 <= k < i ==> v@[k] != c,
        decreases v@.len() - i,
    {
        if v[i] == c {
            return ;
        }
        i += 1;
    }
    v.push(c);
}

/// The columns a query reads, each once.
pub fn needed_columns(q: &Query) -> (v: Vec<usize>)
    ensures
        v@ == needed_of(task_of(q.model())),
{
    let mut v: Vec<usize> = Vec::new();
    v.push(q.agg_col);
    assert(v@ =~= seq![q.agg_col]);
    if let Some((c, _op, _lit)) = q.filter {
        push_new(&mut v, c);
    }
    if let Some(c) = q.group_by {
        push_new(&mut v, c);
    }
    v
}

/// Whether a block has each of some columns.
pub open spec fn has_all(b: Block, needed: Seq<usize>) -> bool {
    forall|c: int| 0 <= c < needed.len() ==> (#[trigger] needed[c]) < b.columns@.len()
}

/// Whether each of some morsels is there, with each of some columns.
pub open spec fn sendable(blocks: Seq<Block>, ms: Seq<usize>, needed: Seq<usize>) -> bool {
    forall|i: int|
        0 <= i < ms.len() ==> (#[trigger] ms[i]) < blocks.len() && has_all(
            blocks[ms[i] as int],
            needed,
        )
}

/// The morsels that are left to take fit what is sent of them.
pub proof fn fitting_is_sendable(blocks: Seq<Block>, t: Task, ms: Seq<usize>)
    requires
        all_fit(blocks, t, ms),
    ensures
        sendable(blocks, ms, needed_of(t)),
{
    assert forall|i: int| 0 <= i < ms.len() implies (#[trigger] ms[i]) < blocks.len() && has_all(
        blocks[ms[i] as int],
        needed_of(t),
    ) by {
        assert(has_columns(blocks[ms[i] as int], t));
    }
}

/// One worker's connection: the columns it may need, whether they are sent
/// along, and the morsel it is at.
pub struct Session {
    pub needed: Vec<usize>,
    pub ship_data: bool,
    pub at: Option<usize>,
}

/// What is answered to a worker.
pub enum Served {
    Send(Vec<u8>),
    /// The last message.
    Last(Vec<u8>),
    Close,
}

impl Session {
    /// A connection, and the greeting that opens it.
    pub fn open(q: &Query, ship_data: bool) -> (r: (Session, Vec<u8>))
        ensures
            r.0.needed@ == needed_of(task_of(q.model())),
            r.0.ship_data == ship_data,
            r.0.at is None,
            r.1@ == wr_query(q.model()),
    {
        let mut hello: Vec<u8> = Vec::new();
        write_query(&mut hello, q);
        assert(hello@ =~= wr_query(q.model()));
        (Session { needed: needed_columns(q), ship_data, at: None }, hello)
    }

    /// Answers a worker that has nothing to do: with the next morsel, or with
    /// the end of the work. Anything but the request for more closes the
    /// connection.
    pub fn request(&mut self, shared: &mut Shared, table: &ClusteredTable, b: u8) -> (r: Served)
        requires
            sendable(table.blocks@, old(shared).queue@, old(self).needed@),
        ensures
            final(self).needed == old(self).needed,
            final(self).ship_data == old(self).ship_data,
            final(shared).result == old(shared).result,
            final(shared).morsels_total == old(shared).morsels_total,
            final(shared).morsels_done == old(shared).morsels_done,
            if b != MSG_NEXT {
                r is Close && final(shared).queue@ == old(shared).queue@ && final(self).at == old(
                    self,
                ).at
            } else if old(shared).queue@.len() == 0 {
                (r matches Served::Last(m) && m@ == seq![MSG_DONE]) && final(shared).queue@ == old(
                    shared,
                ).queue@ && final(self).at == old(self).at
            } else {
                let m = old(shared).queue@.last();
                &&& final(shared).queue@ == old(shared).queue@.drop_last()
                &&& final(self).at == Some(m)
                &&& r matches Served::Send(out) && out@ == if old(self).ship_data {
                    wr_inline(picked_cols(table.blocks@[m as int], old(self).needed@))
                } else {
                    wr_morsel(m as nat)
                }
            },
    {
        if b != MSG_NEXT {
            return Served::Close;
        }
        match shared.pop() {
            None => {
                let mut out: Vec<u8> = Vec::new();
                out.push(MSG_DONE);
                assert(out@ =~= seq![MSG_DONE]);
                Served::Last(out)
            },
            Some(m) => {
                self.at = Some(m);
                if self.ship_data {
                    proof {
                        let n = old(shared).queue@.len();
                        assert(old(shared).queue@[n - 1] == m);
                        assert(has_all(table.blocks@[m as int], self.needed@));
                    }
                    Served::Send(inline_message(&table.blocks[m], &self.needed))
                } else {
                    Served::Send(morsel_message(m))
                }
            },
        }
    }

    /// Takes the partial result of the morsel a worker was at. If the worker
    /// is lost the morsel goes back to the queue. Returns whether the
    /// connection goes on.
    pub fn settle(&mut self, shared: &mut Shared, p: Option<Partial>) -> (r: bool)
        requires
            old(shared).morsels_done < usize::MAX,
        ensures
            final(self).needed == old(self).needed,
            final(self).ship_data == old(self).ship_data,
            final(self).at is None,
            final(shared).morsels_total == old(shared).morsels_total,
            match (old(self).at, p) {
                (Some(m), Some(p)) => {
                    &&& r
                    &&& final(shared).queue@ == old(shared).queue@
                    &&& final(shared).result@ == old(shared).result@.merged(p@)
                    &&& final(shared).morsels_done == old(shared).morsels_done + 1
                },
                (Some(m), None) => {
                    &&& !r
                    &&& final(shared).queue@ == old(shared).queue@.push(m)
                    &&& final(shared).result == old(shared).result
                    &&& final(shared).morsels_done == old(shared).morsels_done
                },
                (None, _) => !r && *final(shared) == *old(shared),
            },
    {
        let at: Option<usize> = self.at;
        self.at = None;
        match at {
            Some(m) => match p {
                Some(p) => {
                    shared.finish(p, 1);
                    true
                },
                None => {
                    shared.put_back(m);
                    false
                },
            },
            None => false,
        }
    }
}

// ---------------------------------------------------------------------------
// Laws
// ---------------------------------------------------------------------------

proof fn merged_over_concat(blocks: Seq<Block>, t: Task, a: Seq<usize>, b: Seq<usize>)
    ensures
        merged_over(blocks, t, a + b) == merged_over(blocks, t, a).merged(
            merged_over(blocks, t, b),
        ),
    decreases b.len(),
{
    if b.len() == 0 {
        assert(a + b =~= a);
        reveal_with_fuel(Seq::fold_left, 1);
        partial_merge_laws(merged_over(blocks, t, a), PartialView::none(), PartialView::none());
    } else {
        let d = b.drop_last();
        let m = b.last();
        merged_over_concat(blocks, t, a, d);
        assert(a + b =~= (a + d).push(m));
        assert(d.push(m) =~= b);
        merged_over_push(blocks, t, a + d, m);
        merged_over_push(blocks, t, d, m);
        partial_merge_laws(
            merged_over(blocks, t, a),
            merged_over(blocks, t, d),
            partial_of(blocks[m as int], t),
        );
    }
}

/// The morsels of a query as they move: those in the queue, those somebody is
/// at, and those whose partial results have been merged.
#[verifier::ext_equal]
pub struct Flow {
    pub queue: Seq<usize>,
    pub out: Multiset<usize>,
    pub merged: Seq<usize>,
    pub result: PartialView,
}

/// One step: somebody takes a morsel, hands in the partial result of some it
/// took, or is lost with one.
pub open spec fn flows(blocks: Seq<Block>, t: Task, a: Flow, b: Flow) -> bool {
    ||| a.queue.len() > 0 && b == (Flow {
        queue: a.queue.drop_last(),
        out: a.out.insert(a.queue.last()),
        ..a
    })
    ||| exists|ms: Seq<usize>|
        #![trigger merged_over(blocks, t, ms)]
        ms.to_multiset().subset_of(a.out) && b == (Flow {
            out: a.out.sub(ms.to_multiset()),
            merged: a.merged + ms,
            result: a.result.merged(merged_over(blocks, t, ms)),
            ..a
        })
    ||| exists|m: usize|
        #[trigger] a.out.contains(m) && b == (Flow {
            queue: a.queue.push(m),
            out: a.out.remove(m),
            ..a
        })
}

/// Whether all morsels are accounted for, and the result is that of the merged
/// ones.
pub open spec fn accounted(blocks: Seq<Block>, t: Task, all: Seq<usize>, f: Flow) -> bool {
    &&& f.queue.to_multiset().add(f.out).add(f.merged.to_multiset()) == all.to_multiset()
    &&& f.result == merged_over(blocks, t, f.merged)
}

/// No morsel is lost or counted twice, whoever takes it, joins late or dies.
pub proof fn no_morsel_is_lost(blocks: Seq<Block>, t: Task, all: Seq<usize>, a: Flow, b: Flow)
    requires
        accounted(blocks, t, all, a),
        flows(blocks, t, a, b),
    ensures
        accounted(blocks, t, all, b),
{
    a.queue.to_multiset_ensures();
    b.queue.to_multiset_ensures();
    if a.queue.len() > 0 && b == (Flow {
        queue: a.queue.drop_last(),
        out: a.out.insert(a.queue.last()),
        ..a
    }) {
        assert(b.queue.push(a.queue.last()) =~= a.queue);
        assert(a.queue.to_multiset() =~= b.queue.to_multiset().insert(a.queue.last()));
        assert(b.queue.to_multiset().add(b.out) =~= a.queue.to_multiset().add(a.out));
    } else if exists|ms: Seq<usize>|
        #![trigger merged_over(blocks, t, ms)]
        ms.to_multiset().subset_of(a.out) && b == (Flow {
            out: a.out.sub(ms.to_multiset()),
            merged: a.merged + ms,
            result: a.result.merged(merged_over(blocks, t, ms)),
            ..a
        }) {
        let ms = choose|ms: Seq<usize>|
            #![trigger merged_over(blocks, t, ms)]
            ms.to_multiset().subset_of(a.out) && b == (Flow {
                out: a.out.sub(ms.to_multiset()),
                merged: a.merged + ms,
                result: a.result.merged(merged_over(blocks, t, ms)),
                ..a
            });
        merged_over_concat(blocks, t, a.merged, ms);
        vstd::seq_lib::lemma_multiset_commutative(a.merged, ms);
        assert(b.queue.to_multiset().add(b.out).add(b.merged.to_multiset())
            =~= a.queue.to_multiset().add(a.out).add(a.merged.to_multiset()));
    } else {
        let m = choose|m: usize|
            #[trigger] a.out.contains(m) && b == (Flow {
                queue: a.queue.push(m),
                out: a.out.remove(m),
                ..a
            });
        assert(b.queue.to_multiset() =~= a.queue.to_multiset().insert(m));
        assert(b.queue.to_multiset().add(b.out) =~= a.queue.to_multiset().add(a.out));
    }
}

/// When the queue is empty and nobody is at a morsel, the result is that of a
/// single task that ran over all morsels.
pub proof fn finished_result_is_exact(blocks: Seq<Block>, t: Task, all: Seq<usize>, f: Flow)
    requires
        accounted(blocks, t, all, f),
        f.queue.len() == 0,
        f.out.len() == 0,
    ensures
        f.result == merged_over(blocks, t, all),
{
    f.queue.to_multiset_ensures();
    assert(f.queue.to_multiset() =~= Multiset::empty());
    assert(f.out =~= Multiset::empty());
    assert(f.merged.to_multiset() =~= all.to_multiset());
    schedule_changes_nothing(blocks, t, f.merged, all);
}

// ---------------------------------------------------------------------------
// Finishing
// ---------------------------------------------------------------------------

/// Whether a key comes before another in an order.
pub open spec fn before(asc: bool, a: i64, b: i64) -> bool {
    if asc {
        a < b
    } else {
        a > b
    }
}

/// Whether `kept` is what an order and a limit leave of some groups: as many
/// as the limit allows, and where an order is given, none that comes after one
/// that is left out. Without an order any may be kept.
pub open spec fn limited(
    kept: Map<i64, Acc>,
    all: Map<i64, Acc>,
    order_by: Option<(usize, bool)>,
    limit: Option<usize>,
) -> bool {
    match limit {
        None => kept == all,
        Some(n) => {
            &&& kept.submap_of(all)
            &&& kept.len() == if all.len() < n {
                all.len()
            } else {
                n as nat
            }
            &&& order_by matches Some((c, asc)) ==> forall|a: i64, b: i64|
                #![trigger kept.contains_key(a), all.contains_key(b)]
                kept.contains_key(a) && all.contains_key(b) && !kept.contains_key(b) ==> before(
                    asc,
                    a,
                    b,
                )
        },
    }
}

pub open spec fn by_key(l: Seq<(i64, Acc)>, asc: bool) -> spec_fn(int, int) -> bool {
    |a: int, b: int| before(asc, l[a].0, l[b].0)
}

/// The places of some entries, in order of their keys if an order is given.
fn ordered(l: &Vec<(i64, Acc)>, order_by: Option<(usize, bool)>) -> (at: Vec<usize>)
    requires
        forall|i: int, j: int| 0 <= i < j < l@.len() ==> (#[trigger] l@[i]).0 != (#[trigger] l@[j]).0,
    ensures
        at@.len() == l@.len(),
        below(at@, l@.len() as int),
        forall|i: int, j: int| 0 <= i < j < at@.len() ==> at@[i] != at@[j],
        order_by matches Some((c, asc)) ==> forall|i: int, j: int|
            0 <= i < j < at@.len() ==> before(
                asc,
                l@[(#[trigger] at@[i]) as int].0,
                l@[(#[trigger] at@[j]) as int].0,
            ),
{
    let n: usize = l.len();
    match order_by {
        Some((_c, asc)) => {
            let lt = |a: usize, b: usize| -> (r: bool)
                requires
                    a < l@.len(),
                    b < l@.len(),
                ensures
                    a < l@.len() && b < l@.len() ==> r == before(
                        asc,
                        l@[a as int].0,
                        l@[b as int].0,
                    ),
                { if asc { l[a].0 < l[b].0 } else { l[a].0 > l[b].0 } };
            let at: Vec<usize> = sort_positions(n, &lt, Ghost(by_key(l@, asc)));
            proof {
                assert forall|i: int, j: int| 0 <= i < j < at@.len() implies at@[i] != at@[j]
                    && before(
                    asc,
                    l@[(#[trigger] at@[i]) as int].0,
                    l@[(#[trigger] at@[j]) as int].0,
                ) by {
                    assert(goes_before(by_key(l@, asc), at@[i] as int, at@[j] as int));
                    if l@[at@[i] as int].0 == l@[at@[j] as int].0 {
                        let x = at@[i] as int;
                        let y = at@[j] as int;
                        assert(x != y);
                        assert(l@[x].0 != l@[y].0);
                    }
                }
            }
            at
        },
        None => {
            let mut at: Vec<usize> = Vec::new();
            let mut i: usize = 0;
            while i < n
                invariant
                    i <= n,
                    at@.len() == i,
                    forall|k: int| 0 <= k < i ==> at@[k] == k,
                decreases n - i,
            {
                at.push(i);
                i += 1;
            }
            at
        },
    }
}

/// Orders the groups of a result by their keys and keeps as many as a limit
/// allows.
pub fn apply_order_limit(result: &mut Partial, order_by: Option<(usize, bool)>, limit: Option<usize>)
    ensures
        final(result).scalar == old(result).scalar,
        limited(final(result).groups@, old(result).groups@, order_by, limit),
{
    let n: usize = match limit {
        Some(n) => n,
        None => return ,
    };
    let ghost all = result.groups@;
    let l: Vec<(i64, Acc)> = entries(&result.groups);
    let at: Vec<usize> = ordered(&l, order_by);
    let count: usize = if l.len() < n { l.len() } else { n };
    let mut kept: HashMap<i64, Acc> = HashMap::new();
    let mut i: usize = 0;
    while i < count
        invariant
            i <= count <= l@.len(),
            lists(l@, all),
            at@.len() == l@.len(),
            below(at@, l@.len() as int),
            forall|i: int, j: int| 0 <= i < j < at@.len() ==> at@[i] != at@[j],
            kept@.submap_of(all),
            kept@.len() == i,
            kept@.dom().finite(),
            forall|k: i64|
                #[trigger] kept@.contains_key(k) <==> exists|j: int|
                    0 <= j < i && l@[(#[trigger] at@[j]) as int].0 == k,
        decreases count - i,
    {
        let ghost m = kept@;
        assert(at@[i as int] < l@.len());
        let (k, a): (i64, Acc) = l[at[i]];
        proof {
            assert(l@[at@[i as int] as int] == (k, a));
            if m.contains_key(k) {
                let j = choose|j: int| 0 <= j < i && l@[(#[trigger] at@[j]) as int].0 == k;
                let x = at@[j] as int;
                let y = at@[i as int] as int;
                assert(x != y);
                assert(l@[x].0 == l@[y].0);
                if x < y {
                    assert(l@[x].0 != l@[y].0);
                } else {
                    assert(l@[y].0 != l@[x].0);
                }
            }
        }
        kept.insert(k, a);
        proof {
            assert(kept@.len() == m.len() + 1);
            assert forall|q: i64|
                #[trigger] kept@.contains_key(q) <==> exists|j: int|
                    0 <= j < i + 1 && l@[(#[trigger] at@[j]) as int].0 == q by {
                assert(m.contains_key(q) <==> exists|j: int|
                    0 <= j < i && l@[(#[trigger] at@[j]) as int].0 == q);
                assert(l@[at@[i as int] as int].0 == k);
            }
        }
        i += 1;
    }
    proof {
        if let Some((c, asc)) = order_by {
            assert forall|a: i64, b: i64|
                #![trigger kept@.contains_key(a), all.contains_key(b)]
                kept@.contains_key(a) && all.contains_key(b) && !kept@.contains_key(b) implies before(
                asc,
                a,
                b,
            ) by {
                let ja = choose|j: int| 0 <= j < count && l@[(#[trigger] at@[j]) as int].0 == a;
                let y = choose|y: int| 0 <= y < l@.len() && (#[trigger] l@[y]).0 == b;
                places_hold_all(at@, l@.len(), y);
                let jb = choose|j: int| 0 <= j < at@.len() && #[trigger] at@[j] == y;
                if jb < count {
                    assert(kept@.contains_key(b));
                }
                assert(at@[ja] < l@.len());
            }
        }
    }
    result.groups = kept;
}

/// As many different places below a bound as the bound allows are all of them.
proof fn places_hold_all(at: Seq<usize>, n: nat, y: int)
    requires
        at.len() == n,
        below(at, n as int),
        forall|i: int, j: int| 0 <= i < j < at.len() ==> at[i] != at[j],
        0 <= y < n,
    ensures
        exists|j: int| 0 <= j < at.len() && #[trigger] at[j] == y,
{
    let s = at.map_values(|x: usize| x as int);
    let r = vstd::set_lib::set_int_range(0, n as int);
    assert forall|i: int, j: int| 0 <= i < s.len() && 0 <= j < s.len() && i != j implies s[i]
        != s[j] by {
        if i < j {
            assert(at[i] != at[j]);
        } else {
            assert(at[j] != at[i]);
        }
    }
    assert(s.no_duplicates());
    s.unique_seq_to_set();
    vstd::set_lib::lemma_int_range(0, n as int);
    assert(s.to_set().subset_of(r)) by {
        assert forall|x: int| s.to_set().contains(x) implies r.contains(x) by {
            let i = choose|i: int| 0 <= i < s.len() && s[i] == x;
            assert(at[i] < n);
        }
    }
    vstd::set_lib::lemma_subset_equality(s.to_set(), r);
    assert(s.to_set().contains(y));
    let j = choose|j: int| 0 <= j < s.len() && s[j] == y;
    assert(at[j] == y);
}

} // verus!
