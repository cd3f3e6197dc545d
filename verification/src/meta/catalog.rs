//! The catalog a node serves: a map from keys to values, the commits that
//! made it, and the node's standing.
use crate::meta::message::{pairs, pairs_push, Pair, PairView};
use crate::meta::raft::{EntryView, LogEntry as RaftLogEntry};
use crate::text::str_eq;
use vstd::prelude::*;

verus! {

// ---------------------------------------------------------------------------
// Maps as lists of pairs
// ---------------------------------------------------------------------------

/// The value under a key.
pub open spec fn kv_find(p: Seq<PairView>, k: Seq<char>) -> Option<Seq<char>>
    decreases p.len(),
{
    if p.len() == 0 {
        None
    } else if p[0].key == k {
        Some(p[0].val)
    } else {
        kv_find(p.skip(1), k)
    }
}

/// The map with a value put under a key.
pub open spec fn kv_put(p: Seq<PairView>, k: Seq<char>, v: Seq<char>) -> Seq<PairView>
    decreases p.len(),
{
    if p.len() == 0 {
        seq![PairView { key: k, val: v }]
    } else if p[0].key == k {
        p.update(0, PairView { key: k, val: v })
    } else {
        seq![p[0]] + kv_put(p.skip(1), k, v)
    }
}

/// Pairs put one after another into a map.
pub open spec fn kv_put_all(p: Seq<PairView>, more: Seq<PairView>) -> Seq<PairView>
    decreases more.len(),
{
    if more.len() == 0 {
        p
    } else {
        kv_put_all(kv_put(p, more[0].key, more[0].val), more.skip(1))
    }
}

/// Whether no key occurs twice.
pub open spec fn kv_distinct(p: Seq<PairView>) -> bool {
    forall|i: int, j: int| 0 <= i < j < p.len() ==> (#[trigger] p[i]).key != (#[trigger] p[j]).key
}

/// What was put under a key is found there, and other keys keep their values.
pub proof fn kv_read_your_write(p: Seq<PairView>, k: Seq<char>, v: Seq<char>, j: Seq<char>)
    ensures
        kv_find(kv_put(p, k, v), k) == Some(v),
        j != k ==> kv_find(kv_put(p, k, v), j) == kv_find(p, j),
    decreases p.len(),
{
    let q = kv_put(p, k, v);
    if p.len() == 0 {
        assert(q.skip(1) =~= p);
    } else if p[0].key == k {
        assert(q.skip(1) =~= p.skip(1));
    } else {
        kv_read_your_write(p.skip(1), k, v, j);
        assert(q.skip(1) =~= kv_put(p.skip(1), k, v));
    }
}

/// Where a key stands, if it does.
proof fn kv_put_at(p: Seq<PairView>, k: Seq<char>, v: Seq<char>, i: int)
    requires
        0 <= i <= p.len(),
        forall|j: int| 0 <= j < i ==> (#[trigger] p[j]).key != k,
        i < p.len() ==> p[i].key == k,
    ensures
        i < p.len() ==> kv_put(p, k, v) == p.update(i, PairView { key: k, val: v }),
        i == p.len() ==> kv_put(p, k, v) == p.push(PairView { key: k, val: v }),
        i < p.len() ==> kv_find(p, k) == Some(p[i].val),
        i == p.len() ==> kv_find(p, k) is None,
    decreases p.len(),
{
    if p.len() == 0 {
        assert(kv_put(p, k, v) =~= p.push(PairView { key: k, val: v }));
    } else if i > 0 {
        assert(p[0].key != k);
        assert forall|j: int| 0 <= j < i - 1 implies (#[trigger] p.skip(1)[j]).key != k by {
            assert(p.skip(1)[j] == p[j + 1]);
        }
        kv_put_at(p.skip(1), k, v, i - 1);
        if i < p.len() {
            assert(kv_put(p, k, v) =~= p.update(i, PairView { key: k, val: v }));
        } else {
            assert(kv_put(p, k, v) =~= p.push(PairView { key: k, val: v }));
        }
    }
}

/// Putting keeps keys distinct.
pub proof fn kv_put_distinct(p: Seq<PairView>, k: Seq<char>, v: Seq<char>)
    requires
        kv_distinct(p),
    ensures
        kv_distinct(kv_put(p, k, v)),
{
    if exists|i: int| 0 <= i < p.len() && (#[trigger] p[i]).key == k {
        let i = choose|i: int| 0 <= i < p.len() && (#[trigger] p[i]).key == k;
        kv_put_at(p, k, v, i);
    } else {
        kv_put_at(p, k, v, p.len() as int);
    }
}

/// Putting the pairs of a map with distinct keys into an empty one gives that
/// map.
pub proof fn kv_rebuild(p: Seq<PairView>, more: Seq<PairView>)
    requires
        kv_distinct(p + more),
    ensures
        kv_put_all(p, more) == p + more,
    decreases more.len(),
{
    let all = p + more;
    if more.len() == 0 {
        assert(all =~= p);
    } else {
        assert forall|j: int| 0 <= j < p.len() implies (#[trigger] p[j]).key != more[0].key by {
            assert(all[j].key != all[p.len() as int].key);
        }
        kv_put_at(p, more[0].key, more[0].val, p.len() as int);
        let q = p.push(more[0]);
        assert(kv_put(p, more[0].key, more[0].val) =~= q);
        assert(q + more.skip(1) =~= all);
        kv_rebuild(q, more.skip(1));
    }
}

/// Keys and values, each key once.
#[derive(Debug)]
pub struct KvMap {
    pub pairs: Vec<Pair>,
}

impl View for KvMap {
    type V = Seq<PairView>;

    open spec fn view(&self) -> Seq<PairView> {
        pairs(self.pairs@)
    }
}

impl KvMap {
    pub fn new() -> (m: KvMap)
        ensures
            m@ == Seq::<PairView>::empty(),
    {
        let m: KvMap = KvMap { pairs: Vec::new() };
        assert(m@ =~= Seq::<PairView>::empty());
        m
    }

    fn locate(&self, k: &str) -> (i: usize)
        ensures
            0 <= i <= self@.len(),
            forall|j: int| 0 <= j < i ==> (#[trigger] self@[j]).key != k@,
            i < self@.len() ==> self@[i as int].key == k@,
    {
        let mut i: usize = 0;
        while i < self.pairs.len()
            invariant
                i <= self.pairs@.len(),
                forall|j: int| 0 <= j < i ==> (#[trigger] self@[j]).key != k@,
            decreases self.pairs@.len() - i,
        {
            if str_eq(self.pairs[i].key.as_str(), k) {
                return i;
            }
            i += 1;
        }
        i
    }

    pub fn get(&self, k: &str) -> (r: Option<String>)
        ensures
            match kv_find(self@, k@) {
                None => r is None,
                Some(v) => r is Some && r->0@ == v,
            },
    {
        let i: usize = self.locate(k);
        proof {
            kv_put_at(self@, k@, Seq::empty(), i as int);
        }
        if i < self.pairs.len() {
            Some(self.pairs[i].val.clone())
        } else {
            None
        }
    }

    pub fn insert(&mut self, key: String, val: String)
        ensures
            final(self)@ == kv_put(old(self)@, key@, val@),
            kv_distinct(old(self)@) ==> kv_distinct(final(self)@),
    {
        let ghost before = self@;
        let i: usize = self.locate(key.as_str());
        proof {
            kv_put_at(before, key@, val@, i as int);
            if kv_distinct(before) {
                kv_put_distinct(before, key@, val@);
            }
        }
        let p: Pair = Pair { key, val };
        if i < self.pairs.len() {
            self.pairs.set(i, p);
            assert(self@ =~= before.update(i as int, p@));
        } else {
            proof {
                pairs_push(self.pairs@, p);
            }
            self.pairs.push(p);
        }
    }

    /// The map that a list of pairs makes; a later pair replaces an earlier
    /// one with its key.
    pub fn from_pairs(list: Vec<Pair>) -> (m: KvMap)
        ensures
            m@ == kv_put_all(Seq::empty(), pairs(list@)),
            kv_distinct(m@),
    {
        let ghost all = pairs(list@);
        let mut m: KvMap = KvMap::new();
        let mut k: usize = 0;
        assert(all.skip(0) =~= all);
        while k < list.len()
            invariant
                k <= list@.len(),
                all == pairs(list@),
                kv_distinct(m@),
                kv_put_all(m@, all.skip(k as int)) == kv_put_all(Seq::empty(), all),
            decreases list@.len() - k,
        {
            assert(all.skip(k as int)[0] == list@[k as int]@);
            assert(all.skip(k as int).skip(1) =~= all.skip(k + 1));
            m.insert(list[k].key.clone(), list[k].val.clone());
            k += 1;
        }
        m
    }

    pub fn copy_pairs(&self) -> (r: Vec<Pair>)
        ensures
            pairs(r@) == self@,
    {
        let mut out: Vec<Pair> = Vec::new();
        let mut k: usize = 0;
        assert(pairs(out@) =~= self@.take(0));
        while k < self.pairs.len()
            invariant
                k <= self.pairs@.len(),
                pairs(out@) == self@.take(k as int),
            decreases self.pairs@.len() - k,
        {
            let p: Pair = Pair {
                key: self.pairs[k].key.clone(),
                val: self.pairs[k].val.clone(),
            };
            proof {
                pairs_push(out@, p);
                assert(self@.take(k + 1) =~= self@.take(k as int).push(p@));
            }
            out.push(p);
            k += 1;
        }
        assert(self@.take(k as int) =~= self@);
        out
    }
}

// ---------------------------------------------------------------------------
// State of a node
// ---------------------------------------------------------------------------

/// A commit in the catalog's own log.
#[derive(Clone, Debug)]
pub struct LogEntry {
    pub epoch: u64,
    pub index: u64,
    pub key: String,
    pub val: String,
}

/// A commit is seen as the entry it came from, its epoch as the term.
impl View for LogEntry {
    type V = EntryView;

    open spec fn view(&self) -> EntryView {
        EntryView { term: self.epoch, index: self.index, key: self.key@, val: self.val@ }
    }
}

pub open spec fn commits(v: Seq<LogEntry>) -> Seq<EntryView> {
    Seq::new(v.len(), |i: int| v[i]@)
}

pub proof fn commits_push(v: Seq<LogEntry>, e: LogEntry)
    ensures
        commits(v.push(e)) == commits(v).push(e@),
{
    assert(commits(v.push(e)) =~= commits(v).push(e@));
}

/// The entries that commits came from.
pub fn as_entries(v: &Vec<LogEntry>) -> (r: Vec<RaftLogEntry>)
    ensures
        crate::meta::raft::entries(r@) == commits(v@),
{
    let mut out: Vec<RaftLogEntry> = Vec::new();
    let mut k: usize = 0;
    assert(crate::meta::raft::entries(out@) =~= commits(v@).take(0));
    while k < v.len()
        invariant
            k <= v@.len(),
            crate::meta::raft::entries(out@) == commits(v@).take(k as int),
        decreases v@.len() - k,
    {
        let e: RaftLogEntry = RaftLogEntry {
            term: v[k].epoch,
            index: v[k].index,
            key: v[k].key.clone(),
            val: v[k].val.clone(),
        };
        proof {
            crate::meta::raft::entries_push(out@, e);
            assert(commits(v@).take(k + 1) =~= commits(v@).take(k as int).push(e@));
        }
        out.push(e);
        k += 1;
    }
    assert(commits(v@).take(k as int) =~= commits(v@));
    out
}

/// Entries as commits.
pub fn as_commits(v: &Vec<RaftLogEntry>) -> (r: Vec<LogEntry>)
    ensures
        commits(r@) == crate::meta::raft::entries(v@),
{
    let ghost ev = crate::meta::raft::entries(v@);
    let mut out: Vec<LogEntry> = Vec::new();
    let mut k: usize = 0;
    assert(commits(out@) =~= ev.take(0));
    while k < v.len()
        invariant
            k <= v@.len(),
            ev == crate::meta::raft::entries(v@),
            commits(out@) == ev.take(k as int),
        decreases v@.len() - k,
    {
        let e: LogEntry = LogEntry {
            epoch: v[k].term,
            index: v[k].index,
            key: v[k].key.clone(),
            val: v[k].val.clone(),
        };
        proof {
            commits_push(out@, e);
            assert(ev.take(k + 1) =~= ev.take(k as int).push(e@));
        }
        out.push(e);
        k += 1;
    }
    assert(ev.take(k as int) =~= ev);
    out
}

pub struct NodeState {
    pub epoch: u64,
    pub is_leader: bool,
    pub map: KvMap,
    pub log: Vec<LogEntry>,
    pub alive: bool,
    /// A new node that waits for its snapshot and must not elect itself.
    pub awaiting_snapshot: bool,
}

#[verifier::ext_equal]
pub struct StateView {
    pub epoch: u64,
    pub is_leader: bool,
    pub map: Seq<PairView>,
    pub log: Seq<EntryView>,
    pub alive: bool,
    pub awaiting_snapshot: bool,
}

impl View for NodeState {
    type V = StateView;

    open spec fn view(&self) -> StateView {
        StateView {
            epoch: self.epoch,
            is_leader: self.is_leader,
            map: self.map@,
            log: commits(self.log@),
            alive: self.alive,
            awaiting_snapshot: self.awaiting_snapshot,
        }
    }
}

} // verus!
