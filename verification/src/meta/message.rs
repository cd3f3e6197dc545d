//! Requests and replies on the wire.
use crate::meta::raft::{
    entries, entries_push, AppendEntries, AppendEntriesResponse, AppendView, EntryView, LogEntry,
    RaftNode, RequestVote, VoteView,
};
use crate::partial::{
    goes_on, goes_on_step, gets, more_str, more_u32, more_u64, more_u8, st_list, st_str,
    st_str_read_back, st_u32, st_u64, st_u8, steps_read_back, text, Got, Step,
};
use crate::text::{strs, strs_push};
use crate::wire::{
    from_le, le, put_len32, put_str, put_u64, regroup, u32_read_back, u64_at, u64_read_back,
    wr_list, wr_list_push, wr_str,
};
use vstd::prelude::*;
use vstd::utf8::encode_utf8;

verus! {

pub const OP_GET: u8 = 1;

pub const OP_PUT: u8 = 2;

pub const OP_REPL: u8 = 3;

pub const OP_PROMOTE: u8 = 4;

pub const OP_STATUS: u8 = 5;

pub const OP_ADD_PEER: u8 = 6;

pub const OP_REMOVE_PEER: u8 = 7;

pub const OP_SNAPSHOT: u8 = 8;

pub const OP_VOTE: u8 = 0xA1;

pub const OP_APPEND: u8 = 0xA2;

/// A key and its value.
#[derive(Clone, Debug)]
pub struct Pair {
    pub key: String,
    pub val: String,
}

#[verifier::ext_equal]
pub struct PairView {
    pub key: Seq<char>,
    pub val: Seq<char>,
}

impl View for Pair {
    type V = PairView;

    open spec fn view(&self) -> PairView {
        PairView { key: self.key@, val: self.val@ }
    }
}

pub open spec fn pairs(v: Seq<Pair>) -> Seq<PairView> {
    Seq::new(v.len(), |i: int| v[i]@)
}

pub proof fn pairs_push(v: Seq<Pair>, p: Pair)
    ensures
        pairs(v.push(p)) == pairs(v).push(p@),
{
    assert(pairs(v.push(p)) =~= pairs(v).push(p@));
}

/// The whole state a new peer starts from.
#[derive(Debug)]
pub struct Snapshot {
    pub epoch: u64,
    pub peers: Vec<String>,
    pub entries: Vec<LogEntry>,
    pub map: Vec<Pair>,
}

#[verifier::ext_equal]
pub struct SnapshotView {
    pub epoch: u64,
    pub peers: Seq<Seq<char>>,
    pub entries: Seq<EntryView>,
    pub map: Seq<PairView>,
}

impl View for Snapshot {
    type V = SnapshotView;

    open spec fn view(&self) -> SnapshotView {
        SnapshotView {
            epoch: self.epoch,
            peers: strs(self.peers@),
            entries: entries(self.entries@),
            map: pairs(self.map@),
        }
    }
}

#[derive(Debug)]
pub enum Request {
    Vote(RequestVote),
    Append(AppendEntries),
    Get(String),
    Put(String, String),
    AddPeer(String),
    RemovePeer(String),
    Install(Snapshot),
    Replicate(u64, u64, String, String),
    Promote(u64),
    Status,
    Unknown(u8),
}

pub enum RequestView {
    Vote(VoteView),
    Append(AppendView),
    Get(Seq<char>),
    Put(Seq<char>, Seq<char>),
    AddPeer(Seq<char>),
    RemovePeer(Seq<char>),
    Install(SnapshotView),
    Replicate(u64, u64, Seq<char>, Seq<char>),
    Promote(u64),
    Status,
    Unknown(u8),
}

impl View for Request {
    type V = RequestView;

    open spec fn view(&self) -> RequestView {
        match self {
            Request::Vote(v) => RequestView::Vote(v@),
            Request::Append(a) => RequestView::Append(a@),
            Request::Get(k) => RequestView::Get(k@),
            Request::Put(k, v) => RequestView::Put(k@, v@),
            Request::AddPeer(a) => RequestView::AddPeer(a@),
            Request::RemovePeer(a) => RequestView::RemovePeer(a@),
            Request::Install(s) => RequestView::Install(s@),
            Request::Replicate(e, i, k, v) => RequestView::Replicate(*e, *i, k@, v@),
            Request::Promote(e) => RequestView::Promote(*e),
            Request::Status => RequestView::Status,
            Request::Unknown(b) => RequestView::Unknown(*b),
        }
    }
}

// ---------------------------------------------------------------------------
// Layout
// ---------------------------------------------------------------------------

pub open spec fn wr_entry(e: EntryView) -> Seq<u8> {
    le(e.term as nat, 8) + le(e.index as nat, 8) + wr_str(e.key) + wr_str(e.val)
}

pub open spec fn wr_pair(p: PairView) -> Seq<u8> {
    wr_str(p.key) + wr_str(p.val)
}

pub open spec fn wr_texts(v: Seq<Seq<char>>) -> Seq<u8> {
    wr_list(v, |s: Seq<char>| wr_str(s))
}

pub open spec fn wr_entries(v: Seq<EntryView>) -> Seq<u8> {
    wr_list(v, |e: EntryView| wr_entry(e))
}

pub open spec fn wr_pairs(v: Seq<PairView>) -> Seq<u8> {
    wr_list(v, |p: PairView| wr_pair(p))
}

/// A request as it goes over the wire: its operation code, then its fields.
pub open spec fn wr_request(r: RequestView) -> Seq<u8> {
    match r {
        RequestView::Vote(v) => seq![OP_VOTE] + le(v.term as nat, 8) + wr_str(v.candidate_id) + le(
            v.last_log_index as nat,
            8,
        ) + le(v.last_log_term as nat, 8),
        RequestView::Append(a) => seq![OP_APPEND] + le(a.term as nat, 8) + wr_str(a.leader_id) + le(
            a.prev_log_index as nat,
            8,
        ) + le(a.prev_log_term as nat, 8) + le(a.leader_commit as nat, 8) + le(a.entries.len(), 4)
            + wr_entries(a.entries),
        RequestView::Get(k) => seq![OP_GET] + wr_str(k),
        RequestView::Put(k, v) => seq![OP_PUT] + wr_str(k) + wr_str(v),
        RequestView::AddPeer(a) => seq![OP_ADD_PEER] + wr_str(a),
        RequestView::RemovePeer(a) => seq![OP_REMOVE_PEER] + wr_str(a),
        RequestView::Install(s) => seq![OP_SNAPSHOT] + le(s.epoch as nat, 8) + le(
            s.peers.len(),
            8,
        ) + wr_texts(s.peers) + le(s.entries.len(), 8) + wr_entries(s.entries) + le(s.map.len(), 8)
            + wr_pairs(s.map),
        RequestView::Replicate(e, i, k, v) => seq![OP_REPL] + le(e as nat, 8) + le(i as nat, 8)
            + wr_str(k) + wr_str(v),
        RequestView::Promote(e) => seq![OP_PROMOTE] + le(e as nat, 8),
        RequestView::Status => seq![OP_STATUS],
        RequestView::Unknown(b) => seq![b],
    }
}

pub open spec fn st_entry(s: Seq<u8>) -> Step<EntryView> {
    match st_u64(s) {
        Step::More => Step::More,
        Step::Bad => Step::Bad,
        Step::Done(term, s) => match st_u64(s) {
            Step::More => Step::More,
            Step::Bad => Step::Bad,
            Step::Done(index, s) => match st_str(s) {
                Step::More => Step::More,
                Step::Bad => Step::Bad,
                Step::Done(key, s) => match st_str(s) {
                    Step::More => Step::More,
                    Step::Bad => Step::Bad,
                    Step::Done(val, s) => Step::Done(EntryView { term, index, key, val }, s),
                },
            },
        },
    }
}

pub open spec fn st_pair(s: Seq<u8>) -> Step<PairView> {
    match st_str(s) {
        Step::More => Step::More,
        Step::Bad => Step::Bad,
        Step::Done(key, s) => match st_str(s) {
            Step::More => Step::More,
            Step::Bad => Step::Bad,
            Step::Done(val, s) => Step::Done(PairView { key, val }, s),
        },
    }
}

/// A 64-bit count, then that many texts.
pub open spec fn st_texts(s: Seq<u8>) -> Step<Seq<Seq<char>>> {
    match st_u64(s) {
        Step::More => Step::More,
        Step::Bad => Step::Bad,
        Step::Done(n, s) => st_list(s, n as nat, |s: Seq<u8>| st_str(s)),
    }
}

/// A 64-bit count, then that many entries.
pub open spec fn st_entries(s: Seq<u8>) -> Step<Seq<EntryView>> {
    match st_u64(s) {
        Step::More => Step::More,
        Step::Bad => Step::Bad,
        Step::Done(n, s) => st_list(s, n as nat, |s: Seq<u8>| st_entry(s)),
    }
}

/// A 64-bit count, then that many pairs.
pub open spec fn st_pairs(s: Seq<u8>) -> Step<Seq<PairView>> {
    match st_u64(s) {
        Step::More => Step::More,
        Step::Bad => Step::Bad,
        Step::Done(n, s) => st_list(s, n as nat, |s: Seq<u8>| st_pair(s)),
    }
}

pub open spec fn st_vote(s: Seq<u8>) -> Step<VoteView> {
    match st_u64(s) {
        Step::More => Step::More,
        Step::Bad => Step::Bad,
        Step::Done(term, s) => match st_str(s) {
            Step::More => Step::More,
            Step::Bad => Step::Bad,
            Step::Done(candidate_id, s) => match st_u64(s) {
                Step::More => Step::More,
                Step::Bad => Step::Bad,
                Step::Done(last_log_index, s) => match st_u64(s) {
                    Step::More => Step::More,
                    Step::Bad => Step::Bad,
                    Step::Done(last_log_term, s) => Step::Done(
                        VoteView { term, candidate_id, last_log_index, last_log_term },
                        s,
                    ),
                },
            },
        },
    }
}

/// The fields of an append request before its entries, and their number.
pub open spec fn st_append_head(s: Seq<u8>) -> Step<(AppendView, u32)> {
    match st_u64(s) {
        Step::More => Step::More,
        Step::Bad => Step::Bad,
        Step::Done(term, s) => match st_str(s) {
            Step::More => Step::More,
            Step::Bad => Step::Bad,
            Step::Done(leader_id, s) => match st_u64(s) {
                Step::More => Step::More,
                Step::Bad => Step::Bad,
                Step::Done(prev_log_index, s) => match st_u64(s) {
                    Step::More => Step::More,
                    Step::Bad => Step::Bad,
                    Step::Done(prev_log_term, s) => match st_u64(s) {
                        Step::More => Step::More,
                        Step::Bad => Step::Bad,
                        Step::Done(leader_commit, s) => match st_u32(s) {
                            Step::More => Step::More,
                            Step::Bad => Step::Bad,
                            Step::Done(n, s) => Step::Done(
                                (
                                    AppendView {
                                        term,
                                        leader_id,
                                        prev_log_index,
                                        prev_log_term,
                                        entries: Seq::empty(),
                                        leader_commit,
                                    },
                                    n,
                                ),
                                s,
                            ),
                        },
                    },
                },
            },
        },
    }
}

pub open spec fn st_append(s: Seq<u8>) -> Step<AppendView> {
    match st_append_head(s) {
        Step::More => Step::More,
        Step::Bad => Step::Bad,
        Step::Done((head, n), s) => match st_list(s, n as nat, |s: Seq<u8>| st_entry(s)) {
            Step::More => Step::More,
            Step::Bad => Step::Bad,
            Step::Done(entries, s) => Step::Done(AppendView { entries, ..head }, s),
        },
    }
}

pub open spec fn st_snapshot(s: Seq<u8>) -> Step<SnapshotView> {
    match st_u64(s) {
        Step::More => Step::More,
        Step::Bad => Step::Bad,
        Step::Done(epoch, s) => match st_texts(s) {
            Step::More => Step::More,
            Step::Bad => Step::Bad,
            Step::Done(peers, s) => match st_entries(s) {
                Step::More => Step::More,
                Step::Bad => Step::Bad,
                Step::Done(entries, s) => match st_pairs(s) {
                    Step::More => Step::More,
                    Step::Bad => Step::Bad,
                    Step::Done(map, s) => Step::Done(SnapshotView { epoch, peers, entries, map }, s),
                },
            },
        },
    }
}

/// The request that some bytes hold.
pub open spec fn st_request(s: Seq<u8>) -> Step<RequestView> {
    match st_u8(s) {
        Step::More => Step::More,
        Step::Bad => Step::Bad,
        Step::Done(op, s) => if op == OP_VOTE {
            match st_vote(s) {
                Step::More => Step::More,
                Step::Bad => Step::Bad,
                Step::Done(v, s) => Step::Done(RequestView::Vote(v), s),
            }
        } else if op == OP_APPEND {
            match st_append(s) {
                Step::More => Step::More,
                Step::Bad => Step::Bad,
                Step::Done(a, s) => Step::Done(RequestView::Append(a), s),
            }
        } else if op == OP_GET {
            match st_str(s) {
                Step::More => Step::More,
                Step::Bad => Step::Bad,
                Step::Done(k, s) => Step::Done(RequestView::Get(k), s),
            }
        } else if op == OP_PUT {
            match st_pair(s) {
                Step::More => Step::More,
                Step::Bad => Step::Bad,
                Step::Done(p, s) => Step::Done(RequestView::Put(p.key, p.val), s),
            }
        } else if op == OP_ADD_PEER {
            match st_str(s) {
                Step::More => Step::More,
                Step::Bad => Step::Bad,
                Step::Done(a, s) => Step::Done(RequestView::AddPeer(a), s),
            }
        } else if op == OP_REMOVE_PEER {
            match st_str(s) {
                Step::More => Step::More,
                Step::Bad => Step::Bad,
                Step::Done(a, s) => Step::Done(RequestView::RemovePeer(a), s),
            }
        } else if op == OP_SNAPSHOT {
            match st_snapshot(s) {
                Step::More => Step::More,
                Step::Bad => Step::Bad,
                Step::Done(x, s) => Step::Done(RequestView::Install(x), s),
            }
        } else if op == OP_REPL {
            match st_entry(s) {
                Step::More => Step::More,
                Step::Bad => Step::Bad,
                Step::Done(e, s) => Step::Done(
                    RequestView::Replicate(e.term, e.index, e.key, e.val),
                    s,
                ),
            }
        } else if op == OP_PROMOTE {
            match st_u64(s) {
                Step::More => Step::More,
                Step::Bad => Step::Bad,
                Step::Done(e, s) => Step::Done(RequestView::Promote(e), s),
            }
        } else if op == OP_STATUS {
            Step::Done(RequestView::Status, s)
        } else {
            Step::Done(RequestView::Unknown(op), s)
        },
    }
}

// ---------------------------------------------------------------------------
// Writing
// ---------------------------------------------------------------------------

proof fn list_snoc<T>(items: Seq<T>, k: int, enc: spec_fn(T) -> Seq<u8>)
    requires
        0 <= k < items.len(),
    ensures
        wr_list(items.take(k + 1), enc) == wr_list(items.take(k), enc) + enc(items[k]),
{
    assert(items.take(k + 1) =~= items.take(k).push(items[k]));
    wr_list_push(items.take(k), items[k], enc);
}

fn put_entry(out: &mut Vec<u8>, e: &LogEntry)
    ensures
        final(out)@ == old(out)@ + wr_entry(e@),
{
    put_u64(out, e.term);
    put_u64(out, e.index);
    put_str(out, e.key.as_str());
    put_str(out, e.val.as_str());
    assert(out@ =~= old(out)@ + wr_entry(e@));
}

pub fn put_entries(out: &mut Vec<u8>, v: &[LogEntry])
    ensures
        final(out)@ == old(out)@ + wr_entries(entries(v@)),
{
    let ghost items = entries(v@);
    let ghost enc = |e: EntryView| wr_entry(e);
    let mut k: usize = 0;
    assert(out@ + wr_list(items.take(0), enc) =~= out@);
    while k < v.len()
        invariant
            k <= v@.len(),
            items == entries(v@),
            enc == (|e: EntryView| wr_entry(e)),
            out@ == old(out)@ + wr_list(items.take(k as int), enc),
        decreases v@.len() - k,
    {
        put_entry(out, &v[k]);
        proof {
            list_snoc(items, k as int, enc);
            assert(out@ =~= old(out)@ + wr_list(items.take(k + 1), enc));
        }
        k += 1;
    }
    assert(items.take(k as int) =~= items);
}

pub fn put_texts(out: &mut Vec<u8>, v: &Vec<String>)
    ensures
        final(out)@ == old(out)@ + wr_texts(strs(v@)),
{
    let ghost items = strs(v@);
    let ghost enc = |s: Seq<char>| wr_str(s);
    let mut k: usize = 0;
    assert(out@ + wr_list(items.take(0), enc) =~= out@);
    while k < v.len()
        invariant
            k <= v@.len(),
            items == strs(v@),
            enc == (|s: Seq<char>| wr_str(s)),
            out@ == old(out)@ + wr_list(items.take(k as int), enc),
        decreases v@.len() - k,
    {
        put_str(out, v[k].as_str());
        proof {
            list_snoc(items, k as int, enc);
            assert(out@ =~= old(out)@ + wr_list(items.take(k + 1), enc));
        }
        k += 1;
    }
    assert(items.take(k as int) =~= items);
}

pub fn put_pairs(out: &mut Vec<u8>, v: &Vec<Pair>)
    ensures
        final(out)@ == old(out)@ + wr_pairs(pairs(v@)),
{
    let ghost items = pairs(v@);
    let ghost enc = |p: PairView| wr_pair(p);
    let mut k: usize = 0;
    assert(out@ + wr_list(items.take(0), enc) =~= out@);
    while k < v.len()
        invariant
            k <= v@.len(),
            items == pairs(v@),
            enc == (|p: PairView| wr_pair(p)),
            out@ == old(out)@ + wr_list(items.take(k as int), enc),
        decreases v@.len() - k,
    {
        put_str(out, v[k].key.as_str());
        put_str(out, v[k].val.as_str());
        proof {
            list_snoc(items, k as int, enc);
            assert(out@ =~= old(out)@ + wr_list(items.take(k + 1), enc));
        }
        k += 1;
    }
    assert(items.take(k as int) =~= items);
}

/// The bytes that ask for a snapshot to be installed.
pub fn snapshot_message(s: &Snapshot) -> (m: Vec<u8>)
    ensures
        m@ == wr_request(RequestView::Install(s@)),
{
    let mut m: Vec<u8> = Vec::new();
    m.push(OP_SNAPSHOT);
    put_u64(&mut m, s.epoch);
    put_u64(&mut m, s.peers.len() as u64);
    put_texts(&mut m, &s.peers);
    put_u64(&mut m, s.entries.len() as u64);
    put_entries(&mut m, s.entries.as_slice());
    put_u64(&mut m, s.map.len() as u64);
    put_pairs(&mut m, &s.map);
    assert(m@ =~= wr_request(RequestView::Install(s@)));
    m
}

/// The bytes that replicate one entry under an epoch.
pub fn replicate_message(epoch: u64, index: u64, key: &str, val: &str) -> (m: Vec<u8>)
    ensures
        m@ == wr_request(RequestView::Replicate(epoch, index, key@, val@)),
{
    let mut m: Vec<u8> = Vec::new();
    m.push(OP_REPL);
    put_u64(&mut m, epoch);
    put_u64(&mut m, index);
    put_str(&mut m, key);
    put_str(&mut m, val);
    assert(m@ =~= wr_request(RequestView::Replicate(epoch, index, key@, val@)));
    m
}

/// A term and a yes or no: the reply to a vote or an append request.
pub open spec fn wr_answer(term: u64, yes: bool) -> Seq<u8> {
    le(term as nat, 8) + seq![if yes { 1u8 } else { 0u8 }]
}

pub fn put_answer(out: &mut Vec<u8>, term: u64, yes: bool)
    ensures
        final(out)@ == old(out)@ + wr_answer(term, yes),
{
    put_u64(out, term);
    out.push(
        if yes {
            1
        } else {
            0
        },
    );
    assert(out@ =~= old(out)@ + wr_answer(term, yes));
}

/// The term and the yes or no in a nine-byte reply.
pub open spec fn rd_answer(s: Seq<u8>) -> Option<(u64, bool)> {
    if s.len() < 9 { None } else { Some((from_le(s.take(8)) as u64, s[8] != 0)) }
}

pub fn get_answer(buf: &[u8]) -> (r: Option<(u64, bool)>)
    ensures
        r == rd_answer(buf@),
{
    if buf.len() < 9 {
        return None;
    }
    assert(buf@.subrange(0, 8) =~= buf@.take(8));
    Some((u64_at(buf, 0), buf[8] != 0))
}

/// An answer reads back as the term and the flag that were put in.
pub proof fn answer_read_back(term: u64, yes: bool)
    ensures
        rd_answer(wr_answer(term, yes)) == Some((term, yes)),
{
    crate::wire::le_read_back(term as nat, 8);
    assert(wr_answer(term, yes).take(8) =~= le(term as nat, 8));
}

/// The entry that an append request names as coming before its own: the last
/// of the log for a bare heartbeat, else the one before the first entry.
pub open spec fn prev_of(log: Seq<EntryView>, es: Seq<EntryView>) -> (u64, u64) {
    let last = if log.len() == 0 { 0 } else { log.last().index };
    let prev: u64 = if es.len() == 0 {
        last
    } else if es[0].index == 0 {
        0
    } else {
        (es[0].index - 1) as u64
    };
    (
        prev,
        if prev == 0 {
            0
        } else if prev <= log.len() {
            log[prev - 1].term
        } else {
            0
        },
    )
}

/// The append request of a leader.
pub open spec fn append_request(
    id: Seq<char>,
    term: u64,
    commit_index: u64,
    log: Seq<EntryView>,
    es: Seq<EntryView>,
) -> AppendView {
    AppendView {
        term,
        leader_id: id,
        prev_log_index: prev_of(log, es).0,
        prev_log_term: prev_of(log, es).1,
        entries: es,
        leader_commit: commit_index,
    }
}

impl RaftNode {
    /// The bytes of a vote request.
    pub fn send_request_vote(
        id: &str,
        term: u64,
        last_log_index: u64,
        last_log_term: u64,
    ) -> (m: Vec<u8>)
        ensures
            m@ == wr_request(
                RequestView::Vote(
                    VoteView { term, candidate_id: id@, last_log_index, last_log_term },
                ),
            ),
    {
        let mut m: Vec<u8> = Vec::new();
        m.push(OP_VOTE);
        put_u64(&mut m, term);
        put_str(&mut m, id);
        put_u64(&mut m, last_log_index);
        put_u64(&mut m, last_log_term);
        assert(m@ =~= wr_request(
            RequestView::Vote(VoteView { term, candidate_id: id@, last_log_index, last_log_term }),
        ));
        m
    }

    /// The bytes with which this node asks a peer for its vote.
    pub fn send_request_vote_to_peer(&self) -> (m: Vec<u8>)
        ensures
            m@ == wr_request(
                RequestView::Vote(
                    VoteView {
                        term: self.current_term,
                        candidate_id: self@.id,
                        last_log_index: self@.last_index(),
                        last_log_term: self@.last_term(),
                    },
                ),
            ),
    {
        Self::send_request_vote(
            self.id.as_str(),
            self.current_term,
            self.last_log_index(),
            self.last_log_term(),
        )
    }

    /// The bytes of an append request.
    pub fn send_append_entries(
        id: &str,
        term: u64,
        commit_index: u64,
        log: &[LogEntry],
        es: &[LogEntry],
    ) -> (m: Vec<u8>)
        ensures
            m@ == wr_request(
                RequestView::Append(
                    append_request(id@, term, commit_index, entries(log@), entries(es@)),
                ),
            ),
    {
        let n: usize = log.len();
        let last_idx: u64 = if n == 0 {
            0
        } else {
            log[n - 1].index
        };
        let prev_log_index: u64 = if es.len() == 0 {
            last_idx
        } else {
            es[0].index.saturating_sub(1)
        };
        let prev_log_term: u64 = if prev_log_index == 0 {
            0
        } else if prev_log_index <= n as u64 {
            log[(prev_log_index - 1) as usize].term
        } else {
            0
        };
        let mut m: Vec<u8> = Vec::new();
        m.push(OP_APPEND);
        put_u64(&mut m, term);
        put_str(&mut m, id);
        put_u64(&mut m, prev_log_index);
        put_u64(&mut m, prev_log_term);
        put_u64(&mut m, commit_index);
        put_len32(&mut m, es.len());
        put_entries(&mut m, es);
        proof {
            let a = append_request(id@, term, commit_index, entries(log@), entries(es@));
            assert(a.prev_log_index == prev_log_index);
            assert(a.prev_log_term == prev_log_term);
            assert(m@ =~= wr_request(RequestView::Append(a)));
        }
        m
    }

    /// The bytes with which this node replicates entries to a peer.
    pub fn send_append_entries_to_peer(&self, es: &[LogEntry]) -> (m: Vec<u8>)
        ensures
            m@ == wr_request(
                RequestView::Append(
                    append_request(
                        self@.id,
                        self.current_term,
                        self.commit_index,
                        self@.log,
                        entries(es@),
                    ),
                ),
            ),
    {
        Self::send_append_entries(
            self.id.as_str(),
            self.current_term,
            self.commit_index,
            self.log.as_slice(),
            es,
        )
    }

    /// The bytes of a heartbeat. It names no preceding entry, so that a peer
    /// that lags behind still resets its timer.
    pub fn send_heartbeat(id: &str, term: u64, commit_index: u64) -> (m: Vec<u8>)
        ensures
            m@ == wr_request(
                RequestView::Append(
                    AppendView {
                        term,
                        leader_id: id@,
                        prev_log_index: 0,
                        prev_log_term: 0,
                        entries: Seq::empty(),
                        leader_commit: commit_index,
                    },
                ),
            ),
    {
        let none: Vec<LogEntry> = Vec::new();
        assert(entries(none@) =~= Seq::<EntryView>::empty());
        Self::send_append_entries(id, term, commit_index, none.as_slice(), none.as_slice())
    }

    /// How many members stored entries, this one among them, by the replies
    /// of its peers.
    pub fn replicate_to_majority(&self, replies: &Vec<Option<AppendEntriesResponse>>) -> (n: usize)
        requires
            replies@.len() < usize::MAX,
        ensures
            n == 1 + stored(replies@, self.current_term),
    {
        let mut acks: usize = 1;
        let mut k: usize = 0;
        while k < replies.len()
            invariant
                k <= replies@.len(),
                replies@.len() < usize::MAX,
                acks == 1 + stored(replies@.take(k as int), self.current_term),
                acks <= 1 + k,
            decreases replies@.len() - k,
        {
            assert(replies@.take(k + 1).drop_last() =~= replies@.take(k as int));
            if let Some(resp) = replies[k] {
                if resp.success && resp.term == self.current_term {
                    acks += 1;
                }
            }
            k += 1;
        }
        assert(replies@.take(k as int) =~= replies@);
        acks
    }
}

/// How many replies say that entries were stored under `term`.
pub open spec fn stored(replies: Seq<Option<AppendEntriesResponse>>, term: u64) -> nat
    decreases replies.len(),
{
    if replies.len() == 0 {
        0
    } else {
        stored(replies.drop_last(), term) + match replies.last() {
            Some(r) => if r.success && r.term == term { 1nat } else { 0 },
            None => 0,
        }
    }
}

// ---------------------------------------------------------------------------
// Reading
// ---------------------------------------------------------------------------

pub open spec fn entry_text() -> spec_fn(LogEntry) -> EntryView {
    |e: LogEntry| e@
}

pub open spec fn entries_text() -> spec_fn(Vec<LogEntry>) -> Seq<EntryView> {
    |v: Vec<LogEntry>| entries(v@)
}

pub open spec fn pair_text() -> spec_fn(Pair) -> PairView {
    |p: Pair| p@
}

pub open spec fn pairs_text() -> spec_fn(Vec<Pair>) -> Seq<PairView> {
    |v: Vec<Pair>| pairs(v@)
}

pub open spec fn texts_text() -> spec_fn(Vec<String>) -> Seq<Seq<char>> {
    |v: Vec<String>| strs(v@)
}

pub fn more_entry(buf: &[u8], pos: &mut usize) -> (r: Got<LogEntry>)
    requires
        *old(pos) <= buf@.len(),
    ensures
        gets(buf@, *old(pos), *final(pos), r, entry_text(), st_entry(buf@.skip(*old(pos) as int))),
{
    let term: u64 = match more_u64(buf, pos) {
        Got::Done(v) => v,
        Got::More => return Got::More,
        Got::Bad => return Got::Bad,
    };
    let index: u64 = match more_u64(buf, pos) {
        Got::Done(v) => v,
        Got::More => return Got::More,
        Got::Bad => return Got::Bad,
    };
    let key: String = match more_str(buf, pos) {
        Got::Done(v) => v,
        Got::More => return Got::More,
        Got::Bad => return Got::Bad,
    };
    let val: String = match more_str(buf, pos) {
        Got::Done(v) => v,
        Got::More => return Got::More,
        Got::Bad => return Got::Bad,
    };
    Got::Done(LogEntry { term, index, key, val })
}

pub fn more_pair(buf: &[u8], pos: &mut usize) -> (r: Got<Pair>)
    requires
        *old(pos) <= buf@.len(),
    ensures
        gets(buf@, *old(pos), *final(pos), r, pair_text(), st_pair(buf@.skip(*old(pos) as int))),
{
    let key: String = match more_str(buf, pos) {
        Got::Done(v) => v,
        Got::More => return Got::More,
        Got::Bad => return Got::Bad,
    };
    let val: String = match more_str(buf, pos) {
        Got::Done(v) => v,
        Got::More => return Got::More,
        Got::Bad => return Got::Bad,
    };
    Got::Done(Pair { key, val })
}

/// Reads `n` entries.
pub fn more_n_entries(buf: &[u8], pos: &mut usize, n: u64) -> (r: Got<Vec<LogEntry>>)
    requires
        *old(pos) <= buf@.len(),
    ensures
        gets(
            buf@,
            *old(pos),
            *final(pos),
            r,
            entries_text(),
            st_list(buf@.skip(*old(pos) as int), n as nat, |s: Seq<u8>| st_entry(s)),
        ),
{
    let ghost st = |s: Seq<u8>| st_entry(s);
    let ghost want = st_list(buf@.skip(*pos as int), n as nat, st);
    let mut out: Vec<LogEntry> = Vec::new();
    let mut k: u64 = 0;
    proof {
        if let Step::Done(xs, rest) = want {
            assert(entries(out@) + xs =~= xs);
        }
    }
    while k < n
        invariant
            k <= n,
            *old(pos) <= *pos <= buf@.len(),
            st == (|s: Seq<u8>| st_entry(s)),
            want == st_list(buf@.skip(*old(pos) as int), n as nat, st),
            goes_on(want, entries(out@), st_list(buf@.skip(*pos as int), (n - k) as nat, st)),
        decreases n - k,
    {
        proof {
            goes_on_step(want, entries(out@), buf@.skip(*pos as int), (n - k) as nat, st);
        }
        let e: LogEntry = match more_entry(buf, pos) {
            Got::Done(v) => v,
            Got::More => return Got::More,
            Got::Bad => return Got::Bad,
        };
        proof {
            entries_push(out@, e);
        }
        out.push(e);
        k += 1;
    }
    assert(entries(out@) + Seq::<EntryView>::empty() =~= entries(out@));
    Got::Done(out)
}

/// Reads a count and that many entries.
pub fn more_entries(buf: &[u8], pos: &mut usize) -> (r: Got<Vec<LogEntry>>)
    requires
        *old(pos) <= buf@.len(),
    ensures
        gets(
            buf@,
            *old(pos),
            *final(pos),
            r,
            entries_text(),
            st_entries(buf@.skip(*old(pos) as int)),
        ),
{
    let n: u64 = match more_u64(buf, pos) {
        Got::Done(v) => v,
        Got::More => return Got::More,
        Got::Bad => return Got::Bad,
    };
    more_n_entries(buf, pos, n)
}

/// Reads a count and that many texts.
pub fn more_texts(buf: &[u8], pos: &mut usize) -> (r: Got<Vec<String>>)
    requires
        *old(pos) <= buf@.len(),
    ensures
        gets(
            buf@,
            *old(pos),
            *final(pos),
            r,
            texts_text(),
            st_texts(buf@.skip(*old(pos) as int)),
        ),
{
    let n: u64 = match more_u64(buf, pos) {
        Got::Done(v) => v,
        Got::More => return Got::More,
        Got::Bad => return Got::Bad,
    };
    let ghost st = |s: Seq<u8>| st_str(s);
    let ghost s1 = buf@.skip(*pos as int);
    let ghost want = st_list(s1, n as nat, st);
    let mut out: Vec<String> = Vec::new();
    let mut k: u64 = 0;
    proof {
        if let Step::Done(xs, rest) = want {
            assert(strs(out@) + xs =~= xs);
        }
    }
    while k < n
        invariant
            k <= n,
            *old(pos) <= *pos <= buf@.len(),
            st == (|s: Seq<u8>| st_str(s)),
            want == st_list(s1, n as nat, st),
            st_u64(buf@.skip(*old(pos) as int)) == Step::Done(n, s1),
            goes_on(want, strs(out@), st_list(buf@.skip(*pos as int), (n - k) as nat, st)),
        decreases n - k,
    {
        proof {
            goes_on_step(want, strs(out@), buf@.skip(*pos as int), (n - k) as nat, st);
        }
        let s: String = match more_str(buf, pos) {
            Got::Done(v) => v,
            Got::More => return Got::More,
            Got::Bad => return Got::Bad,
        };
        proof {
            strs_push(out@, s);
        }
        out.push(s);
        k += 1;
    }
    assert(strs(out@) + Seq::<Seq<char>>::empty() =~= strs(out@));
    Got::Done(out)
}

/// Reads a count and that many pairs.
pub fn more_pairs(buf: &[u8], pos: &mut usize) -> (r: Got<Vec<Pair>>)
    requires
        *old(pos) <= buf@.len(),
    ensures
        gets(
            buf@,
            *old(pos),
            *final(pos),
            r,
            pairs_text(),
            st_pairs(buf@.skip(*old(pos) as int)),
        ),
{
    let n: u64 = match more_u64(buf, pos) {
        Got::Done(v) => v,
        Got::More => return Got::More,
        Got::Bad => return Got::Bad,
    };
    let ghost st = |s: Seq<u8>| st_pair(s);
    let ghost s1 = buf@.skip(*pos as int);
    let ghost want = st_list(s1, n as nat, st);
    let mut out: Vec<Pair> = Vec::new();
    let mut k: u64 = 0;
    proof {
        if let Step::Done(xs, rest) = want {
            assert(pairs(out@) + xs =~= xs);
        }
    }
    while k < n
        invariant
            k <= n,
            *old(pos) <= *pos <= buf@.len(),
            st == (|s: Seq<u8>| st_pair(s)),
            want == st_list(s1, n as nat, st),
            st_u64(buf@.skip(*old(pos) as int)) == Step::Done(n, s1),
            goes_on(want, pairs(out@), st_list(buf@.skip(*pos as int), (n - k) as nat, st)),
        decreases n - k,
    {
        proof {
            goes_on_step(want, pairs(out@), buf@.skip(*pos as int), (n - k) as nat, st);
        }
        let p: Pair = match more_pair(buf, pos) {
            Got::Done(v) => v,
            Got::More => return Got::More,
            Got::Bad => return Got::Bad,
        };
        proof {
            pairs_push(out@, p);
        }
        out.push(p);
        k += 1;
    }
    assert(pairs(out@) + Seq::<PairView>::empty() =~= pairs(out@));
    Got::Done(out)
}

fn more_vote(buf: &[u8], pos: &mut usize) -> (r: Got<RequestVote>)
    requires
        *old(pos) <= buf@.len(),
    ensures
        gets(
            buf@,
            *old(pos),
            *final(pos),
            r,
            |v: RequestVote| v@,
            st_vote(buf@.skip(*old(pos) as int)),
        ),
{
    let term: u64 = match more_u64(buf, pos) {
        Got::Done(v) => v,
        Got::More => return Got::More,
        Got::Bad => return Got::Bad,
    };
    let candidate_id: String = match more_str(buf, pos) {
        Got::Done(v) => v,
        Got::More => return Got::More,
        Got::Bad => return Got::Bad,
    };
    let last_log_index: u64 = match more_u64(buf, pos) {
        Got::Done(v) => v,
        Got::More => return Got::More,
        Got::Bad => return Got::Bad,
    };
    let last_log_term: u64 = match more_u64(buf, pos) {
        Got::Done(v) => v,
        Got::More => return Got::More,
        Got::Bad => return Got::Bad,
    };
    Got::Done(RequestVote { term, candidate_id, last_log_index, last_log_term })
}

fn more_append(buf: &[u8], pos: &mut usize) -> (r: Got<AppendEntries>)
    requires
        *old(pos) <= buf@.len(),
    ensures
        gets(
            buf@,
            *old(pos),
            *final(pos),
            r,
            |a: AppendEntries| a@,
            st_append(buf@.skip(*old(pos) as int)),
        ),
{
    let term: u64 = match more_u64(buf, pos) {
        Got::Done(v) => v,
        Got::More => return Got::More,
        Got::Bad => return Got::Bad,
    };
    let leader_id: String = match more_str(buf, pos) {
        Got::Done(v) => v,
        Got::More => return Got::More,
        Got::Bad => return Got::Bad,
    };
    let prev_log_index: u64 = match more_u64(buf, pos) {
        Got::Done(v) => v,
        Got::More => return Got::More,
        Got::Bad => return Got::Bad,
    };
    let prev_log_term: u64 = match more_u64(buf, pos) {
        Got::Done(v) => v,
        Got::More => return Got::More,
        Got::Bad => return Got::Bad,
    };
    let leader_commit: u64 = match more_u64(buf, pos) {
        Got::Done(v) => v,
        Got::More => return Got::More,
        Got::Bad => return Got::Bad,
    };
    let n: u32 = match more_u32(buf, pos) {
        Got::Done(v) => v,
        Got::More => return Got::More,
        Got::Bad => return Got::Bad,
    };
    let es: Vec<LogEntry> = match more_n_entries(buf, pos, n as u64) {
        Got::Done(v) => v,
        Got::More => return Got::More,
        Got::Bad => return Got::Bad,
    };
    Got::Done(
        AppendEntries {
            term,
            leader_id,
            prev_log_index,
            prev_log_term,
            entries: es,
            leader_commit,
        },
    )
}

fn more_snapshot(buf: &[u8], pos: &mut usize) -> (r: Got<Snapshot>)
    requires
        *old(pos) <= buf@.len(),
    ensures
        gets(
            buf@,
            *old(pos),
            *final(pos),
            r,
            |s: Snapshot| s@,
            st_snapshot(buf@.skip(*old(pos) as int)),
        ),
{
    let epoch: u64 = match more_u64(buf, pos) {
        Got::Done(v) => v,
        Got::More => return Got::More,
        Got::Bad => return Got::Bad,
    };
    let peers: Vec<String> = match more_texts(buf, pos) {
        Got::Done(v) => v,
        Got::More => return Got::More,
        Got::Bad => return Got::Bad,
    };
    let es: Vec<LogEntry> = match more_entries(buf, pos) {
        Got::Done(v) => v,
        Got::More => return Got::More,
        Got::Bad => return Got::Bad,
    };
    let map: Vec<Pair> = match more_pairs(buf, pos) {
        Got::Done(v) => v,
        Got::More => return Got::More,
        Got::Bad => return Got::Bad,
    };
    Got::Done(Snapshot { epoch, peers, entries: es, map })
}

/// Reads one request from the bytes that have arrived on a connection.
pub fn parse_request(buf: &[u8]) -> (r: Got<Request>)
    ensures
        match st_request(buf@) {
            Step::Done(q, _) => r matches Got::Done(x) && x@ == q,
            Step::More => r is More,
            Step::Bad => r is Bad,
        },
{
    let mut pos: usize = 0;
    assert(buf@.skip(0) =~= buf@);
    let op: u8 = match more_u8(buf, &mut pos) {
        Got::Done(v) => v,
        Got::More => return Got::More,
        Got::Bad => return Got::Bad,
    };
    if op == OP_VOTE {
        match more_vote(buf, &mut pos) {
            Got::Done(v) => Got::Done(Request::Vote(v)),
            Got::More => Got::More,
            Got::Bad => Got::Bad,
        }
    } else if op == OP_APPEND {
        match more_append(buf, &mut pos) {
            Got::Done(a) => Got::Done(Request::Append(a)),
            Got::More => Got::More,
            Got::Bad => Got::Bad,
        }
    } else if op == OP_GET {
        match more_str(buf, &mut pos) {
            Got::Done(k) => Got::Done(Request::Get(k)),
            Got::More => Got::More,
            Got::Bad => Got::Bad,
        }
    } else if op == OP_PUT {
        match more_pair(buf, &mut pos) {
            Got::Done(p) => Got::Done(Request::Put(p.key, p.val)),
            Got::More => Got::More,
            Got::Bad => Got::Bad,
        }
    } else if op == OP_ADD_PEER {
        match more_str(buf, &mut pos) {
            Got::Done(a) => Got::Done(Request::AddPeer(a)),
            Got::More => Got::More,
            Got::Bad => Got::Bad,
        }
    } else if op == OP_REMOVE_PEER {
        match more_str(buf, &mut pos) {
            Got::Done(a) => Got::Done(Request::RemovePeer(a)),
            Got::More => Got::More,
            Got::Bad => Got::Bad,
        }
    } else if op == OP_SNAPSHOT {
        match more_snapshot(buf, &mut pos) {
            Got::Done(s) => Got::Done(Request::Install(s)),
            Got::More => Got::More,
            Got::Bad => Got::Bad,
        }
    } else if op == OP_REPL {
        match more_entry(buf, &mut pos) {
            Got::Done(e) => Got::Done(Request::Replicate(e.term, e.index, e.key, e.val)),
            Got::More => Got::More,
            Got::Bad => Got::Bad,
        }
    } else if op == OP_PROMOTE {
        match more_u64(buf, &mut pos) {
            Got::Done(e) => Got::Done(Request::Promote(e)),
            Got::More => Got::More,
            Got::Bad => Got::Bad,
        }
    } else if op == OP_STATUS {
        Got::Done(Request::Status)
    } else {
        Got::Done(Request::Unknown(op))
    }
}

// ---------------------------------------------------------------------------
// A request is read back as it was written
// ---------------------------------------------------------------------------

pub open spec fn text_fits(s: Seq<char>) -> bool {
    encode_utf8(s).len() <= u32::MAX
}

pub open spec fn entry_fits(e: EntryView) -> bool {
    text_fits(e.key) && text_fits(e.val)
}

pub open spec fn entries_fit(v: Seq<EntryView>) -> bool {
    v.len() <= u64::MAX && forall|i: int| 0 <= i < v.len() ==> entry_fits(#[trigger] v[i])
}

pub open spec fn texts_fit(v: Seq<Seq<char>>) -> bool {
    v.len() <= u64::MAX && forall|i: int| 0 <= i < v.len() ==> text_fits(#[trigger] v[i])
}

pub open spec fn pairs_fit(v: Seq<PairView>) -> bool {
    v.len() <= u64::MAX && forall|i: int|
        0 <= i < v.len() ==> text_fits((#[trigger] v[i]).key) && text_fits(v[i].val)
}

/// Whether a request's texts and counts fit their length fields.
pub open spec fn request_fits(r: RequestView) -> bool {
    match r {
        RequestView::Vote(v) => text_fits(v.candidate_id),
        RequestView::Append(a) => text_fits(a.leader_id) && a.entries.len() <= u32::MAX
            && entries_fit(a.entries),
        RequestView::Get(k) => text_fits(k),
        RequestView::Put(k, v) => text_fits(k) && text_fits(v),
        RequestView::AddPeer(a) => text_fits(a),
        RequestView::RemovePeer(a) => text_fits(a),
        RequestView::Install(s) => texts_fit(s.peers) && entries_fit(s.entries) && pairs_fit(s.map),
        RequestView::Replicate(_, _, k, v) => text_fits(k) && text_fits(v),
        RequestView::Promote(_) => true,
        RequestView::Status => true,
        RequestView::Unknown(_) => false,
    }
}

pub proof fn entry_read_back(e: EntryView, rest: Seq<u8>)
    requires
        entry_fits(e),
    ensures
        st_entry(wr_entry(e) + rest) == Step::Done(e, rest),
{
    let w0 = le(e.term as nat, 8);
    let w1 = le(e.index as nat, 8);
    let s3 = wr_str(e.val) + rest;
    let s2 = wr_str(e.key) + s3;
    let s1 = w1 + s2;
    let s0 = w0 + s1;
    assert(wr_entry(e) + rest == s0) by {
        regroup(w0 + w1 + wr_str(e.key), wr_str(e.val), rest);
        regroup(w0 + w1, wr_str(e.key), s3);
        regroup(w0, w1, s2);
    }
    assert(st_u64(s0) == Step::Done(e.term, s1)) by {
        u64_read_back(e.term, s1);
    }
    assert(st_u64(s1) == Step::Done(e.index, s2)) by {
        u64_read_back(e.index, s2);
    }
    assert(st_str(s2) == Step::Done(e.key, s3)) by {
        st_str_read_back(e.key, s3);
    }
    assert(st_str(s3) == Step::Done(e.val, rest)) by {
        st_str_read_back(e.val, rest);
    }
}

proof fn pair_read_back(p: PairView, rest: Seq<u8>)
    requires
        text_fits(p.key),
        text_fits(p.val),
    ensures
        st_pair(wr_pair(p) + rest) == Step::Done(p, rest),
{
    let s1 = wr_str(p.val) + rest;
    assert(wr_pair(p) + rest =~= wr_str(p.key) + s1);
    st_str_read_back(p.key, s1);
    st_str_read_back(p.val, rest);
}

pub proof fn entry_list_read_back(v: Seq<EntryView>, rest: Seq<u8>)
    requires
        entries_fit(v),
    ensures
        st_list(wr_entries(v) + rest, v.len(), |s: Seq<u8>| st_entry(s)) == Step::Done(v, rest),
        st_entries(le(v.len(), 8) + wr_entries(v) + rest) == Step::Done(v, rest),
{
    let enc = |e: EntryView| wr_entry(e);
    let st = |s: Seq<u8>| st_entry(s);
    assert forall|k: int, r: Seq<u8>| 0 <= k < v.len() implies #[trigger] st(enc(v[k]) + r)
        == Step::Done(v[k], r) by {
        entry_read_back(v[k], r);
    }
    steps_read_back(v, enc, st, rest);
    u64_read_back(v.len() as u64, wr_entries(v) + rest);
    assert(le(v.len(), 8) + wr_entries(v) + rest =~= le(v.len(), 8) + (wr_entries(v) + rest));
}

pub proof fn text_list_read_back(v: Seq<Seq<char>>, rest: Seq<u8>)
    requires
        texts_fit(v),
    ensures
        st_texts(le(v.len(), 8) + wr_texts(v) + rest) == Step::Done(v, rest),
{
    let enc = |s: Seq<char>| wr_str(s);
    let st = |s: Seq<u8>| st_str(s);
    assert forall|k: int, r: Seq<u8>| 0 <= k < v.len() implies #[trigger] st(enc(v[k]) + r)
        == Step::Done(v[k], r) by {
        st_str_read_back(v[k], r);
    }
    steps_read_back(v, enc, st, rest);
    u64_read_back(v.len() as u64, wr_texts(v) + rest);
    assert(le(v.len(), 8) + wr_texts(v) + rest =~= le(v.len(), 8) + (wr_texts(v) + rest));
}

pub proof fn pair_list_read_back(v: Seq<PairView>, rest: Seq<u8>)
    requires
        pairs_fit(v),
    ensures
        st_pairs(le(v.len(), 8) + wr_pairs(v) + rest) == Step::Done(v, rest),
{
    let enc = |p: PairView| wr_pair(p);
    let st = |s: Seq<u8>| st_pair(s);
    assert forall|k: int, r: Seq<u8>| 0 <= k < v.len() implies #[trigger] st(enc(v[k]) + r)
        == Step::Done(v[k], r) by {
        pair_read_back(v[k], r);
    }
    steps_read_back(v, enc, st, rest);
    u64_read_back(v.len() as u64, wr_pairs(v) + rest);
    assert(le(v.len(), 8) + wr_pairs(v) + rest =~= le(v.len(), 8) + (wr_pairs(v) + rest));
}

proof fn vote_read_back(v: VoteView)
    requires
        text_fits(v.candidate_id),
    ensures
        st_vote(wr_request(RequestView::Vote(v)).skip(1)) == Step::Done(v, Seq::<u8>::empty()),
{
    let e = Seq::<u8>::empty();
    let s3 = le(v.last_log_term as nat, 8) + e;
    let s2 = le(v.last_log_index as nat, 8) + s3;
    let s1 = wr_str(v.candidate_id) + s2;
    assert(wr_request(RequestView::Vote(v)).skip(1) =~= le(v.term as nat, 8) + s1);
    u64_read_back(v.term, s1);
    st_str_read_back(v.candidate_id, s2);
    u64_read_back(v.last_log_index, s3);
    u64_read_back(v.last_log_term, e);
}

/// What follows the operation code of an append request, field by field.
spec fn append_tail(a: AppendView) -> Seq<u8> {
    le(a.term as nat, 8) + (wr_str(a.leader_id) + (le(a.prev_log_index as nat, 8) + (le(
        a.prev_log_term as nat,
        8,
    ) + (le(a.leader_commit as nat, 8) + (le(a.entries.len(), 4) + (wr_entries(a.entries) + Seq::<
        u8,
    >::empty()))))))
}

proof fn append_layout(a: AppendView)
    ensures
        wr_request(RequestView::Append(a)).skip(1) == append_tail(a),
{
    let e = Seq::<u8>::empty();
    let h0 = seq![OP_APPEND];
    let h1 = h0 + le(a.term as nat, 8);
    let h2 = h1 + wr_str(a.leader_id);
    let h3 = h2 + le(a.prev_log_index as nat, 8);
    let h4 = h3 + le(a.prev_log_term as nat, 8);
    let h5 = h4 + le(a.leader_commit as nat, 8);
    let h6 = h5 + le(a.entries.len(), 4);
    let s6 = wr_entries(a.entries) + e;
    let s5 = le(a.entries.len(), 4) + s6;
    let s4 = le(a.leader_commit as nat, 8) + s5;
    let s3 = le(a.prev_log_term as nat, 8) + s4;
    let s2 = le(a.prev_log_index as nat, 8) + s3;
    let s1 = wr_str(a.leader_id) + s2;
    assert(wr_entries(a.entries) =~= s6);
    regroup(h5, le(a.entries.len(), 4), s6);
    regroup(h4, le(a.leader_commit as nat, 8), s5);
    regroup(h3, le(a.prev_log_term as nat, 8), s4);
    regroup(h2, le(a.prev_log_index as nat, 8), s3);
    regroup(h1, wr_str(a.leader_id), s2);
    regroup(h0, le(a.term as nat, 8), s1);
    assert((h0 + append_tail(a)).skip(1) =~= append_tail(a));
}

proof fn append_head_read_back(a: AppendView)
    requires
        text_fits(a.leader_id),
        a.entries.len() <= u32::MAX,
    ensures
        st_append_head(append_tail(a)) == Step::Done(
            (AppendView { entries: Seq::empty(), ..a }, a.entries.len() as u32),
            wr_entries(a.entries) + Seq::<u8>::empty(),
        ),
{
    let s6 = wr_entries(a.entries) + Seq::<u8>::empty();
    let s5 = le(a.entries.len(), 4) + s6;
    let s4 = le(a.leader_commit as nat, 8) + s5;
    let s3 = le(a.prev_log_term as nat, 8) + s4;
    let s2 = le(a.prev_log_index as nat, 8) + s3;
    let s1 = wr_str(a.leader_id) + s2;
    u64_read_back(a.term, s1);
    st_str_read_back(a.leader_id, s2);
    u64_read_back(a.prev_log_index, s3);
    u64_read_back(a.prev_log_term, s4);
    u64_read_back(a.leader_commit, s5);
    u32_read_back(a.entries.len() as u32, s6);
}

proof fn append_read_back(a: AppendView)
    requires
        text_fits(a.leader_id),
        a.entries.len() <= u32::MAX,
        entries_fit(a.entries),
    ensures
        st_append(wr_request(RequestView::Append(a)).skip(1)) == Step::Done(a, Seq::<u8>::empty()),
{
    append_layout(a);
    append_head_read_back(a);
    entry_list_read_back(a.entries, Seq::empty());
}

/// What follows the operation code of a snapshot, field by field.
spec fn snapshot_tail(s: SnapshotView) -> Seq<u8> {
    le(s.epoch as nat, 8) + ((le(s.peers.len(), 8) + wr_texts(s.peers)) + ((le(s.entries.len(), 8)
        + wr_entries(s.entries)) + ((le(s.map.len(), 8) + wr_pairs(s.map)) + Seq::<u8>::empty())))
}

proof fn snapshot_layout(s: SnapshotView)
    ensures
        wr_request(RequestView::Install(s)).skip(1) == snapshot_tail(s),
{
    let e = Seq::<u8>::empty();
    let p1 = le(s.peers.len(), 8);
    let p2 = wr_texts(s.peers);
    let q1 = le(s.entries.len(), 8);
    let q2 = wr_entries(s.entries);
    let r1 = le(s.map.len(), 8);
    let r2 = wr_pairs(s.map);
    let h0 = seq![OP_SNAPSHOT];
    let h1 = h0 + le(s.epoch as nat, 8);
    let h2 = h1 + p1 + p2;
    let h3 = h2 + q1 + q2;
    let s3 = (r1 + r2) + e;
    let s2 = (q1 + q2) + s3;
    let s1 = (p1 + p2) + s2;
    assert(r1 + r2 =~= s3);
    regroup(h3, r1, r2);
    regroup(h2, q1, q2);
    regroup(h2, q1 + q2, s3);
    regroup(h1, p1, p2);
    regroup(h1, p1 + p2, s2);
    regroup(h0, le(s.epoch as nat, 8), s1);
    assert((h0 + snapshot_tail(s)).skip(1) =~= snapshot_tail(s));
}

proof fn snapshot_read_back(s: SnapshotView)
    requires
        texts_fit(s.peers),
        entries_fit(s.entries),
        pairs_fit(s.map),
    ensures
        st_snapshot(wr_request(RequestView::Install(s)).skip(1)) == Step::Done(
            s,
            Seq::<u8>::empty(),
        ),
{
    let e = Seq::<u8>::empty();
    let s3 = (le(s.map.len(), 8) + wr_pairs(s.map)) + e;
    let s2 = (le(s.entries.len(), 8) + wr_entries(s.entries)) + s3;
    let s1 = (le(s.peers.len(), 8) + wr_texts(s.peers)) + s2;
    snapshot_layout(s);
    u64_read_back(s.epoch, s1);
    text_list_read_back(s.peers, s2);
    entry_list_read_back(s.entries, s3);
    pair_list_read_back(s.map, e);
}

/// A node reads every request as it was sent.
#[verifier::spinoff_prover]
#[verifier::rlimit(60)]
pub proof fn request_read_back(r: RequestView)
    requires
        request_fits(r),
    ensures
        st_request(wr_request(r)) == Step::Done(r, Seq::<u8>::empty()),
{
    let e = Seq::<u8>::empty();
    let w = wr_request(r);
    match r {
        RequestView::Vote(v) => {
            vote_read_back(v);
        },
        RequestView::Append(a) => {
            append_read_back(a);
        },
        RequestView::Get(k) => {
            assert(w.skip(1) =~= wr_str(k) + e);
            st_str_read_back(k, e);
        },
        RequestView::Put(k, v) => {
            let p = PairView { key: k, val: v };
            assert(w.skip(1) =~= wr_pair(p) + e);
            pair_read_back(p, e);
        },
        RequestView::AddPeer(a) => {
            assert(w.skip(1) =~= wr_str(a) + e);
            st_str_read_back(a, e);
        },
        RequestView::RemovePeer(a) => {
            assert(w.skip(1) =~= wr_str(a) + e);
            st_str_read_back(a, e);
        },
        RequestView::Install(s) => {
            snapshot_read_back(s);
        },
        RequestView::Replicate(ep, ix, k, v) => {
            let en = EntryView { term: ep, index: ix, key: k, val: v };
            assert(w.skip(1) =~= wr_entry(en) + e);
            entry_read_back(en, e);
        },
        RequestView::Promote(ep) => {
            assert(w.skip(1) =~= le(ep as nat, 8) + e);
            u64_read_back(ep, e);
        },
        RequestView::Status => {
            assert(w.skip(1) =~= e);
        },
        RequestView::Unknown(_) => {},
    }
}

} // verus!
