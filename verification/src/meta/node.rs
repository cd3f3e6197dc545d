//! A metadata node: what it does on each request, on each tick of its timer,
//! and around a proposal that its peers have to acknowledge.
//!
//! Whoever owns the connections moves bytes and calls the steps; every
//! decision is taken here.
use crate::meta::catalog::{
    commits, commits_push, kv_distinct, kv_find, kv_put, kv_put_all, KvMap, LogEntry, NodeState,
    StateView,
};
use crate::meta::message::{
    parse_request, put_answer, st_request, wr_answer, wr_request, PairView, Request, RequestView,
    Snapshot, SnapshotView, OP_VOTE,
};
use crate::meta::persist::{load_catalog, load_raft, rd_catalog, rd_raft, restored, SavedRaft};
use crate::meta::raft::{
    add_prefix, clone_log, entries, find_peer, opt_text, position, remove_prefix,
    AppendEntriesResponse, EntryView, LogEntry as RaftLogEntry, RaftNode, RaftState, RaftView,
    RequestVoteResponse,
};
use crate::partial::{Got, Step};
use crate::text::{
    clone_strs, contains_str, has_prefix, join2, starts_with, str_eq, strs, strs_push,
};
use crate::wire::{le, put_str, put_u64, wr_str};
use vstd::prelude::*;

verus! {

pub struct MetaNode {
    pub addr: String,
    pub state: NodeState,
    pub raft: RaftNode,
}

#[verifier::ext_equal]
pub struct MetaView {
    pub addr: Seq<char>,
    pub state: StateView,
    pub raft: RaftView,
}

impl View for MetaNode {
    type V = MetaView;

    open spec fn view(&self) -> MetaView {
        MetaView { addr: self.addr@, state: self.state@, raft: self.raft@ }
    }
}

pub open spec fn reserved() -> Seq<char> {
    "__raft/"@
}

/// Whether an entry changes the membership.
pub open spec fn is_config(e: EntryView) -> bool {
    e.adds() is Some || e.removes() is Some
}

/// `es` without the entries whose keys are reserved.
pub open spec fn visible(es: Seq<EntryView>) -> Seq<EntryView>
    decreases es.len(),
{
    if es.len() == 0 {
        Seq::empty()
    } else {
        let v = visible(es.drop_last());
        if has_prefix(es.last().key, reserved()) { v } else { v.push(es.last()) }
    }
}

/// `peers` without one address.
pub open spec fn others(peers: Seq<Seq<char>>, addr: Seq<char>) -> Seq<Seq<char>>
    decreases peers.len(),
{
    if peers.len() == 0 {
        Seq::empty()
    } else {
        let v = others(peers.drop_last(), addr);
        if peers.last() == addr { v } else { v.push(peers.last()) }
    }
}

/// A node after the membership entries among `es`.
pub open spec fn configured_all(r: RaftView, es: Seq<EntryView>) -> RaftView
    decreases es.len(),
{
    if es.len() == 0 {
        r
    } else {
        let q = configured_all(r, es.drop_last());
        if is_config(es.last()) { q.configured(es.last()).0 } else { q }
    }
}

/// What answers a request.
pub enum OutcomeView {
    /// The request has not arrived in full.
    More,
    /// Nothing is sent back.
    Close,
    Reply(Seq<u8>),
    /// The entry goes to the peers first.
    Propose(ProposalView),
}

#[verifier::ext_equal]
pub struct ProposalView {
    pub entry: EntryView,
    pub peers: Seq<Seq<char>>,
    pub majority: nat,
    pub term: u64,
    pub epoch: u64,
    pub acks: nat,
}

/// An entry on its way to the peers, and how many members hold it.
pub struct Proposal {
    pub entry: RaftLogEntry,
    pub peers: Vec<String>,
    pub majority: usize,
    pub term: u64,
    pub epoch: u64,
    pub acks: usize,
}

impl View for Proposal {
    type V = ProposalView;

    open spec fn view(&self) -> ProposalView {
        ProposalView {
            entry: self.entry@,
            peers: strs(self.peers@),
            majority: self.majority as nat,
            term: self.term,
            epoch: self.epoch,
            acks: self.acks as nat,
        }
    }
}

pub enum Outcome {
    More,
    Close,
    Reply(Vec<u8>),
    Propose(Proposal),
}

impl View for Outcome {
    type V = OutcomeView;

    open spec fn view(&self) -> OutcomeView {
        match self {
            Outcome::More => OutcomeView::More,
            Outcome::Close => OutcomeView::Close,
            Outcome::Reply(b) => OutcomeView::Reply(b@),
            Outcome::Propose(p) => OutcomeView::Propose(p@),
        }
    }
}

pub open spec fn code(b: u8) -> Seq<u8> {
    seq![b]
}

pub open spec fn yes_with(n: u64) -> Seq<u8> {
    seq![1u8] + le(n as nat, 8)
}

pub open spec fn flag(b: bool) -> u8 {
    if b { 1 } else { 0 }
}

impl MetaView {
    /// After one committed entry, and the peer that is left to activate.
    pub open spec fn applied(self, e: EntryView) -> (MetaView, Option<Seq<char>>) {
        if is_config(e) {
            let (r, added) = self.raft.configured(e);
            (MetaView { raft: r, ..self }, added)
        } else if has_prefix(e.key, reserved()) {
            (self, None)
        } else {
            (
                MetaView {
                    state: StateView {
                        map: kv_put(self.state.map, e.key, e.val),
                        log: self.state.log.push(e),
                        ..self.state
                    },
                    ..self
                },
                None,
            )
        }
    }

    /// After committed entries in order, and the peers left to activate.
    pub open spec fn applied_all(self, es: Seq<EntryView>) -> (MetaView, Seq<Seq<char>>)
        decreases es.len(),
    {
        if es.len() == 0 {
            (self, Seq::empty())
        } else {
            let (m, added) = self.applied_all(es.drop_last());
            let (n, one) = m.applied(es.last());
            (
                n,
                match one {
                    Some(a) => added.push(a),
                    None => added,
                },
            )
        }
    }

    /// After everything committed was applied.
    pub open spec fn caught_up(self) -> (MetaView, Seq<Seq<char>>) {
        (MetaView { raft: self.raft.taken(), ..self }).applied_all(self.raft.ready())
    }

    /// A node that found itself following no longer leads the catalog.
    pub open spec fn stepped_down(self) -> MetaView {
        if self.raft.state == RaftState::Follower {
            MetaView { state: StateView { is_leader: false, ..self.state }, ..self }
        } else {
            self
        }
    }

    /// After a snapshot replaced its state.
    pub open spec fn installed(self, s: SnapshotView) -> MetaView {
        let last: u64 = if s.entries.len() == 0 { 0 } else { s.entries.last().index };
        let r = (RaftView {
            peers: others(s.peers, self.addr),
            log: s.entries,
            commit_index: last,
            last_applied: last,
            current_term: if self.raft.current_term >= s.epoch {
                self.raft.current_term
            } else {
                s.epoch
            },
            state: RaftState::Follower,
            ..self.raft
        }).election_reset();
        MetaView {
            raft: configured_all(r, s.entries),
            state: StateView {
                epoch: if self.state.epoch >= s.epoch { self.state.epoch } else { s.epoch },
                is_leader: false,
                awaiting_snapshot: false,
                map: kv_put_all(Seq::empty(), s.map),
                log: visible(s.entries),
                ..self.state
            },
            ..self
        }
    }

    /// What this node would send a new peer.
    pub open spec fn snapshot(self) -> SnapshotView {
        SnapshotView {
            epoch: self.state.epoch,
            peers: if self.raft.peers.contains(self.addr) {
                self.raft.peers
            } else {
                self.raft.peers.push(self.addr)
            },
            entries: self.raft.log,
            map: self.state.map,
        }
    }

    /// A leader appends the entry and asks its peers; anyone else refuses.
    pub open spec fn proposed(self, key: Seq<char>, val: Seq<char>) -> (MetaView, OutcomeView) {
        if self.raft.state != RaftState::Leader {
            (self, OutcomeView::Reply(code(2)))
        } else {
            (
                MetaView { raft: self.raft.appended(key, val), ..self },
                OutcomeView::Propose(
                    ProposalView {
                        entry: self.raft.next_entry(key, val),
                        peers: self.raft.peers,
                        majority: self.raft.quorum(),
                        term: self.raft.current_term,
                        epoch: self.state.epoch,
                        acks: 1,
                    },
                ),
            )
        }
    }

    /// After a follower was told to store an entry under an epoch.
    pub open spec fn replicated(
        self,
        epoch: u64,
        index: u64,
        key: Seq<char>,
        val: Seq<char>,
    ) -> (MetaView, OutcomeView) {
        let e = EntryView { term: epoch, index, key, val };
        if !self.state.alive {
            (self, OutcomeView::Close)
        } else if epoch < self.state.epoch {
            (self, OutcomeView::Reply(code(0)))
        } else {
            let st = StateView { epoch, is_leader: false, ..self.state };
            if is_config(e) {
                (
                    MetaView { state: st, raft: self.raft.configured(e).0, ..self },
                    OutcomeView::Reply(code(1)),
                )
            } else {
                (
                    MetaView {
                        state: StateView {
                            map: kv_put(st.map, key, val),
                            log: st.log.push(e),
                            ..st
                        },
                        ..self
                    },
                    OutcomeView::Reply(code(1)),
                )
            }
        }
    }

    /// What a request does and how it is answered.
    pub open spec fn served(self, q: RequestView) -> (MetaView, OutcomeView) {
        match q {
            RequestView::Vote(v) => {
                let m = (MetaView { raft: self.raft.voted(v), ..self }).stepped_down();
                (m, OutcomeView::Reply(wr_answer(m.raft.current_term, self.raft.grants(v))))
            },
            RequestView::Append(a) => {
                let m = (MetaView { raft: self.raft.received(a), ..self }).stepped_down();
                (
                    m.caught_up().0,
                    OutcomeView::Reply(wr_answer(m.raft.current_term, self.raft.accepts(a))),
                )
            },
            RequestView::Get(k) => if !self.state.alive {
                (self, OutcomeView::Close)
            } else {
                match kv_find(self.state.map, k) {
                    Some(v) => (self, OutcomeView::Reply(code(1) + wr_str(v))),
                    None => (self, OutcomeView::Reply(code(0))),
                }
            },
            RequestView::Put(k, v) => if !self.state.alive {
                (self, OutcomeView::Close)
            } else if !self.state.is_leader {
                (self, OutcomeView::Reply(code(2)))
            } else {
                self.proposed(k, v)
            },
            RequestView::AddPeer(a) => if !self.state.alive || !self.state.is_leader {
                (self, OutcomeView::Reply(code(2)))
            } else if self.raft.peers.contains(a) || a == self.addr {
                (self, OutcomeView::Reply(yes_with(0)))
            } else {
                self.proposed(add_prefix() + a, Seq::empty())
            },
            RequestView::RemovePeer(a) => if !self.state.alive || !self.state.is_leader {
                (self, OutcomeView::Reply(code(2)))
            } else {
                self.proposed(remove_prefix() + a, Seq::empty())
            },
            RequestView::Install(s) => (self.installed(s), OutcomeView::Reply(code(1))),
            RequestView::Replicate(e, i, k, v) => self.replicated(e, i, k, v),
            RequestView::Promote(e) => if !self.state.alive {
                (self, OutcomeView::Close)
            } else if e > self.state.epoch {
                (
                    MetaView { state: StateView { epoch: e, is_leader: true, ..self.state }, ..self },
                    OutcomeView::Reply(code(1)),
                )
            } else {
                (self, OutcomeView::Reply(code(0)))
            },
            RequestView::Status => (
                self,
                OutcomeView::Reply(
                    code(flag(self.state.is_leader)) + le(self.state.epoch as nat, 8) + le(
                        self.state.log.len(),
                        8,
                    ) + le(self.raft.peers.len(), 8),
                ),
            ),
            RequestView::Unknown(_) => (self, OutcomeView::Close),
        }
    }

    /// What the bytes that arrived on a connection do, and their answer. A
    /// node that waits for its snapshot refuses votes unread.
    pub open spec fn handled(self, buf: Seq<u8>) -> (MetaView, OutcomeView) {
        if buf.len() > 0 && buf[0] == OP_VOTE && self.state.awaiting_snapshot {
            (self, OutcomeView::Reply(wr_answer(0, false)))
        } else {
            match st_request(buf) {
                Step::More => (self, OutcomeView::More),
                Step::Bad => (self, OutcomeView::Close),
                Step::Done(q, _) => self.served(q),
            }
        }
    }

    /// How a proposal ends: with too few acknowledgements, or no longer
    /// leading, it fails; else the entry is committed and applied.
    pub open spec fn concluded(self, p: ProposalView) -> (MetaView, Result<Seq<Seq<char>>, u8>) {
        if p.acks < p.majority {
            (self, Err(3))
        } else if self.raft.state != RaftState::Leader {
            (self, Err(2))
        } else {
            let (m, added) = (MetaView {
                raft: RaftView { commit_index: p.entry.index, ..self.raft },
                ..self
            }).caught_up();
            (m, Ok(added))
        }
    }

    /// Without a peer that could not be brought up to date.
    pub open spec fn deactivated(self, addr: Seq<char>) -> MetaView {
        match position(self.raft.peers, addr) {
            None => self,
            Some(i) => MetaView {
                raft: RaftView {
                    peers: self.raft.peers.remove(i),
                    next_index: if i < self.raft.next_index.len() {
                        self.raft.next_index.remove(i)
                    } else {
                        self.raft.next_index
                    },
                    match_index: if i < self.raft.match_index.len() {
                        self.raft.match_index.remove(i)
                    } else {
                        self.raft.match_index
                    },
                    ..self.raft
                },
                ..self
            },
        }
    }

    /// After the timer ticked: an expired election timeout starts an election.
    pub open spec fn ticked(self) -> MetaView {
        if !self.state.awaiting_snapshot && self.raft.state == RaftState::Follower
            && self.raft.clock > self.raft.election_timeout {
            MetaView { raft: self.raft.campaigning(), ..self }
        } else {
            self
        }
    }

    /// After votes were counted: a candidate with a majority leads.
    pub open spec fn elected(self, votes: nat) -> MetaView {
        if votes >= self.raft.quorum() && self.raft.state == RaftState::Candidate {
            MetaView {
                raft: self.raft.leading(),
                state: StateView {
                    is_leader: true,
                    epoch: self.raft.current_term,
                    ..self.state
                },
                ..self
            }
        } else {
            self
        }
    }
}

/// A node before any request, with what it may have kept on disk. What cannot
/// be read counts as not kept, and members kept as none are replaced by those
/// given, unless the node waits to join.
pub open spec fn started(
    addr: Seq<char>,
    peers: Seq<Seq<char>>,
    awaiting: bool,
    raft_file: Option<Seq<u8>>,
    catalog_file: Option<Seq<u8>>,
) -> MetaView {
    let r = restored(addr, kept_raft(peers, raft_file));
    MetaView {
        addr,
        raft: if r.peers.len() == 0 && peers.len() > 0 && !awaiting {
            RaftView { peers, ..r }
        } else {
            r
        },
        state: match catalog_file {
            Some(b) => match rd_catalog(b) {
                Ok((epoch, map, log)) => first_state(
                    epoch,
                    kv_put_all(Seq::empty(), map),
                    log,
                    awaiting,
                ),
                Err(_) => first_state(1, Seq::empty(), Seq::empty(), awaiting),
            },
            None => first_state(1, Seq::empty(), Seq::empty(), awaiting),
        },
    }
}

pub open spec fn kept_raft(peers: Seq<Seq<char>>, raft_file: Option<Seq<u8>>) -> SavedRaft {
    match raft_file {
        Some(b) => match rd_raft(b) {
            Ok(s) => s,
            Err(_) => fresh(peers),
        },
        None => fresh(peers),
    }
}

/// The consensus state of a node that kept nothing.
pub open spec fn fresh(peers: Seq<Seq<char>>) -> SavedRaft {
    SavedRaft {
        current_term: 0,
        voted_for: None,
        commit_index: 0,
        last_applied: 0,
        peers,
        log: Seq::empty(),
    }
}

pub open spec fn first_state(
    epoch: u64,
    map: Seq<PairView>,
    log: Seq<EntryView>,
    awaiting: bool,
) -> StateView {
    StateView {
        epoch,
        is_leader: false,
        map,
        log,
        alive: true,
        awaiting_snapshot: awaiting,
    }
}

// ---------------------------------------------------------------------------
// Executable steps
// ---------------------------------------------------------------------------

/// An election under way.
pub struct Election {
    pub term: u64,
    pub peers: Vec<String>,
    pub votes: usize,
}

/// What a reply counts in an election of a term: one for a vote that was
/// granted in it.
pub open spec fn vote_in(term: u64, reply: Option<RequestVoteResponse>) -> nat {
    match reply {
        Some(r) => if r.vote_granted && r.term == term {
            1
        } else {
            0
        },
        None => 0,
    }
}

/// What a peer's replies count for a proposal of a term: one where its append
/// succeeded in it, or where it stored the entry.
pub open spec fn ack_in(term: u64, append: Option<AppendEntriesResponse>, stored: Option<u8>) -> nat {
    let appended = match append {
        Some(r) => r.success && r.term == term,
        None => false,
    };
    if appended || stored == Some(1u8) {
        1
    } else {
        0
    }
}

impl Election {
    /// Counts a peer's reply.
    pub fn record(&mut self, reply: Option<RequestVoteResponse>)
        requires
            old(self).votes < usize::MAX,
        ensures
            final(self).term == old(self).term,
            final(self).peers == old(self).peers,
            final(self).votes == old(self).votes + (if reply matches Some(r) && r.vote_granted
                && r.term == old(self).term {
                1int
            } else {
                0
            }),
            final(self).votes == old(self).votes + vote_in(old(self).term, reply),
    {
        if let Some(r) = reply {
            if r.vote_granted && r.term == self.term {
                self.votes = self.votes + 1;
            }
        }
    }
}

impl Proposal {
    /// Counts a peer that stored the entry, by either of its two replies.
    pub fn record(&mut self, append: Option<AppendEntriesResponse>, stored: Option<u8>)
        requires
            old(self).acks < usize::MAX,
        ensures
            final(self)@ == (ProposalView {
                acks: (old(self).acks + (if (append matches Some(r) && r.success && r.term
                    == old(self).term) || stored == Some(1u8) {
                    1int
                } else {
                    0
                })) as nat,
                ..old(self)@
            }),
            final(self)@.acks == old(self)@.acks + ack_in(old(self).term, append, stored),
    {
        let by_append: bool = match append {
            Some(r) => r.success && r.term == self.term,
            None => false,
        };
        let by_store: bool = match stored {
            Some(b) => b == 1,
            None => false,
        };
        if by_append || by_store {
            self.acks = self.acks + 1;
        }
    }
}

fn reply_code(b: u8) -> (r: Outcome)
    ensures
        r@ == OutcomeView::Reply(code(b)),
{
    let mut v: Vec<u8> = Vec::new();
    v.push(b);
    assert(v@ =~= code(b));
    Outcome::Reply(v)
}

fn visible_commits(es: &Vec<RaftLogEntry>) -> (r: Vec<LogEntry>)
    ensures
        commits(r@) == visible(entries(es@)),
{
    let ghost ev = entries(es@);
    let mut out: Vec<LogEntry> = Vec::new();
    let mut k: usize = 0;
    assert(ev.take(0) =~= Seq::<EntryView>::empty());
    assert(commits(out@) =~= Seq::<EntryView>::empty());
    while k < es.len()
        invariant
            k <= es@.len(),
            ev == entries(es@),
            commits(out@) == visible(ev.take(k as int)),
        decreases es@.len() - k,
    {
        proof {
            assert(ev.take(k + 1).drop_last() =~= ev.take(k as int));
            assert(ev.take(k + 1).last() == es@[k as int]@);
        }
        if !starts_with(es[k].key.as_str(), "__raft/") {
            let c: LogEntry = LogEntry {
                epoch: es[k].term,
                index: es[k].index,
                key: es[k].key.clone(),
                val: es[k].val.clone(),
            };
            proof {
                commits_push(out@, c);
            }
            out.push(c);
        }
        k += 1;
    }
    assert(ev.take(k as int) =~= ev);
    out
}

fn other_peers(peers: &Vec<String>, addr: &str) -> (r: Vec<String>)
    ensures
        strs(r@) == others(strs(peers@), addr@),
{
    let ghost pv = strs(peers@);
    let mut out: Vec<String> = Vec::new();
    let mut k: usize = 0;
    assert(pv.take(0) =~= Seq::<Seq<char>>::empty());
    assert(strs(out@) =~= Seq::<Seq<char>>::empty());
    while k < peers.len()
        invariant
            k <= peers@.len(),
            pv == strs(peers@),
            strs(out@) == others(pv.take(k as int), addr@),
        decreases peers@.len() - k,
    {
        proof {
            assert(pv.take(k + 1).drop_last() =~= pv.take(k as int));
            assert(pv.take(k + 1).last() == peers@[k as int]@);
        }
        if !str_eq(peers[k].as_str(), addr) {
            let p: String = peers[k].clone();
            proof {
                strs_push(out@, p);
            }
            out.push(p);
        }
        k += 1;
    }
    assert(pv.take(k as int) =~= pv);
    out
}

fn has_config(e: &RaftLogEntry) -> (r: bool)
    ensures
        r == is_config(e@),
{
    e.is_add_peer().is_some() || e.is_remove_peer().is_some()
}

impl MetaNode {
    /// A node with its initial members, the other ones.
    pub fn start(addr: &str, peers: Vec<String>) -> (n: MetaNode)
        ensures
            n@ == started(addr@, strs(peers@), false, None, None),
    {
        Self::start_inner(addr, peers, false, None, None)
    }

    /// A node that goes on from what it kept.
    pub fn start_persistent(
        addr: &str,
        peers: Vec<String>,
        raft_file: Option<&[u8]>,
        catalog_file: Option<&[u8]>,
    ) -> (n: MetaNode)
        ensures
            n@ == started(
                addr@,
                strs(peers@),
                false,
                file_view(raft_file),
                file_view(catalog_file),
            ),
            kv_distinct(n@.state.map),
    {
        Self::start_inner(addr, peers, false, raft_file, catalog_file)
    }

    /// A node that is in no cluster yet and does not elect itself.
    pub fn start_joiner(addr: &str) -> (n: MetaNode)
        ensures
            n@ == started(addr@, Seq::empty(), true, None, None),
    {
        let none: Vec<String> = Vec::new();
        assert(strs(none@) =~= Seq::<Seq<char>>::empty());
        Self::start_inner(addr, none, true, None, None)
    }

    pub fn start_joiner_persistent(
        addr: &str,
        raft_file: Option<&[u8]>,
        catalog_file: Option<&[u8]>,
    ) -> (n: MetaNode)
        ensures
            n@ == started(
                addr@,
                Seq::empty(),
                true,
                file_view(raft_file),
                file_view(catalog_file),
            ),
            kv_distinct(n@.state.map),
    {
        let none: Vec<String> = Vec::new();
        assert(strs(none@) =~= Seq::<Seq<char>>::empty());
        Self::start_inner(addr, none, true, raft_file, catalog_file)
    }

    fn start_inner(
        addr: &str,
        peers: Vec<String>,
        awaiting_snapshot: bool,
        raft_file: Option<&[u8]>,
        catalog_file: Option<&[u8]>,
    ) -> (n: MetaNode)
        ensures
            n@ == started(
                addr@,
                strs(peers@),
                awaiting_snapshot,
                file_view(raft_file),
                file_view(catalog_file),
            ),
            kv_distinct(n@.state.map),
    {
        let fresh_peers: Vec<String> = clone_strs(&peers);
        let mut raft: RaftNode = match raft_file {
            Some(b) => match load_raft(b, addr) {
                Ok(n) => n,
                Err(_) => RaftNode::new(addr.to_owned(), fresh_peers),
            },
            None => RaftNode::new(addr.to_owned(), fresh_peers),
        };
        let ghost r0 = restored(addr@, kept_raft(strs(peers@), file_view(raft_file)));
        assert(raft@ =~= r0);
        if raft.peers.len() == 0 && peers.len() > 0 && !awaiting_snapshot {
            raft.peers = peers;
        }
        let empty: (u64, KvMap, Vec<LogEntry>) = (1, KvMap::new(), Vec::new());
        assert(commits(empty.2@) =~= Seq::<EntryView>::empty());
        let (epoch, map, log) = match catalog_file {
            Some(b) => match load_catalog(b) {
                Ok(c) => c,
                Err(_) => empty,
            },
            None => empty,
        };
        let n: MetaNode = MetaNode {
            addr: addr.to_owned(),
            state: NodeState {
                epoch,
                is_leader: false,
                map,
                log,
                alive: true,
                awaiting_snapshot,
            },
            raft,
        };
        assert(n@ =~= started(
            addr@,
            strs(peers@),
            awaiting_snapshot,
            file_view(raft_file),
            file_view(catalog_file),
        ));
        n
    }

    pub fn kill(&mut self)
        ensures
            final(self)@ == (MetaView {
                state: StateView { alive: false, ..old(self)@.state },
                ..old(self)@
            }),
    {
        self.state.alive = false;
    }

    pub fn log_len(&self) -> (n: usize)
        ensures
            n == self@.state.log.len(),
    {
        self.state.log.len()
    }

    pub fn peers(&self) -> (r: Vec<String>)
        ensures
            strs(r@) == self@.raft.peers,
    {
        clone_strs(&self.raft.peers)
    }

    /// Applies one committed entry.
    fn apply(&mut self, e: &RaftLogEntry) -> (added: Option<String>)
        ensures
            final(self)@ == old(self)@.applied(e@).0,
            opt_text(added) == old(self)@.applied(e@).1,
    {
        if has_config(e) {
            self.raft.apply_config_entry(e)
        } else {
            if !starts_with(e.key.as_str(), "__raft/") {
                self.state.map.insert(e.key.clone(), e.val.clone());
                let c: LogEntry = LogEntry {
                    epoch: e.term,
                    index: e.index,
                    key: e.key.clone(),
                    val: e.val.clone(),
                };
                proof {
                    commits_push(self.state.log@, c);
                }
                self.state.log.push(c);
                assert(self@ =~= old(self)@.applied(e@).0);
            }
            None
        }
    }

    /// Applies everything that is committed and was not applied; returns the
    /// peers that are left to activate.
    pub fn apply_committed(&mut self) -> (added: Vec<String>)
        ensures
            final(self)@ == old(self)@.caught_up().0,
            strs(added@) == old(self)@.caught_up().1,
    {
        let es: Vec<RaftLogEntry> = self.raft.take_applicable();
        let ghost start = self@;
        let ghost ev = entries(es@);
        assert(start =~= MetaView { raft: old(self)@.raft.taken(), ..old(self)@ });
        let mut added: Vec<String> = Vec::new();
        let mut k: usize = 0;
        assert(ev.take(0) =~= Seq::<EntryView>::empty());
        assert(strs(added@) =~= Seq::<Seq<char>>::empty());
        while k < es.len()
            invariant
                k <= es@.len(),
                ev == entries(es@),
                self@ == start.applied_all(ev.take(k as int)).0,
                strs(added@) == start.applied_all(ev.take(k as int)).1,
            decreases es@.len() - k,
        {
            proof {
                assert(ev.take(k + 1).drop_last() =~= ev.take(k as int));
                assert(ev.take(k + 1).last() == es@[k as int]@);
            }
            if let Some(a) = self.apply(&es[k]) {
                proof {
                    strs_push(added@, a);
                }
                added.push(a);
            }
            k += 1;
        }
        assert(ev.take(k as int) =~= ev);
        added
    }

    /// Starts a proposal, or refuses it where this node does not lead.
    pub fn leader_propose(&mut self, key: String, val: String) -> (r: Outcome)
        requires
            old(self)@.raft.last_index() < u64::MAX,
        ensures
            final(self)@ == old(self)@.proposed(key@, val@).0,
            r@ == old(self)@.proposed(key@, val@).1,
    {
        if self.raft.state != RaftState::Leader {
            return reply_code(2);
        }
        let entry: RaftLogEntry = self.raft.append_entry(key, val);
        let p: Proposal = Proposal {
            entry,
            peers: clone_strs(&self.raft.peers),
            majority: self.raft.majority(),
            term: self.raft.current_term,
            epoch: self.state.epoch,
            acks: 1,
        };
        assert(p@ =~= old(self)@.proposed(key@, val@).1->Propose_0);
        Outcome::Propose(p)
    }

    /// Ends a proposal whose peers have answered. On success the entry is
    /// committed and applied, and the peers left to activate are returned; on
    /// failure the code to answer with.
    pub fn conclude(&mut self, p: &Proposal) -> (r: Result<Vec<String>, u8>)
        ensures
            final(self)@ == old(self)@.concluded(p@).0,
            match (r, old(self)@.concluded(p@).1) {
                (Ok(v), Ok(w)) => strs(v@) == w,
                (Err(a), Err(b)) => a == b,
                _ => false,
            },
    {
        if p.acks < p.majority {
            return Err(3);
        }
        if self.raft.state != RaftState::Leader {
            return Err(2);
        }
        self.raft.commit_index = p.entry.index;
        assert(self@ =~= MetaView {
            raft: RaftView { commit_index: p.entry.index, ..old(self)@.raft },
            ..old(self)@
        });
        Ok(self.apply_committed())
    }

    /// Lets a new peer count.
    pub fn activate(&mut self, addr: &str)
        ensures
            final(self)@ == (MetaView { raft: old(self)@.raft.activated(addr@), ..old(self)@ }),
    {
        self.raft.activate_peer(addr);
    }

    /// Takes a peer back out that could not be brought up to date.
    pub fn deactivate(&mut self, addr: &str)
        ensures
            final(self)@ == old(self)@.deactivated(addr@),
    {
        if let Some(i) = find_peer(&self.raft.peers, addr) {
            let ghost p = self.raft.peers@;
            let _ = self.raft.peers.remove(i);
            assert(strs(self.raft.peers@) =~= strs(p).remove(i as int));
            if i < self.raft.next_index.len() {
                let _ = self.raft.next_index.remove(i);
            }
            if i < self.raft.match_index.len() {
                let _ = self.raft.match_index.remove(i);
            }
            assert(self@ =~= old(self)@.deactivated(addr@));
        }
    }

    /// The snapshot that brings a new peer up to date.
    pub fn take_snapshot(&self) -> (s: Snapshot)
        ensures
            s@ == self@.snapshot(),
    {
        let mut all: Vec<String> = clone_strs(&self.raft.peers);
        if !contains_str(&all, self.addr.as_str()) {
            let a: String = self.addr.clone();
            proof {
                strs_push(all@, a);
            }
            all.push(a);
        }
        Snapshot {
            epoch: self.state.epoch,
            peers: all,
            entries: clone_log(&self.raft.log),
            map: self.state.map.copy_pairs(),
        }
    }

    /// Replaces this node's state by a snapshot.
    pub fn apply_snapshot(&mut self, s: Snapshot)
        ensures
            final(self)@ == old(self)@.installed(s@),
    {
        let ghost sv = s@;
        let log: Vec<LogEntry> = visible_commits(&s.entries);
        let config: Vec<RaftLogEntry> = clone_log(&s.entries);
        self.raft.peers = other_peers(&s.peers, self.addr.as_str());
        self.raft.log = s.entries;
        let last: u64 = self.raft.last_log_index();
        self.raft.commit_index = last;
        self.raft.last_applied = last;
        if self.raft.current_term < s.epoch {
            self.raft.current_term = s.epoch;
        }
        self.raft.state = RaftState::Follower;
        self.raft.reset_election_timeout();
        if self.state.epoch < s.epoch {
            self.state.epoch = s.epoch;
        }
        self.state.is_leader = false;
        self.state.awaiting_snapshot = false;
        self.state.map = KvMap::from_pairs(s.map);
        self.state.log = log;
        let ghost r0 = self.raft@;
        let ghost ev = entries(config@);
        let ghost st0 = self.state@;
        let mut k: usize = 0;
        assert(ev.take(0) =~= Seq::<EntryView>::empty());
        while k < config.len()
            invariant
                k <= config@.len(),
                ev == entries(config@),
                self.raft@ == configured_all(r0, ev.take(k as int)),
                self.state@ == st0,
                self.addr == old(self).addr,
            decreases config@.len() - k,
        {
            proof {
                assert(ev.take(k + 1).drop_last() =~= ev.take(k as int));
                assert(ev.take(k + 1).last() == config@[k as int]@);
            }
            if has_config(&config[k]) {
                let _ = self.raft.apply_config_entry(&config[k]);
            }
            k += 1;
        }
        assert(ev.take(k as int) =~= ev);
        assert(self@ =~= old(self)@.installed(sv));
    }

    fn serve_replicate(&mut self, epoch: u64, index: u64, key: String, val: String) -> (r: Outcome)
        ensures
            final(self)@ == old(self)@.replicated(epoch, index, key@, val@).0,
            r@ == old(self)@.replicated(epoch, index, key@, val@).1,
    {
        if !self.state.alive {
            return Outcome::Close;
        }
        if epoch < self.state.epoch {
            return reply_code(0);
        }
        self.state.epoch = epoch;
        self.state.is_leader = false;
        let e: RaftLogEntry = RaftLogEntry { term: epoch, index, key, val };
        if has_config(&e) {
            let _ = self.raft.apply_config_entry(&e);
        } else {
            self.state.map.insert(e.key.clone(), e.val.clone());
            let c: LogEntry = LogEntry { epoch, index, key: e.key, val: e.val };
            proof {
                commits_push(self.state.log@, c);
            }
            self.state.log.push(c);
        }
        assert(self@ =~= old(self)@.replicated(epoch, index, key@, val@).0);
        reply_code(1)
    }

    /// Acts on a request.
    pub fn serve(&mut self, q: Request) -> (r: Outcome)
        requires
            old(self)@.raft.last_index() < u64::MAX,
        ensures
            final(self)@ == old(self)@.served(q@).0,
            r@ == old(self)@.served(q@).1,
    {
        match q {
            Request::Vote(v) => {
                let resp: RequestVoteResponse = self.raft.handle_request_vote(&v);
                if self.raft.state == RaftState::Follower {
                    self.state.is_leader = false;
                }
                let mut out: Vec<u8> = Vec::new();
                put_answer(&mut out, resp.term, resp.vote_granted);
                assert(self@ =~= old(self)@.served(q@).0);
                assert(out@ =~= wr_answer(resp.term, resp.vote_granted));
                Outcome::Reply(out)
            },
            Request::Append(a) => {
                let resp: AppendEntriesResponse = self.raft.handle_append_entries(&a);
                if self.raft.state == RaftState::Follower {
                    self.state.is_leader = false;
                }
                assert(self@ =~= (MetaView {
                    raft: old(self)@.raft.received(a@),
                    ..old(self)@
                }).stepped_down());
                let _ = self.apply_committed();
                let mut out: Vec<u8> = Vec::new();
                put_answer(&mut out, resp.term, resp.success);
                assert(out@ =~= wr_answer(resp.term, resp.success));
                Outcome::Reply(out)
            },
            Request::Get(k) => {
                if !self.state.alive {
                    return Outcome::Close;
                }
                match self.state.map.get(k.as_str()) {
                    Some(v) => {
                        let mut out: Vec<u8> = Vec::new();
                        out.push(1);
                        assert(out@ =~= code(1));
                        put_str(&mut out, v.as_str());
                        Outcome::Reply(out)
                    },
                    None => reply_code(0),
                }
            },
            Request::Put(k, v) => {
                if !self.state.alive {
                    return Outcome::Close;
                }
                if !self.state.is_leader {
                    return reply_code(2);
                }
                self.leader_propose(k, v)
            },
            Request::AddPeer(a) => {
                if !self.state.alive || !self.state.is_leader {
                    return reply_code(2);
                }
                if contains_str(&self.raft.peers, a.as_str()) || str_eq(
                    a.as_str(),
                    self.addr.as_str(),
                ) {
                    return Outcome::Reply(yes_reply(0));
                }
                self.leader_propose(join2("__raft/add:", a.as_str()), String::new())
            },
            Request::RemovePeer(a) => {
                if !self.state.alive || !self.state.is_leader {
                    return reply_code(2);
                }
                self.leader_propose(join2("__raft/remove:", a.as_str()), String::new())
            },
            Request::Install(s) => {
                self.apply_snapshot(s);
                reply_code(1)
            },
            Request::Replicate(e, i, k, v) => self.serve_replicate(e, i, k, v),
            Request::Promote(e) => {
                if !self.state.alive {
                    return Outcome::Close;
                }
                if e > self.state.epoch {
                    self.state.epoch = e;
                    self.state.is_leader = true;
                    assert(self@ =~= old(self)@.served(q@).0);
                    reply_code(1)
                } else {
                    reply_code(0)
                }
            },
            Request::Status => {
                let mut out: Vec<u8> = Vec::new();
                out.push(
                    if self.state.is_leader {
                        1
                    } else {
                        0
                    },
                );
                assert(out@ =~= code(flag(self.state.is_leader)));
                put_u64(&mut out, self.state.epoch);
                put_u64(&mut out, self.state.log.len() as u64);
                put_u64(&mut out, self.raft.peers.len() as u64);
                Outcome::Reply(out)
            },
            Request::Unknown(_) => Outcome::Close,
        }
    }

    /// Acts on the bytes that have arrived on a connection so far.
    pub fn handle(&mut self, buf: &[u8]) -> (r: Outcome)
        requires
            old(self)@.raft.last_index() < u64::MAX,
        ensures
            final(self)@ == old(self)@.handled(buf@).0,
            r@ == old(self)@.handled(buf@).1,
    {
        if buf.len() > 0 && buf[0] == OP_VOTE && self.state.awaiting_snapshot {
            let mut out: Vec<u8> = Vec::new();
            put_answer(&mut out, 0, false);
            assert(out@ =~= wr_answer(0, false));
            return Outcome::Reply(out);
        }
        match parse_request(buf) {
            Got::More => Outcome::More,
            Got::Bad => Outcome::Close,
            Got::Done(q) => self.serve(q),
        }
    }

    /// The first half of a tick: starts an election if it is time, and returns
    /// it to a candidate, whose peers are then to be asked.
    pub fn tick(&mut self) -> (e: Option<Election>)
        requires
            old(self).raft.current_term < u64::MAX,
        ensures
            final(self)@ == old(self)@.ticked(),
            match e {
                Some(el) => !final(self).state.awaiting_snapshot && final(self)@.raft.state
                    == RaftState::Candidate && el.term == final(self)@.raft.current_term && strs(
                    el.peers@,
                ) == final(self)@.raft.peers && el.votes == 1,
                None => final(self).state.awaiting_snapshot || final(self)@.raft.state
                    != RaftState::Candidate,
            },
    {
        if self.state.awaiting_snapshot {
            return None;
        }
        if self.raft.state == RaftState::Follower && self.raft.election_timeout_expired() {
            self.raft.start_election();
        }
        if self.raft.state == RaftState::Candidate {
            Some(
                Election {
                    term: self.raft.current_term,
                    peers: clone_strs(&self.raft.peers),
                    votes: 1,
                },
            )
        } else {
            None
        }
    }

    /// Takes the votes of an election into account; tells whether this node
    /// won.
    pub fn conclude_election(&mut self, e: &Election) -> (won: bool)
        ensures
            final(self)@ == old(self)@.elected(e.votes as nat),
            won == (e.votes >= old(self)@.raft.quorum() && old(self)@.raft.state
                == RaftState::Candidate),
    {
        if e.votes >= self.raft.majority() && self.raft.state == RaftState::Candidate {
            self.raft.become_leader();
            self.state.is_leader = true;
            self.state.epoch = self.raft.current_term;
            assert(self@ =~= old(self)@.elected(e.votes as nat));
            true
        } else {
            false
        }
    }

    /// The last part of a tick: the heartbeat to send to each peer, if this
    /// node leads and it is time.
    pub fn heartbeat_due(&self) -> (r: Option<Vec<u8>>)
        ensures
            match r {
                Some(m) => !self.state.awaiting_snapshot && self@.raft.state == RaftState::Leader
                    && self@.raft.clock > self@.raft.heartbeat_timeout && m@ == wr_request(
                    RequestView::Append(
                        crate::meta::raft::AppendView {
                            term: self@.raft.current_term,
                            leader_id: self@.raft.id,
                            prev_log_index: 0,
                            prev_log_term: 0,
                            entries: Seq::empty(),
                            leader_commit: self@.raft.commit_index,
                        },
                    ),
                ),
                None => self.state.awaiting_snapshot || self@.raft.state != RaftState::Leader
                    || self@.raft.clock <= self@.raft.heartbeat_timeout,
            },
    {
        if self.state.awaiting_snapshot {
            return None;
        }
        if self.raft.state == RaftState::Leader && self.raft.heartbeat_timeout_expired() {
            Some(
                RaftNode::send_heartbeat(
                    self.raft.id.as_str(),
                    self.raft.current_term,
                    self.raft.commit_index,
                ),
            )
        } else {
            None
        }
    }
}

/// The reply that says yes, with an index.
pub fn yes_reply(index: u64) -> (out: Vec<u8>)
    ensures
        out@ == yes_with(index),
{
    let mut out: Vec<u8> = Vec::new();
    out.push(1);
    assert(out@ =~= seq![1u8]);
    put_u64(&mut out, index);
    out
}

pub open spec fn file_view(f: Option<&[u8]>) -> Option<Seq<u8>> {
    match f {
        None => None,
        Some(b) => Some(b@),
    }
}

} // verus!
