//! Consensus: leader election, log replication and membership changes.
//!
//! Membership changes one peer at a time, through log entries with reserved
//! keys. Time enters through the node's clock: whoever drives the node tells
//! it the time, and deadlines are points on that clock.
use crate::text::{contains_str, join2, str_eq, strip_prefix, strs, strs_push, without_prefix};
use vstd::prelude::*;
use vstd::utf8::encode_utf8;

verus! {

#[derive(Clone, Copy, Debug, PartialEq, Eq, Structural)]
pub enum RaftState {
    Follower,
    Candidate,
    Leader,
}

/// A log entry. A key that starts with the add or the remove prefix changes
/// the membership; the address follows the prefix.
#[derive(Clone, Debug)]
pub struct LogEntry {
    pub term: u64,
    pub index: u64,
    pub key: String,
    pub val: String,
}

#[verifier::ext_equal]
pub struct EntryView {
    pub term: u64,
    pub index: u64,
    pub key: Seq<char>,
    pub val: Seq<char>,
}

impl View for LogEntry {
    type V = EntryView;

    open spec fn view(&self) -> EntryView {
        EntryView { term: self.term, index: self.index, key: self.key@, val: self.val@ }
    }
}

pub open spec fn entries(v: Seq<LogEntry>) -> Seq<EntryView> {
    Seq::new(v.len(), |i: int| v[i]@)
}

pub proof fn entries_push(v: Seq<LogEntry>, e: LogEntry)
    ensures
        entries(v.push(e)) == entries(v).push(e@),
{
    assert(entries(v.push(e)) =~= entries(v).push(e@));
}

pub open spec fn add_prefix() -> Seq<char> {
    "__raft/add:"@
}

pub open spec fn remove_prefix() -> Seq<char> {
    "__raft/remove:"@
}

impl EntryView {
    /// The peer that this entry adds.
    pub open spec fn adds(self) -> Option<Seq<char>> {
        without_prefix(self.key, add_prefix())
    }

    /// The peer that this entry removes.
    pub open spec fn removes(self) -> Option<Seq<char>> {
        without_prefix(self.key, remove_prefix())
    }
}

/// No entry both adds and removes.
pub proof fn adds_or_removes(e: EntryView)
    ensures
        !(e.adds() is Some && e.removes() is Some),
{
    reveal_strlit("__raft/add:");
    reveal_strlit("__raft/remove:");
    if e.adds() is Some && e.removes() is Some {
        assert(e.key.take(add_prefix().len() as int)[7] == 'a');
        assert(e.key.take(remove_prefix().len() as int)[7] == 'r');
    }
}

/// The entry that adds, and the one that removes, a peer name that peer.
pub proof fn config_entries_name_their_peer(term: u64, index: u64, addr: Seq<char>)
    ensures
        (EntryView { term, index, key: add_prefix() + addr, val: Seq::empty() }).adds() == Some(
            addr,
        ),
        (EntryView { term, index, key: remove_prefix() + addr, val: Seq::empty() }).removes()
            == Some(addr),
{
    assert((add_prefix() + addr).take(add_prefix().len() as int) =~= add_prefix());
    assert((add_prefix() + addr).skip(add_prefix().len() as int) =~= addr);
    assert((remove_prefix() + addr).take(remove_prefix().len() as int) =~= remove_prefix());
    assert((remove_prefix() + addr).skip(remove_prefix().len() as int) =~= addr);
}

impl LogEntry {
    pub fn is_add_peer(&self) -> (r: Option<String>)
        ensures
            match self@.adds() {
                None => r is None,
                Some(a) => r is Some && r->0@ == a,
            },
    {
        strip_prefix(self.key.as_str(), "__raft/add:")
    }

    pub fn is_remove_peer(&self) -> (r: Option<String>)
        ensures
            match self@.removes() {
                None => r is None,
                Some(a) => r is Some && r->0@ == a,
            },
    {
        strip_prefix(self.key.as_str(), "__raft/remove:")
    }

    pub fn add_peer(term: u64, index: u64, addr: &str) -> (e: LogEntry)
        ensures
            e@ == (EntryView { term, index, key: add_prefix() + addr@, val: Seq::empty() }),
    {
        LogEntry { term, index, key: join2("__raft/add:", addr), val: String::new() }
    }

    pub fn remove_peer(term: u64, index: u64, addr: &str) -> (e: LogEntry)
        ensures
            e@ == (EntryView { term, index, key: remove_prefix() + addr@, val: Seq::empty() }),
    {
        LogEntry { term, index, key: join2("__raft/remove:", addr), val: String::new() }
    }

    pub fn copy(&self) -> (e: LogEntry)
        ensures
            e == *self,
    {
        LogEntry {
            term: self.term,
            index: self.index,
            key: self.key.clone(),
            val: self.val.clone(),
        }
    }
}

/// Copies a log.
pub fn clone_log(v: &Vec<LogEntry>) -> (r: Vec<LogEntry>)
    ensures
        r@ == v@,
{
    let mut out: Vec<LogEntry> = Vec::new();
    let mut k: usize = 0;
    while k < v.len()
        invariant
            k <= v@.len(),
            out@ == v@.take(k as int),
        decreases v@.len() - k,
    {
        out.push(v[k].copy());
        k += 1;
        assert(out@ =~= v@.take(k as int));
    }
    assert(v@.take(k as int) =~= v@);
    out
}

#[derive(Clone, Debug)]
pub struct RequestVote {
    pub term: u64,
    pub candidate_id: String,
    pub last_log_index: u64,
    pub last_log_term: u64,
}

#[derive(Clone, Copy, Debug, PartialEq, Eq, Structural)]
pub struct RequestVoteResponse {
    pub term: u64,
    pub vote_granted: bool,
}

#[derive(Clone, Debug)]
pub struct AppendEntries {
    pub term: u64,
    pub leader_id: String,
    pub prev_log_index: u64,
    pub prev_log_term: u64,
    pub entries: Vec<LogEntry>,
    pub leader_commit: u64,
}

#[derive(Clone, Copy, Debug, PartialEq, Eq, Structural)]
pub struct AppendEntriesResponse {
    pub term: u64,
    pub success: bool,
}

#[verifier::ext_equal]
pub struct VoteView {
    pub term: u64,
    pub candidate_id: Seq<char>,
    pub last_log_index: u64,
    pub last_log_term: u64,
}

impl View for RequestVote {
    type V = VoteView;

    open spec fn view(&self) -> VoteView {
        VoteView {
            term: self.term,
            candidate_id: self.candidate_id@,
            last_log_index: self.last_log_index,
            last_log_term: self.last_log_term,
        }
    }
}

#[verifier::ext_equal]
pub struct AppendView {
    pub term: u64,
    pub leader_id: Seq<char>,
    pub prev_log_index: u64,
    pub prev_log_term: u64,
    pub entries: Seq<EntryView>,
    pub leader_commit: u64,
}

impl View for AppendEntries {
    type V = AppendView;

    open spec fn view(&self) -> AppendView {
        AppendView {
            term: self.term,
            leader_id: self.leader_id@,
            prev_log_index: self.prev_log_index,
            prev_log_term: self.prev_log_term,
            entries: entries(self.entries@),
            leader_commit: self.leader_commit,
        }
    }
}

pub struct RaftNode {
    pub id: String,
    /// The other members of the cluster.
    pub peers: Vec<String>,
    pub current_term: u64,
    pub voted_for: Option<String>,
    pub log: Vec<LogEntry>,
    pub state: RaftState,
    pub commit_index: u64,
    pub last_applied: u64,
    pub next_index: Vec<u64>,
    pub match_index: Vec<u64>,
    /// Deadlines, in milliseconds on the node's clock.
    pub election_timeout: u64,
    pub heartbeat_timeout: u64,
    /// The time, in milliseconds, as far as the node was told.
    pub clock: u64,
}

#[verifier::ext_equal]
pub struct RaftView {
    pub id: Seq<char>,
    pub peers: Seq<Seq<char>>,
    pub current_term: u64,
    pub voted_for: Option<Seq<char>>,
    pub log: Seq<EntryView>,
    pub state: RaftState,
    pub commit_index: u64,
    pub last_applied: u64,
    pub next_index: Seq<u64>,
    pub match_index: Seq<u64>,
    pub election_timeout: u64,
    pub heartbeat_timeout: u64,
    pub clock: u64,
}

pub open spec fn opt_text(s: Option<String>) -> Option<Seq<char>> {
    match s {
        None => None,
        Some(t) => Some(t@),
    }
}

impl View for RaftNode {
    type V = RaftView;

    open spec fn view(&self) -> RaftView {
        RaftView {
            id: self.id@,
            peers: strs(self.peers@),
            current_term: self.current_term,
            voted_for: opt_text(self.voted_for),
            log: entries(self.log@),
            state: self.state,
            commit_index: self.commit_index,
            last_applied: self.last_applied,
            next_index: self.next_index@,
            match_index: self.match_index@,
            election_timeout: self.election_timeout,
            heartbeat_timeout: self.heartbeat_timeout,
            clock: self.clock,
        }
    }
}

// ---------------------------------------------------------------------------
// What each step does to a node
// ---------------------------------------------------------------------------

/// The 64-bit hash of an identity: bytes are mixed in by exclusive or and a
/// multiplication.
pub open spec fn id_hash(bytes: Seq<u8>) -> u64
    decreases bytes.len(),
{
    if bytes.len() == 0 {
        0xcbf29ce484222325
    } else {
        (id_hash(bytes.drop_last()) ^ (bytes.last() as u64)).wrapping_mul(0x100000001b3)
    }
}

/// An identity's share of the election timeout.
pub open spec fn jitter(id: Seq<char>) -> u64 {
    let h = id_hash(encode_utf8(id));
    (h % 400 + (h / 256) % 50) as u64
}

/// `ms` after `clock`; the clock's end if that is past it.
pub open spec fn later(clock: u64, ms: int) -> u64 {
    if clock + ms <= u64::MAX { (clock + ms) as u64 } else { u64::MAX }
}

/// The index that follows a log of `n` entries.
pub open spec fn after_log(n: nat) -> u64 {
    if n < u64::MAX { (n + 1) as u64 } else { u64::MAX }
}

/// The log after `es` were placed at position `at`: an entry whose term
/// differs cuts the log off there, and one past its end extends it.
pub open spec fn merged(log: Seq<EntryView>, at: int, es: Seq<EntryView>) -> Seq<EntryView>
    decreases es.len(),
{
    if es.len() == 0 {
        log
    } else {
        let cut = if at < log.len() && log[at].term != es[0].term { log.take(at) } else { log };
        let grown = if at >= cut.len() { cut.push(es[0]) } else { cut };
        merged(grown, at + 1, es.skip(1))
    }
}

/// The entries with the indices after `from` up to `to`, in order; an index
/// without an entry is passed over.
pub open spec fn applicable(log: Seq<EntryView>, from: int, to: int) -> Seq<EntryView>
    decreases to - from,
{
    if from >= to {
        Seq::empty()
    } else {
        match first_with_index(log, from + 1) {
            Some(e) => seq![e] + applicable(log, from + 1, to),
            None => applicable(log, from + 1, to),
        }
    }
}

/// The first entry with an index.
pub open spec fn first_with_index(log: Seq<EntryView>, index: int) -> Option<EntryView>
    decreases log.len(),
{
    if log.len() == 0 {
        None
    } else if log[0].index == index {
        Some(log[0])
    } else {
        first_with_index(log.skip(1), index)
    }
}

/// Where a peer first stands in a list.
pub open spec fn position(peers: Seq<Seq<char>>, addr: Seq<char>) -> Option<int> {
    peers.index_of_first(addr)
}

impl RaftView {
    pub open spec fn last_index(self) -> u64 {
        if self.log.len() == 0 { 0 } else { self.log.last().index }
    }

    pub open spec fn last_term(self) -> u64 {
        if self.log.len() == 0 { 0 } else { self.log.last().term }
    }

    pub open spec fn size(self) -> nat {
        self.peers.len() + 1
    }

    pub open spec fn quorum(self) -> nat {
        self.size() / 2 + 1
    }

    pub open spec fn election_reset(self) -> RaftView {
        RaftView { election_timeout: later(self.clock, 250 + jitter(self.id)), ..self }
    }

    pub open spec fn heartbeat_reset(self) -> RaftView {
        RaftView { heartbeat_timeout: later(self.clock, 50), ..self }
    }

    pub open spec fn campaigning(self) -> RaftView {
        (RaftView {
            state: RaftState::Candidate,
            current_term: (self.current_term + 1) as u64,
            voted_for: Some(self.id),
            ..self
        }).election_reset()
    }

    pub open spec fn leading(self) -> RaftView {
        (RaftView {
            state: RaftState::Leader,
            next_index: Seq::new(self.peers.len(), |i: int| after_log(self.log.len())),
            match_index: Seq::new(self.peers.len(), |i: int| 0u64),
            ..self
        }).heartbeat_reset()
    }

    pub open spec fn next_entry(self, key: Seq<char>, val: Seq<char>) -> EntryView {
        EntryView { term: self.current_term, index: (self.last_index() + 1) as u64, key, val }
    }

    pub open spec fn appended(self, key: Seq<char>, val: Seq<char>) -> RaftView {
        RaftView { log: self.log.push(self.next_entry(key, val)), ..self }
    }

    /// Whether a peer could still be added.
    pub open spec fn is_new(self, addr: Seq<char>) -> bool {
        addr != self.id && !self.peers.contains(addr)
    }

    pub open spec fn activated(self, addr: Seq<char>) -> RaftView {
        if !self.is_new(addr) {
            self
        } else if self.state == RaftState::Leader {
            RaftView {
                peers: self.peers.push(addr),
                next_index: self.next_index.push(after_log(self.log.len())),
                match_index: self.match_index.push(0),
                ..self
            }
        } else {
            RaftView { peers: self.peers.push(addr), ..self }
        }
    }

    /// Without the peer at position `i`; a leader drops what it tracked of it.
    pub open spec fn without_peer(self, i: int) -> RaftView {
        if self.state == RaftState::Leader && i < self.next_index.len() && i
            < self.match_index.len() {
            RaftView {
                peers: self.peers.remove(i),
                next_index: self.next_index.remove(i),
                match_index: self.match_index.remove(i),
                ..self
            }
        } else {
            RaftView { peers: self.peers.remove(i), ..self }
        }
    }

    /// The node after a committed membership entry, and the peer that a leader
    /// has yet to bring up to date before it counts.
    pub open spec fn configured(self, e: EntryView) -> (RaftView, Option<Seq<char>>) {
        match e.adds() {
            Some(addr) => if !self.is_new(addr) {
                (self, None)
            } else if self.state == RaftState::Leader {
                (self, Some(addr))
            } else {
                (RaftView { peers: self.peers.push(addr), ..self }, None)
            },
            None => match e.removes() {
                None => (self, None),
                Some(addr) => {
                    let kept = match position(self.peers, addr) {
                        Some(i) => self.without_peer(i),
                        None => self,
                    };
                    if addr == self.id {
                        (RaftView { state: RaftState::Follower, ..kept }, None)
                    } else {
                        (kept, None)
                    }
                },
            },
        }
    }

    /// The node once it has seen a term: a later one than its own makes it a
    /// follower that has not voted.
    pub open spec fn seen(self, term: u64) -> RaftView {
        if term > self.current_term {
            RaftView { current_term: term, state: RaftState::Follower, voted_for: None, ..self }
        } else {
            self
        }
    }

    /// Whether a candidate's log is at least as recent as this node's.
    pub open spec fn up_to_date(self, req: VoteView) -> bool {
        req.last_log_term > self.last_term() || (req.last_log_term == self.last_term()
            && req.last_log_index >= self.last_index())
    }

    pub open spec fn grants(self, req: VoteView) -> bool {
        let s = self.seen(req.term);
        &&& req.term >= s.current_term
        &&& s.voted_for is None || s.voted_for == Some(req.candidate_id)
        &&& s.up_to_date(req)
    }

    pub open spec fn voted(self, req: VoteView) -> RaftView {
        let s = self.seen(req.term);
        if self.grants(req) {
            (RaftView { voted_for: Some(req.candidate_id), ..s }).election_reset()
        } else {
            s
        }
    }

    /// Whether the log holds the entry that a leader says comes before its own.
    pub open spec fn holds_prev(self, req: AppendView) -> bool {
        req.prev_log_index == 0 || (req.prev_log_index <= self.log.len()
            && self.log[req.prev_log_index - 1].term == req.prev_log_term)
    }

    pub open spec fn accepts(self, req: AppendView) -> bool {
        req.term >= self.current_term && self.holds_prev(req)
    }

    pub open spec fn received(self, req: AppendView) -> RaftView {
        let s = self.seen(req.term);
        if req.term < s.current_term {
            s
        } else {
            let f = RaftView { state: RaftState::Follower, ..s.election_reset() };
            if !self.holds_prev(req) {
                f
            } else {
                let g = RaftView {
                    log: merged(f.log, req.prev_log_index as int, req.entries),
                    ..f
                };
                if req.leader_commit > g.commit_index {
                    RaftView {
                        commit_index: if req.leader_commit <= g.last_index() {
                            req.leader_commit
                        } else {
                            g.last_index()
                        },
                        ..g
                    }
                } else {
                    g
                }
            }
        }
    }

    pub open spec fn ready(self) -> Seq<EntryView> {
        applicable(self.log, self.last_applied as int, self.commit_index as int)
    }

    pub open spec fn taken(self) -> RaftView {
        if self.last_applied < self.commit_index {
            RaftView { last_applied: self.commit_index, ..self }
        } else {
            self
        }
    }
}

// ---------------------------------------------------------------------------
// The node
// ---------------------------------------------------------------------------

pub fn add_ms(clock: u64, ms: u64) -> (r: u64)
    ensures
        r == later(clock, ms as int),
{
    if clock <= u64::MAX - ms {
        clock + ms
    } else {
        u64::MAX
    }
}

fn next_after(n: usize) -> (r: u64)
    ensures
        r == after_log(n as nat),
{
    if (n as u64) < u64::MAX {
        n as u64 + 1
    } else {
        u64::MAX
    }
}

fn zeros(n: usize) -> (r: Vec<u64>)
    ensures
        r@ == Seq::new(n as nat, |i: int| 0u64),
{
    let r: Vec<u64> = vec![0u64; n];
    assert(r@ =~= Seq::new(n as nat, |i: int| 0u64));
    r
}

/// Where a peer first stands in a list.
pub fn find_peer(peers: &Vec<String>, addr: &str) -> (r: Option<usize>)
    ensures
        match r {
            None => position(strs(peers@), addr@) is None && !strs(peers@).contains(addr@),
            Some(i) => i < peers@.len() && position(strs(peers@), addr@) == Some(i as int)
                && strs(peers@).contains(addr@) && strs(peers@)[i as int] == addr@,
        },
{
    let ghost t = strs(peers@);
    let mut i: usize = 0;
    while i < peers.len()
        invariant
            i <= peers@.len(),
            t == strs(peers@),
            forall|j: int| 0 <= j < i ==> #[trigger] t[j] != addr@,
        decreases peers@.len() - i,
    {
        if str_eq(peers[i].as_str(), addr) {
            proof {
                assert(t[i as int] == addr@);
                t.index_of_first_ensures(addr@);
            }
            return Some(i);
        }
        i += 1;
    }
    proof {
        t.index_of_first_ensures(addr@);
    }
    None
}

proof fn strs_remove(v: Seq<String>, i: int)
    requires
        0 <= i < v.len(),
    ensures
        strs(v.remove(i)) == strs(v).remove(i),
{
    assert(strs(v.remove(i)) =~= strs(v).remove(i));
}

/// Copies a log entry list element that a caller borrowed.
fn find_entry(log: &Vec<LogEntry>, index: u64) -> (r: Option<usize>)
    ensures
        match r {
            None => first_with_index(entries(log@), index as int) is None,
            Some(i) => i < log@.len() && first_with_index(entries(log@), index as int) == Some(
                log@[i as int]@,
            ),
        },
{
    let ghost l = entries(log@);
    let mut i: usize = 0;
    assert(l.skip(0) =~= l);
    while i < log.len()
        invariant
            i <= log@.len(),
            l == entries(log@),
            first_with_index(l, index as int) == first_with_index(l.skip(i as int), index as int),
        decreases log@.len() - i,
    {
        assert(l.skip(i as int)[0] == log@[i as int]@);
        if log[i].index == index {
            return Some(i);
        }
        assert(l.skip(i as int).skip(1) =~= l.skip(i + 1));
        i += 1;
    }
    None
}

impl RaftNode {
    pub fn new(id: String, peers: Vec<String>) -> (n: RaftNode)
        ensures
            n@ == (RaftView {
                id: id@,
                peers: strs(peers@),
                current_term: 0,
                voted_for: None,
                log: Seq::empty(),
                state: RaftState::Follower,
                commit_index: 0,
                last_applied: 0,
                next_index: Seq::new(peers@.len(), |i: int| 0u64),
                match_index: Seq::new(peers@.len(), |i: int| 0u64),
                election_timeout: (250 + jitter(id@)) as u64,
                heartbeat_timeout: 50,
                clock: 0,
            }),
    {
        let timeout: u64 = 250 + Self::jitter_ms(id.as_str());
        let n: usize = peers.len();
        let node: RaftNode = RaftNode {
            id,
            peers,
            current_term: 0,
            voted_for: None,
            log: Vec::new(),
            state: RaftState::Follower,
            commit_index: 0,
            last_applied: 0,
            next_index: zeros(n),
            match_index: zeros(n),
            election_timeout: timeout,
            heartbeat_timeout: 50,
            clock: 0,
        };
        assert(entries(node.log@) =~= Seq::<EntryView>::empty());
        node
    }

    fn jitter_ms(id: &str) -> (r: u64)
        ensures
            r == jitter(id@),
            r < 450,
    {
        let b: &[u8] = id.as_bytes();
        let mut h: u64 = 0xcbf29ce484222325;
        let mut k: usize = 0;
        assert(b@.take(0) =~= Seq::<u8>::empty());
        while k < b.len()
            invariant
                k <= b@.len(),
                h == id_hash(b@.take(k as int)),
            decreases b@.len() - k,
        {
            assert(b@.take(k + 1).drop_last() =~= b@.take(k as int));
            h = (h ^ (b[k] as u64)).wrapping_mul(0x100000001b3);
            k += 1;
        }
        assert(b@.take(k as int) =~= b@);
        h % 400 + (h / 256) % 50
    }

    /// Tells the node the time. Time does not run backwards.
    pub fn set_clock(&mut self, now: u64)
        ensures
            final(self)@ == (RaftView {
                clock: if now > old(self).clock { now } else { old(self).clock },
                ..old(self)@
            }),
    {
        if now > self.clock {
            self.clock = now;
        }
    }

    pub fn cluster_size(&self) -> (n: usize)
        requires
            self.peers@.len() < usize::MAX,
        ensures
            n == self@.size(),
    {
        self.peers.len() + 1
    }

    pub fn majority(&self) -> (n: usize)
        ensures
            n == self@.quorum(),
    {
        let n: usize = self.peers.len();
        n / 2 + n % 2 + 1
    }

    pub fn election_timeout_expired(&self) -> (r: bool)
        ensures
            r == (self.clock > self.election_timeout),
    {
        self.clock > self.election_timeout
    }

    pub fn heartbeat_timeout_expired(&self) -> (r: bool)
        ensures
            r == (self.clock > self.heartbeat_timeout),
    {
        self.clock > self.heartbeat_timeout
    }

    pub fn reset_election_timeout(&mut self)
        ensures
            final(self)@ == old(self)@.election_reset(),
    {
        let timeout: u64 = 250 + Self::jitter_ms(self.id.as_str());
        self.election_timeout = add_ms(self.clock, timeout);
    }

    pub fn reset_heartbeat_timeout(&mut self)
        ensures
            final(self)@ == old(self)@.heartbeat_reset(),
    {
        self.heartbeat_timeout = add_ms(self.clock, 50);
    }

    pub fn start_election(&mut self)
        requires
            old(self).current_term < u64::MAX,
        ensures
            final(self)@ == old(self)@.campaigning(),
    {
        self.state = RaftState::Candidate;
        self.current_term = self.current_term + 1;
        self.voted_for = Some(self.id.clone());
        self.reset_election_timeout();
    }

    pub fn become_leader(&mut self)
        ensures
            final(self)@ == old(self)@.leading(),
    {
        self.state = RaftState::Leader;
        let n: usize = self.peers.len();
        let next: u64 = next_after(self.log.len());
        self.next_index = vec![next; n];
        self.match_index = zeros(n);
        assert(self.next_index@ =~= Seq::new(n as nat, |i: int| next));
        self.reset_heartbeat_timeout();
        assert(self@ =~= old(self)@.leading());
    }

    pub fn last_log_index(&self) -> (r: u64)
        ensures
            r == self@.last_index(),
    {
        let n: usize = self.log.len();
        if n == 0 {
            0
        } else {
            self.log[n - 1].index
        }
    }

    pub fn last_log_term(&self) -> (r: u64)
        ensures
            r == self@.last_term(),
    {
        let n: usize = self.log.len();
        if n == 0 {
            0
        } else {
            self.log[n - 1].term
        }
    }

    /// Appends an entry of the current term.
    pub fn append_entry(&mut self, key: String, val: String) -> (e: LogEntry)
        requires
            old(self)@.last_index() < u64::MAX,
        ensures
            e@ == old(self)@.next_entry(key@, val@),
            final(self)@ == old(self)@.appended(key@, val@),
    {
        let index: u64 = self.last_log_index() + 1;
        let e: LogEntry = LogEntry { term: self.current_term, index, key, val };
        let c: LogEntry = e.copy();
        proof {
            entries_push(self.log@, c);
        }
        self.log.push(c);
        assert(self@ =~= old(self)@.appended(key@, val@));
        e
    }

    /// Takes a committed membership entry into account. A follower adds a peer
    /// at once; a leader returns it, to be activated once it has a snapshot.
    pub fn apply_config_entry(&mut self, entry: &LogEntry) -> (r: Option<String>)
        ensures
            final(self)@ == old(self)@.configured(entry@).0,
            opt_text(r) == old(self)@.configured(entry@).1,
    {
        if let Some(addr) = entry.is_add_peer() {
            if !str_eq(addr.as_str(), self.id.as_str()) && !contains_str(
                &self.peers,
                addr.as_str(),
            ) {
                if self.state == RaftState::Leader {
                    return Some(addr);
                }
                proof {
                    strs_push(self.peers@, addr);
                }
                self.peers.push(addr);
                assert(self@ =~= old(self)@.configured(entry@).0);
            }
            return None;
        }
        if let Some(addr) = entry.is_remove_peer() {
            if let Some(i) = find_peer(&self.peers, addr.as_str()) {
                proof {
                    strs_remove(self.peers@, i as int);
                }
                let _ = self.peers.remove(i);
                if self.state == RaftState::Leader && i < self.next_index.len() && i
                    < self.match_index.len() {
                    let _ = self.next_index.remove(i);
                    let _ = self.match_index.remove(i);
                }
                assert(self@ =~= old(self)@.without_peer(i as int));
            }
            if str_eq(addr.as_str(), self.id.as_str()) {
                self.state = RaftState::Follower;
            }
        }
        None
    }

    /// Lets a peer count, once it is up to date.
    pub fn activate_peer(&mut self, addr: &str)
        ensures
            final(self)@ == old(self)@.activated(addr@),
    {
        if !str_eq(addr, self.id.as_str()) && !contains_str(&self.peers, addr) {
            let a: String = addr.to_owned();
            proof {
                strs_push(self.peers@, a);
            }
            self.peers.push(a);
            if self.state == RaftState::Leader {
                self.next_index.push(next_after(self.log.len()));
                self.match_index.push(0);
            }
            assert(self@ =~= old(self)@.activated(addr@));
        }
    }

    pub fn handle_request_vote(&mut self, req: &RequestVote) -> (r: RequestVoteResponse)
        ensures
            final(self)@ == old(self)@.voted(req@),
            r.vote_granted == old(self)@.grants(req@),
            r.term == final(self).current_term,
    {
        if req.term > self.current_term {
            self.current_term = req.term;
            self.state = RaftState::Follower;
            self.voted_for = None;
        }
        assert(self@ =~= old(self)@.seen(req.term));
        if req.term < self.current_term {
            return RequestVoteResponse { term: self.current_term, vote_granted: false };
        }
        if let Some(voted) = &self.voted_for {
            if !str_eq(voted.as_str(), req.candidate_id.as_str()) {
                return RequestVoteResponse { term: self.current_term, vote_granted: false };
            }
        }
        let last_log_index: u64 = self.last_log_index();
        let last_log_term: u64 = self.last_log_term();
        if req.last_log_term < last_log_term || (req.last_log_term == last_log_term
            && req.last_log_index < last_log_index) {
            return RequestVoteResponse { term: self.current_term, vote_granted: false };
        }
        self.voted_for = Some(req.candidate_id.clone());
        self.reset_election_timeout();
        assert(self@ =~= old(self)@.voted(req@));
        RequestVoteResponse { term: self.current_term, vote_granted: true }
    }

    pub fn handle_append_entries(&mut self, req: &AppendEntries) -> (r: AppendEntriesResponse)
        ensures
            final(self)@ == old(self)@.received(req@),
            r.success == old(self)@.accepts(req@),
            r.term == final(self).current_term,
    {
        if req.term > self.current_term {
            self.current_term = req.term;
            self.state = RaftState::Follower;
            self.voted_for = None;
        }
        assert(self@ =~= old(self)@.seen(req.term));
        if req.term < self.current_term {
            return AppendEntriesResponse { term: self.current_term, success: false };
        }
        self.reset_election_timeout();
        self.state = RaftState::Follower;
        let ghost f = self@;
        assert(f =~= RaftView {
            state: RaftState::Follower,
            ..old(self)@.seen(req.term).election_reset()
        });
        let prev_log_ok: bool = if req.prev_log_index == 0 {
            true
        } else if req.prev_log_index > self.log.len() as u64 {
            false
        } else {
            self.log[(req.prev_log_index - 1) as usize].term == req.prev_log_term
        };
        if !prev_log_ok {
            return AppendEntriesResponse { term: self.current_term, success: false };
        }
        self.merge_entries(req.prev_log_index as usize, &req.entries);
        if req.leader_commit > self.commit_index {
            let last: u64 = self.last_log_index();
            self.commit_index = if req.leader_commit <= last { req.leader_commit } else { last };
        }
        assert(self@ =~= old(self)@.received(req@));
        AppendEntriesResponse { term: self.current_term, success: true }
    }

    /// Places entries in the log from position `at` on.
    fn merge_entries(&mut self, at: usize, es: &Vec<LogEntry>)
        requires
            at <= old(self).log@.len(),
        ensures
            final(self)@ == (RaftView {
                log: merged(old(self)@.log, at as int, entries(es@)),
                ..old(self)@
            }),
    {
        let ghost start = self@;
        let ghost ev = entries(es@);
        let ghost want = merged(start.log, at as int, ev);
        let mut pos: usize = at;
        let mut k: usize = 0;
        assert(ev.skip(0) =~= ev);
        while k < es.len()
            invariant
                k <= es@.len(),
                pos <= self.log@.len(),
                ev == entries(es@),
                want == merged(entries(self.log@), pos as int, ev.skip(k as int)),
                self@ == (RaftView { log: entries(self.log@), ..start }),
            decreases es@.len() - k,
        {
            let ghost here = ev.skip(k as int);
            let ghost log0 = entries(self.log@);
            assert(here[0] == es@[k as int]@);
            assert(here.skip(1) =~= ev.skip(k + 1));
            if pos < self.log.len() && self.log[pos].term != es[k].term {
                self.log.truncate(pos);
                assert(entries(self.log@) =~= log0.take(pos as int));
            }
            if pos >= self.log.len() {
                let c: LogEntry = es[k].copy();
                proof {
                    entries_push(self.log@, c);
                }
                self.log.push(c);
            }
            let n: usize = self.log.len();
            assert(pos < n);
            pos += 1;
            k += 1;
            assert(self@ =~= RaftView { log: entries(self.log@), ..start });
        }
        assert(self@ =~= RaftView { log: want, ..start });
    }

    /// Hands out the committed entries that were not handed out before.
    pub fn take_applicable(&mut self) -> (out: Vec<LogEntry>)
        ensures
            entries(out@) == old(self)@.ready(),
            final(self)@ == old(self)@.taken(),
    {
        let ghost start = self@;
        let mut out: Vec<LogEntry> = Vec::new();
        assert(entries(out@) + start.ready() =~= start.ready());
        while self.last_applied < self.commit_index
            invariant
                start.commit_index == self.commit_index,
                start.last_applied <= self.last_applied,
                self.last_applied <= self.commit_index || self.last_applied == start.last_applied,
                self@ == (RaftView { last_applied: self.last_applied, ..start }),
                start.ready() == entries(out@) + applicable(
                    start.log,
                    self.last_applied as int,
                    self.commit_index as int,
                ),
            decreases self.commit_index - self.last_applied,
        {
            let ghost got = entries(out@);
            self.last_applied = self.last_applied + 1;
            if let Some(i) = find_entry(&self.log, self.last_applied) {
                let e: LogEntry = self.log[i].copy();
                proof {
                    entries_push(out@, e);
                    let rest = applicable(
                        start.log,
                        self.last_applied as int,
                        self.commit_index as int,
                    );
                    assert(got + (seq![e@] + rest) =~= got.push(e@) + rest);
                }
                out.push(e);
            }
            assert(self@ =~= RaftView { last_applied: self.last_applied, ..start });
        }
        proof {
            assert(entries(out@) + Seq::<EntryView>::empty() =~= entries(out@));
            assert(self@ =~= start.taken());
        }
        out
    }
}

} // verus!
