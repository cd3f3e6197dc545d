//! What a node owes each request, said of the request and the node's state.
use crate::meta::catalog::{kv_find, kv_put_all, kv_read_your_write};
use crate::meta::message::{append_request, rd_answer, stored, RequestView};
use crate::meta::node::{
    ack_in, is_config, others, reserved, started, visible, vote_in, MetaView, OutcomeView, ProposalView,
};
use crate::meta::persist::{rd_catalog, rd_raft, restored, saved};
use crate::meta::raft::{
    applicable, first_with_index, jitter, merged, AppendEntriesResponse, AppendView, EntryView,
    RaftState, RaftView, RequestVoteResponse, VoteView,
};
use crate::text::has_prefix;
use vstd::prelude::*;

verus! {

// ---------------------------------------------------------------------------
// Votes and elections
// ---------------------------------------------------------------------------

/// A node grants a vote exactly where the request's term is not behind its
/// own, no other candidate has its vote in that term, and the candidate's last
/// entry is not behind its own: by term, and in one term by index.
pub proof fn a_vote_is_given_where_it_is_owed(r: RaftView, req: VoteView)
    ensures
        ({
            let n = r.log.len() as int;
            let free = req.term > r.current_term || req.term == r.current_term && (r.voted_for
                is None || r.voted_for == Some(req.candidate_id));
            let (t, i) = if n == 0 { (0u64, 0u64) } else { (r.log[n - 1].term, r.log[n - 1].index) };
            let recent = req.last_log_term > t || req.last_log_term == t && req.last_log_index >= i;
            r.grants(req) <==> free && recent
        }),
{
}

/// A candidate with the same log as a node that is free to vote gets its vote.
pub proof fn an_equal_log_gets_the_vote(r: RaftView, req: VoteView)
    requires
        req.term > r.current_term,
        req.last_log_term == r.last_term(),
        req.last_log_index == r.last_index(),
    ensures
        r.grants(req),
        r.voted(req).voted_for == Some(req.candidate_id),
        r.voted(req).current_term == req.term,
        r.voted(req).state == RaftState::Follower,
{
}

/// What a vote request leaves: the later of the two terms, the vote that was
/// granted, and the log and what is committed as they were. A later term makes
/// a follower of the node, granted or not.
pub proof fn a_vote_request_leaves(r: RaftView, req: VoteView)
    ensures
        ({
            let s = r.voted(req);
            &&& s.current_term == if req.term > r.current_term { req.term } else { r.current_term }
            &&& req.term > r.current_term ==> s.state == RaftState::Follower
            &&& req.term <= r.current_term ==> s.state == r.state
            &&& r.grants(req) ==> s.voted_for == Some(req.candidate_id)
            &&& !r.grants(req) && req.term > r.current_term ==> s.voted_for is None
            &&& !r.grants(req) && req.term <= r.current_term ==> s.voted_for == r.voted_for
            &&& !r.grants(req) ==> s.election_timeout == r.election_timeout
            &&& s.log == r.log && s.peers == r.peers && s.id == r.id
            &&& s.commit_index == r.commit_index && s.last_applied == r.last_applied
        }),
{
}

/// The reply to a vote request says whether the vote was given, in the term
/// that the node is in.
pub proof fn a_vote_is_answered(m: MetaView, v: VoteView)
    ensures
        ({
            let (n, o) = m.served(RequestView::Vote(v));
            &&& o matches OutcomeView::Reply(b)
            &&& rd_answer(b) == Some((n.raft.current_term, m.raft.grants(v)))
            &&& n.state.map == m.state.map && n.state.log == m.state.log
            &&& n.raft.state == RaftState::Follower ==> !n.state.is_leader
        }),
{
    let n = m.served(RequestView::Vote(v)).0;
    crate::meta::message::answer_read_back(n.raft.current_term, m.raft.grants(v));
}

/// A majority is more than half of the members, the node itself among them,
/// and no more than that takes.
pub proof fn a_majority_is_more_than_half(r: RaftView)
    ensures
        2 * r.quorum() > r.peers.len() + 1,
        2 * (r.quorum() - 1) <= r.peers.len() + 1,
        r.quorum() <= r.peers.len() + 1,
{
}

/// The wait before an election ends between 250 and 699 milliseconds after the
/// clock, the wait before a heartbeat 50 after it; neither passes the clock's
/// end.
pub proof fn timeouts_are_set_from_the_clock(r: RaftView)
    requires
        r.clock <= u64::MAX - 1000,
    ensures
        r.clock + 250 <= r.election_reset().election_timeout < r.clock + 700,
        r.heartbeat_reset().heartbeat_timeout == r.clock + 50,
        forall|q: RaftView|
            q.id == r.id && q.clock == r.clock ==> (#[trigger] q.election_reset()).election_timeout
                == r.election_reset().election_timeout,
{
    assert(jitter(r.id) < 450);
}

/// A follower whose wait is over, and that waits for no snapshot, campaigns: it
/// goes up one term and votes for itself. Else the tick changes nothing.
pub proof fn a_tick_starts_an_election(m: MetaView)
    requires
        m.raft.current_term < u64::MAX,
    ensures
        ({
            let n = m.ticked();
            let due = m.raft.state == RaftState::Follower && m.raft.clock > m.raft.election_timeout
                && !m.state.awaiting_snapshot;
            &&& !due ==> n == m
            &&& due ==> n.raft.state == RaftState::Candidate && n.raft.current_term
                == m.raft.current_term + 1 && n.raft.voted_for == Some(m.raft.id) && n.raft.log
                == m.raft.log && n.raft.peers == m.raft.peers && n.state == m.state
            &&& due && m.raft.clock < u64::MAX ==> n.raft.clock < n.raft.election_timeout
        }),
{
}

/// A candidate with the votes of more than half leads: it expects each peer to
/// need what follows its log, and knows of nothing that a peer holds. With
/// fewer votes, or for another than a candidate, nothing changes.
pub proof fn a_majority_elects(m: MetaView, votes: nat)
    ensures
        ({
            let n = m.elected(votes);
            let won = 2 * votes > m.raft.peers.len() + 1 && m.raft.state == RaftState::Candidate;
            &&& !won ==> n == m
            &&& won ==> n.raft.state == RaftState::Leader && n.state.is_leader && n.state.epoch
                == m.raft.current_term && n.raft.current_term == m.raft.current_term && n.raft.log
                == m.raft.log && n.state.map == m.state.map && n.raft.voted_for == m.raft.voted_for
            &&& won ==> n.raft.next_index.len() == m.raft.peers.len() && n.raft.match_index.len()
                == m.raft.peers.len()
            &&& won && m.raft.log.len() < u64::MAX ==> forall|i: int|
                0 <= i < m.raft.peers.len() ==> #[trigger] n.raft.next_index[i] == m.raft.log.len()
                    + 1 && n.raft.match_index[i] == 0
        }),
{
}

// ---------------------------------------------------------------------------
// Logs
// ---------------------------------------------------------------------------

/// An append is accepted exactly where its term is not behind and the log
/// holds, at the position before the entries, one of the term that is named;
/// before the first position there is nothing to hold.
pub proof fn an_append_is_accepted_where_it_is_owed(r: RaftView, req: AppendView)
    ensures
        r.accepts(req) <==> req.term >= r.current_term && (req.prev_log_index == 0 || (exists|i: int|
            0 <= i < r.log.len() && i + 1 == req.prev_log_index && (#[trigger] r.log[i]).term
                == req.prev_log_term)),
{
    let i = req.prev_log_index - 1;
    if r.accepts(req) && req.prev_log_index != 0 {
        assert(r.log[i].term == req.prev_log_term);
    }
}

/// Whether a log holds an entry of the same term at a position.
pub open spec fn agrees_at(log: Seq<EntryView>, i: int, e: EntryView) -> bool {
    i < log.len() && log[i].term == e.term
}

/// Entries that a log holds in their place change nothing, also not what comes
/// behind them; from the first that it does not hold on, it is cut off and
/// goes on as the leader's.
pub proof fn an_append_keeps_what_agrees(
    log: Seq<EntryView>,
    at: int,
    es: Seq<EntryView>,
    k: int,
)
    requires
        0 <= at <= log.len(),
        0 <= k <= es.len(),
        forall|j: int| 0 <= j < k ==> #[trigger] agrees_at(log, at + j, es[j]),
        k < es.len() ==> at + k >= log.len() || log[at + k].term != es[k].term,
    ensures
        k == es.len() ==> merged(log, at, es) == log,
        k < es.len() ==> merged(log, at, es) == log.take(at + k) + es.skip(k),
    decreases es.len(),
{
    if es.len() > 0 {
        let t = es.skip(1);
        if k > 0 {
            assert(agrees_at(log, at + 0, es[0]));
            assert forall|j: int| 0 <= j < k - 1 implies #[trigger] agrees_at(
                log,
                at + 1 + j,
                t[j],
            ) by {
                assert(agrees_at(log, at + (j + 1), es[j + 1]));
            }
            an_append_keeps_what_agrees(log, at + 1, t, k - 1);
            assert(t.skip(k - 1) =~= es.skip(k));
        } else {
            let grown = log.take(at).push(es[0]);
            let cut = if at < log.len() && log[at].term != es[0].term {
                log.take(at)
            } else {
                log
            };
            assert(cut =~= log.take(at));
            assert(merged(log, at, es) == merged(grown, at + 1, t));
            if t.len() > 0 {
                an_append_keeps_what_agrees(grown, at + 1, t, 0);
                assert(grown.take(at + 1) + t.skip(0) =~= log.take(at) + es.skip(0));
            } else {
                assert(grown =~= log.take(at) + es.skip(0));
            }
        }
    }
}

/// Entries that follow a log's end are appended as they are.
pub proof fn an_append_at_the_end_extends(log: Seq<EntryView>, es: Seq<EntryView>)
    ensures
        merged(log, log.len() as int, es) == log + es,
{
    an_append_keeps_what_agrees(log, log.len() as int, es, 0);
    assert(log.take(log.len() as int) =~= log);
    assert(es.skip(0) =~= es);
    assert(log + Seq::<EntryView>::empty() =~= log);
}

/// What an append leaves. An accepted one moves the commit index up to the
/// leader's, but not past the log's end, and never down while the log reaches
/// there. A refused one leaves log and commit index. In either case a leader
/// of this term or a later one is followed and the wait for an election starts
/// anew.
pub proof fn an_append_leaves(r: RaftView, req: AppendView)
    ensures
        ({
            let s = r.received(req);
            let last = if s.log.len() == 0 { 0u64 } else { s.log[s.log.len() - 1].index };
            &&& req.term < r.current_term ==> s == r
            &&& req.term >= r.current_term ==> s.current_term == req.term && s.state
                == RaftState::Follower && s.election_timeout == r.election_reset().election_timeout
            &&& !r.accepts(req) ==> s.log == r.log && s.commit_index == r.commit_index
            &&& r.accepts(req) && req.leader_commit <= r.commit_index ==> s.commit_index
                == r.commit_index
            &&& r.accepts(req) && req.leader_commit > r.commit_index && req.leader_commit <= last
                ==> s.commit_index == req.leader_commit
            &&& r.accepts(req) && req.leader_commit > r.commit_index && req.leader_commit > last
                ==> s.commit_index == last
            &&& r.accepts(req) ==> s.log == merged(r.log, req.prev_log_index as int, req.entries)
            &&& s.last_applied == r.last_applied && s.peers == r.peers
            &&& req.term > r.current_term ==> s.voted_for is None
            &&& req.term <= r.current_term ==> s.voted_for == r.voted_for
        }),
{
}

/// The reply to an append says whether it was accepted, in the term that the
/// node is in.
pub proof fn an_append_is_answered(m: MetaView, a: AppendView)
    ensures
        ({
            let o = m.served(RequestView::Append(a)).1;
            let t = if a.term > m.raft.current_term { a.term } else { m.raft.current_term };
            &&& o matches OutcomeView::Reply(b)
            &&& rd_answer(b) == Some((t, m.raft.accepts(a)))
        }),
{
    let t = if a.term > m.raft.current_term { a.term } else { m.raft.current_term };
    crate::meta::message::answer_read_back(t, m.raft.accepts(a));
}

/// A leader's new entry carries its term and the index after its last, and its
/// log ends in it; the log before it is unchanged.
pub proof fn a_leader_appends_at_its_end(r: RaftView, key: Seq<char>, val: Seq<char>)
    requires
        r.last_index() < u64::MAX,
    ensures
        ({
            let s = r.appended(key, val);
            let n = r.log.len() as int;
            &&& s.log.len() == n + 1
            &&& s.log.take(n) == r.log
            &&& s.log[n].key == key && s.log[n].val == val && s.log[n].term == r.current_term
            &&& n == 0 ==> s.log[n].index == 1
            &&& n > 0 ==> s.log[n].index == r.log[n - 1].index + 1
            &&& s.commit_index == r.commit_index && s.current_term == r.current_term
        }),
{
    assert(r.appended(key, val).log.take(r.log.len() as int) =~= r.log);
}

/// The first entry with an index has it, no entry before it does, and where
/// there is none no entry has it.
pub proof fn the_first_entry_with_an_index(log: Seq<EntryView>, index: int)
    ensures
        first_with_index(log, index) matches Some(e) ==> e.index == index && log.contains(e),
        first_with_index(log, index) is None ==> forall|i: int|
            0 <= i < log.len() ==> (#[trigger] log[i]).index != index,
    decreases log.len(),
{
    if log.len() > 0 {
        let t = log.skip(1);
        the_first_entry_with_an_index(t, index);
        if log[0].index == index {
            assert(log.contains(log[0]));
        } else {
            if let Some(e) = first_with_index(t, index) {
                let i = choose|i: int| 0 <= i < t.len() && t[i] == e;
                assert(log[i + 1] == e);
            }
            assert forall|i: int| 0 < i < log.len() implies #[trigger] log[i] == t[i - 1] by {}
        }
    }
}

/// What is ready to be applied is committed, was not applied, and comes in the
/// order of the indices.
pub proof fn what_is_ready_is_committed(log: Seq<EntryView>, from: int, to: int)
    ensures
        ({
            let v = applicable(log, from, to);
            &&& forall|i: int| 0 <= i < v.len() ==> from < (#[trigger] v[i]).index <= to
            &&& forall|i: int, j: int|
                0 <= i < j < v.len() ==> (#[trigger] v[i]).index < (#[trigger] v[j]).index
            &&& forall|i: int|
                0 <= i < log.len() && from < (#[trigger] log[i]).index <= to ==> exists|k: int|
                    0 <= k < v.len() && (#[trigger] v[k]).index == log[i].index
        }),
    decreases to - from,
{
    if from < to {
        let rest = applicable(log, from + 1, to);
        let v = applicable(log, from, to);
        what_is_ready_is_committed(log, from + 1, to);
        the_first_entry_with_an_index(log, from + 1);
        let f = first_with_index(log, from + 1);
        let off = if f is Some { 1int } else { 0 };
        assert forall|i: int| off <= i < v.len() implies #[trigger] v[i] == rest[i - off] by {}
        assert(v.len() == rest.len() + off);
        assert forall|i: int| 0 <= i < log.len() && from < (#[trigger] log[i]).index
            <= to implies exists|k: int|
            0 <= k < v.len() && (#[trigger] v[k]).index == log[i].index by {
            if log[i].index == from + 1 {
                assert(v[0].index == log[i].index);
            } else {
                let k = choose|k: int|
                    0 <= k < rest.len() && (#[trigger] rest[k]).index == log[i].index;
                assert(v[k + off].index == log[i].index);
            }
        }
    }
}

// ---------------------------------------------------------------------------
// Writes and reads
// ---------------------------------------------------------------------------

/// A leader asks all its peers, and for the acknowledgement of more than half;
/// its own counts. Anyone else refuses and changes nothing.
pub proof fn a_proposal_asks_for_a_majority(m: MetaView, key: Seq<char>, val: Seq<char>)
    ensures
        m.raft.state != RaftState::Leader ==> m.proposed(key, val) == (
            m,
            OutcomeView::Reply(seq![2u8]),
        ),
        m.raft.state == RaftState::Leader ==> ({
            let (n, o) = m.proposed(key, val);
            &&& o matches OutcomeView::Propose(p)
            &&& p.peers == m.raft.peers
            &&& 2 * p.majority > m.raft.peers.len() + 1
            &&& 2 * (p.majority - 1) <= m.raft.peers.len() + 1
            &&& p.acks == 1
            &&& p.term == m.raft.current_term
            &&& p.epoch == m.state.epoch
            &&& p.entry.key == key && p.entry.val == val && p.entry.term == m.raft.current_term
            &&& n.raft.log == m.raft.log.push(p.entry)
            &&& n.state == m.state
            &&& n.raft.commit_index == m.raft.commit_index
        }),
{
}

/// A proposal that enough nodes acknowledged is committed while its proposer
/// still leads; with too few, or after the lead is lost, nothing changes and
/// the caller is told which.
pub proof fn a_proposal_ends(m: MetaView, p: ProposalView)
    ensures
        ({
            let (n, r) = m.concluded(p);
            &&& p.acks < p.majority ==> n == m && r == Err::<Seq<Seq<char>>, u8>(3)
            &&& p.acks >= p.majority && m.raft.state != RaftState::Leader ==> n == m && r == Err::<
                Seq<Seq<char>>,
                u8,
            >(2)
            &&& p.acks >= p.majority && m.raft.state == RaftState::Leader ==> r is Ok
                && n.raft.commit_index == p.entry.index && n.raft.log == m.raft.log
                && n.raft.last_applied == if m.raft.last_applied < p.entry.index {
                p.entry.index
            } else {
                m.raft.last_applied
            }
        }),
{
    if p.acks >= p.majority && m.raft.state == RaftState::Leader {
        let c = MetaView { raft: RaftView { commit_index: p.entry.index, ..m.raft }, ..m };
        applying_keeps(MetaView { raft: c.raft.taken(), ..c }, c.raft.ready());
    }
}

proof fn applying_keeps(m: MetaView, es: Seq<EntryView>)
    ensures
        ({
            let n = m.applied_all(es).0;
            &&& n.raft.commit_index == m.raft.commit_index
            &&& n.raft.last_applied == m.raft.last_applied
            &&& n.raft.log == m.raft.log
            &&& n.raft.current_term == m.raft.current_term
            &&& n.addr == m.addr
        }),
    decreases es.len(),
{
    if es.len() > 0 {
        applying_keeps(m, es.drop_last());
    }
}

/// After committed entries were applied, a key has the value of the last of
/// them that wrote it, and where none did the value it had. Entries with
/// reserved keys write nothing.
pub proof fn the_last_write_wins(m: MetaView, es: Seq<EntryView>, key: Seq<char>, i: int)
    requires
        -1 <= i < es.len(),
        i >= 0 ==> es[i].key == key && !has_prefix(key, reserved()) && !is_config(es[i]),
        forall|j: int| i < j < es.len() ==> (#[trigger] es[j]).key != key || has_prefix(key, reserved()),
    ensures
        i >= 0 ==> kv_find(m.applied_all(es).0.state.map, key) == Some(es[i].val),
        i < 0 ==> kv_find(m.applied_all(es).0.state.map, key) == kv_find(m.state.map, key),
    decreases es.len(),
{
    if es.len() > 0 {
        let e = es.last();
        let d = es.drop_last();
        let n = m.applied_all(d).0;
        if i == d.len() {
            kv_read_your_write(n.state.map, key, e.val, key);
        } else {
            assert forall|j: int| i < j < d.len() implies (#[trigger] d[j]).key != key || has_prefix(
                key,
                reserved(),
            ) by {
                assert(d[j] == es[j]);
            }
            the_last_write_wins(m, d, key, i);
            assert(es[es.len() - 1] == e);
            if !is_config(e) && !has_prefix(e.key, reserved()) {
                kv_read_your_write(n.state.map, e.key, e.val, key);
            }
        }
    }
}

/// The commit log gains the applied entries that write, each once and in
/// order.
pub proof fn the_commit_log_gains_the_writes(m: MetaView, es: Seq<EntryView>)
    ensures
        m.applied_all(es).0.state.log == m.state.log + es.filter(
            |e: EntryView| !is_config(e) && !has_prefix(e.key, reserved()),
        ),
    decreases es.len(),
{
    reveal(Seq::filter);
    if es.len() > 0 {
        the_commit_log_gains_the_writes(m, es.drop_last());
    }
    assert(m.applied_all(es).0.state.log =~= m.state.log + es.filter(
        |e: EntryView| !is_config(e) && !has_prefix(e.key, reserved()),
    ));
}

/// A follower stores what it is told under an epoch that is not behind its
/// own, and a read then gives it; under an older epoch it refuses and changes
/// nothing.
pub proof fn a_replica_stores_what_is_current(
    m: MetaView,
    epoch: u64,
    index: u64,
    key: Seq<char>,
    val: Seq<char>,
)
    requires
        m.state.alive,
    ensures
        ({
            let (n, o) = m.replicated(epoch, index, key, val);
            let e = EntryView { term: epoch, index, key, val };
            &&& epoch < m.state.epoch ==> n == m && o == OutcomeView::Reply(seq![0u8])
            &&& epoch >= m.state.epoch ==> o == OutcomeView::Reply(seq![1u8]) && n.state.epoch
                == epoch && !n.state.is_leader
            &&& epoch >= m.state.epoch && !is_config(e) ==> kv_find(n.state.map, key) == Some(val)
                && n.state.log == m.state.log.push(e)
        }),
{
    kv_read_your_write(m.state.map, key, val, key);
}

/// A node that was promoted to an epoch leads in it; only a later epoch than
/// its own promotes.
pub proof fn a_promotion_takes_a_later_epoch(m: MetaView, e: u64)
    requires
        m.state.alive,
    ensures
        ({
            let (n, o) = m.served(RequestView::Promote(e));
            &&& e > m.state.epoch ==> n.state.epoch == e && n.state.is_leader && o
                == OutcomeView::Reply(seq![1u8])
            &&& e <= m.state.epoch ==> n == m && o == OutcomeView::Reply(seq![0u8])
            &&& n.state.map == m.state.map && n.state.log == m.state.log
        }),
{
}

/// Reading changes nothing, nor does a write to a node that does not lead.
pub proof fn reads_and_refusals_change_nothing(m: MetaView, k: Seq<char>, v: Seq<char>)
    ensures
        m.served(RequestView::Get(k)).0 == m,
        m.served(RequestView::Status).0 == m,
        !m.state.is_leader ==> m.served(RequestView::Put(k, v)).0 == m,
        !m.state.is_leader ==> m.served(RequestView::AddPeer(k)).0 == m,
        !m.state.is_leader ==> m.served(RequestView::RemovePeer(k)).0 == m,
        m.state.alive && !m.state.is_leader ==> m.served(RequestView::Put(k, v)).1
            == OutcomeView::Reply(seq![2u8]),
        !m.state.is_leader ==> m.served(RequestView::AddPeer(k)).1 == OutcomeView::Reply(
            seq![2u8],
        ),
        !m.state.is_leader ==> m.served(RequestView::RemovePeer(k)).1 == OutcomeView::Reply(
            seq![2u8],
        ),
        m.state.alive && m.state.is_leader && m.raft.state == RaftState::Leader ==> m.served(
            RequestView::Put(k, v),
        ).1 is Propose,
        !m.state.alive ==> m.served(RequestView::Get(k)).1 is Close,
        !m.state.alive ==> m.served(RequestView::Put(k, v)).1 is Close,
{
}

/// A read is answered with the value that the map holds, and with a zero where
/// it holds none.
pub proof fn a_read_gives_what_is_held(m: MetaView, k: Seq<char>)
    requires
        m.state.alive,
    ensures
        kv_find(m.state.map, k) matches Some(v) ==> m.served(RequestView::Get(k)).1
            == OutcomeView::Reply(seq![1u8] + crate::wire::wr_str(v)),
        kv_find(m.state.map, k) is None ==> m.served(RequestView::Get(k)).1 == OutcomeView::Reply(
            seq![0u8],
        ),
{
}

// ---------------------------------------------------------------------------
// Members and snapshots
// ---------------------------------------------------------------------------

/// The entries of a log that a client may see are those without reserved keys,
/// in order.
pub proof fn visible_is_what_is_not_reserved(es: Seq<EntryView>)
    ensures
        visible(es) == es.filter(|e: EntryView| !has_prefix(e.key, "__raft/"@)),
    decreases es.len(),
{
    reveal(Seq::filter);
    if es.len() > 0 {
        visible_is_what_is_not_reserved(es.drop_last());
    }
}

/// The others are all peers but one address, in order.
pub proof fn others_are_all_but_one(peers: Seq<Seq<char>>, addr: Seq<char>)
    ensures
        others(peers, addr) == peers.filter(|p: Seq<char>| p != addr),
    decreases peers.len(),
{
    reveal(Seq::filter);
    if peers.len() > 0 {
        others_are_all_but_one(peers.drop_last(), addr);
    }
}

/// An added peer is a member once it is active, at the end and once; a peer
/// that already is one, and the node itself, are not added. A leader tracks it
/// from the end of its log.
pub proof fn a_peer_is_added_once(r: RaftView, addr: Seq<char>)
    requires
        r.log.len() < u64::MAX,
    ensures
        ({
            let s = r.activated(addr);
            &&& addr == r.id || r.peers.contains(addr) ==> s == r
            &&& addr != r.id && !r.peers.contains(addr) ==> s.peers == r.peers.push(addr)
            &&& addr != r.id && !r.peers.contains(addr) && r.state == RaftState::Leader
                ==> s.next_index == r.next_index.push((r.log.len() + 1) as u64) && s.match_index
                == r.match_index.push(0)
            &&& s.log == r.log && s.current_term == r.current_term && s.state == r.state
        }),
{
}

/// A removed peer is no member any more, and all others stay, in order. A node
/// that is itself removed follows from then on.
pub proof fn a_peer_is_removed(r: RaftView, e: EntryView, addr: Seq<char>)
    requires
        e.removes() == Some(addr),
        e.adds() is None,
        r.peers.no_duplicates(),
    ensures
        ({
            let (s, added) = r.configured(e);
            &&& added is None
            &&& !s.peers.contains(addr)
            &&& forall|p: Seq<char>| p != addr ==> (#[trigger] s.peers.contains(p) <==> r.peers.contains(p))
            &&& s.peers.no_duplicates()
            &&& addr == r.id ==> s.state == RaftState::Follower
            &&& addr != r.id ==> s.state == r.state
            &&& s.log == r.log && s.current_term == r.current_term
        }),
{
    let s = r.configured(e).0;
    match crate::meta::raft::position(r.peers, addr) {
        None => {
            if r.peers.contains(addr) {
                r.peers.index_of_first_ensures(addr);
                assert(false);
            }
        },
        Some(i) => {
            r.peers.index_of_first_ensures(addr);
            assert(s.peers == r.peers.remove(i));
            assert forall|p: Seq<char>| p != addr implies (#[trigger] s.peers.contains(p)
                <==> r.peers.contains(p)) by {
                if r.peers.contains(p) {
                    let j = choose|j: int| 0 <= j < r.peers.len() && r.peers[j] == p;
                    if j < i {
                        assert(s.peers[j] == p);
                    } else {
                        assert(s.peers[j - 1] == p);
                    }
                }
                if s.peers.contains(p) {
                    let j = choose|j: int| 0 <= j < s.peers.len() && s.peers[j] == p;
                    if j < i {
                        assert(r.peers[j] == p);
                    } else {
                        assert(r.peers[j + 1] == p);
                    }
                }
            }
            if s.peers.contains(addr) {
                let j = choose|j: int| 0 <= j < s.peers.len() && s.peers[j] == addr;
                if j < i {
                    assert(r.peers[j] == addr);
                } else {
                    assert(r.peers[j + 1] == addr);
                }
            }
        },
    }
}

// ---------------------------------------------------------------------------
// Replies and restarts
// ---------------------------------------------------------------------------

/// An append request names as coming before its entries the entry that does:
/// for a bare heartbeat the last of the log, else the one before the first
/// entry. A follower with the same log accepts it.
pub proof fn an_append_names_what_comes_before(
    r: RaftView,
    term: u64,
    commit: u64,
    es: Seq<EntryView>,
)
    requires
        r.log.len() < u64::MAX,
        forall|i: int| 0 <= i < r.log.len() ==> (#[trigger] r.log[i]).index == i + 1,
        es.len() > 0 ==> 1 <= es[0].index <= r.log.len() + 1,
    ensures
        ({
            let q = append_request(r.id, term, commit, r.log, es);
            let at = if es.len() == 0 { r.log.len() as int } else { es[0].index - 1 };
            &&& q.term == term && q.leader_id == r.id && q.entries == es && q.leader_commit == commit
            &&& q.prev_log_index == at
            &&& at == 0 ==> q.prev_log_term == 0
            &&& at > 0 ==> q.prev_log_term == r.log[at - 1].term
            &&& forall|f: RaftView|
                f.log == r.log && f.current_term <= term ==> #[trigger] f.accepts(q)
        }),
{
    if r.log.len() > 0 {
        assert(r.log[r.log.len() - 1].index == r.log.len());
    }
}

/// The replies that store an entry are those that succeeded in the term.
pub proof fn stored_counts_the_successes(
    replies: Seq<Option<AppendEntriesResponse>>,
    term: u64,
)
    ensures
        stored(replies, term) == replies.filter(
            |r: Option<AppendEntriesResponse>| r matches Some(x) && x.success && x.term == term,
        ).len(),
    decreases replies.len(),
{
    reveal(Seq::filter);
    if replies.len() > 0 {
        stored_counts_the_successes(replies.drop_last(), term);
    }
}

/// A node that restarts has the term, the vote, the log, the members and the
/// commit index that it saved, and follows.
pub proof fn a_restart_keeps_what_was_saved(r: RaftView, id: Seq<char>)
    ensures
        ({
            let s = restored(id, saved(r));
            &&& s.id == id
            &&& s.current_term == r.current_term && s.voted_for == r.voted_for
            &&& s.log == r.log && s.peers == r.peers
            &&& s.commit_index == r.commit_index && s.last_applied == r.last_applied
            &&& s.state == RaftState::Follower
            &&& forall|v: VoteView|
                r.state == RaftState::Follower ==> #[trigger] s.grants(v) == r.grants(v)
        }),
{
}

/// The votes of an election after replies: the candidate's own, and one for
/// each reply that grants a vote in its term.
pub open spec fn votes_after(term: u64, replies: Seq<Option<RequestVoteResponse>>) -> nat
    decreases replies.len(),
{
    if replies.len() == 0 {
        1
    } else {
        votes_after(term, replies.drop_last()) + vote_in(term, replies.last())
    }
}

/// A candidate wins exactly where those that grant it their vote in its term,
/// itself among them, are more than half of the members.
pub proof fn an_election_is_won_by_votes(m: MetaView, replies: Seq<Option<RequestVoteResponse>>)
    requires
        m.raft.state == RaftState::Candidate,
    ensures
        ({
            let yes = replies.filter(
                |r: Option<RequestVoteResponse>|
                    r matches Some(x) && x.vote_granted && x.term == m.raft.current_term,
            ).len();
            let n = m.elected(votes_after(m.raft.current_term, replies));
            n.raft.state == RaftState::Leader <==> 2 * (yes + 1) > m.raft.peers.len() + 1
        }),
{
    votes_are_the_grants(m.raft.current_term, replies);
}

proof fn votes_are_the_grants(term: u64, replies: Seq<Option<RequestVoteResponse>>)
    ensures
        votes_after(term, replies) == 1 + replies.filter(
            |r: Option<RequestVoteResponse>| r matches Some(x) && x.vote_granted && x.term == term,
        ).len(),
    decreases replies.len(),
{
    reveal(Seq::filter);
    if replies.len() > 0 {
        votes_are_the_grants(term, replies.drop_last());
    }
}

/// A peer's replies count for a proposal where its append succeeded in the
/// term of the proposal, or where it stored the entry; each peer counts once.
pub proof fn a_reply_acknowledges_once(
    term: u64,
    append: Option<AppendEntriesResponse>,
    code: Option<u8>,
)
    ensures
        ack_in(term, append, code) <= 1,
        ack_in(term, append, code) == 1 <==> (append matches Some(r) && r.success && r.term == term)
            || code == Some(1u8),
{
}

/// A node that kept nothing starts in term zero without a vote or a log, with
/// the members it is given, in the first epoch, and follows.
pub proof fn a_fresh_node_knows_nothing(addr: Seq<char>, peers: Seq<Seq<char>>, awaiting: bool)
    ensures
        ({
            let m = started(addr, peers, awaiting, None, None);
            &&& m.addr == addr && m.raft.id == addr
            &&& m.raft.current_term == 0 && m.raft.voted_for is None && m.raft.log.len() == 0
            &&& m.raft.commit_index == 0 && m.raft.last_applied == 0
            &&& m.raft.peers == peers
            &&& m.raft.state == RaftState::Follower
            &&& m.state.epoch == 1 && !m.state.is_leader && m.state.alive
            &&& m.state.map.len() == 0 && m.state.log.len() == 0
            &&& m.state.awaiting_snapshot == awaiting
        }),
{
}

/// A node that kept its state starts with it: the saved term, vote and log,
/// and the saved epoch, map and commits. Where it had kept no members it takes
/// those it is given, unless it waits to join.
pub proof fn a_node_starts_with_what_it_kept(
    addr: Seq<char>,
    peers: Seq<Seq<char>>,
    awaiting: bool,
    raft: Seq<u8>,
    catalog: Seq<u8>,
)
    ensures
        ({
            let m = started(addr, peers, awaiting, Some(raft), Some(catalog));
            &&& rd_raft(raft) matches Ok(s) ==> m.raft.current_term == s.current_term
                && m.raft.voted_for == s.voted_for && m.raft.log == s.log && m.raft.commit_index
                == s.commit_index && (s.peers.len() > 0 ==> m.raft.peers == s.peers) && (
            s.peers.len() == 0 && !awaiting ==> m.raft.peers =~= peers)
            &&& rd_catalog(catalog) matches Ok((epoch, map, log)) ==> m.state.epoch == epoch
                && m.state.log == log && m.state.map == kv_put_all(Seq::empty(), map)
            &&& rd_raft(raft) is Err ==> m.raft.current_term == 0 && m.raft.log.len() == 0
            &&& rd_catalog(catalog) is Err ==> m.state.epoch == 1 && m.state.map.len() == 0
        }),
{
}

/// A committed entry that adds a peer: a follower takes it in at once, a
/// leader names it to be brought up to date first, and one that is known is
/// passed over.
pub proof fn an_added_peer_is_taken_in(r: RaftView, e: EntryView, addr: Seq<char>)
    requires
        e.adds() == Some(addr),
    ensures
        ({
            let (s, left) = r.configured(e);
            let known = addr == r.id || r.peers.contains(addr);
            &&& known ==> s == r && left is None
            &&& !known && r.state == RaftState::Leader ==> s == r && left == Some(addr)
            &&& !known && r.state != RaftState::Leader ==> s.peers == r.peers.push(addr) && left
                is None && s.log == r.log && s.current_term == r.current_term
        }),
{
}

/// What is committed is applied, up to the commit index, and counted as such.
pub proof fn what_is_committed_is_applied(m: MetaView, key: Seq<char>)
    ensures
        ({
            let n = m.caught_up().0;
            &&& n.raft.last_applied == if m.raft.last_applied < m.raft.commit_index {
                m.raft.commit_index
            } else {
                m.raft.last_applied
            }
            &&& n.raft.commit_index == m.raft.commit_index && n.raft.log == m.raft.log
            &&& n.state.log == m.state.log + m.raft.ready().filter(
                |e: EntryView| !is_config(e) && !has_prefix(e.key, reserved()),
            )
        }),
{
    let t = MetaView { raft: m.raft.taken(), ..m };
    applying_keeps(t, m.raft.ready());
    the_commit_log_gains_the_writes(t, m.raft.ready());
}

/// A node that a current leader speaks to no longer leads, itself or the
/// catalog.
pub proof fn a_leader_steps_down_for_another(m: MetaView, a: AppendView)
    requires
        a.term >= m.raft.current_term,
    ensures
        ({
            let r = m.raft.received(a);
            let n = (MetaView { raft: r, ..m }).stepped_down();
            r.state == RaftState::Follower && !n.state.is_leader && n.state.map == m.state.map
        }),
{
}

} // verus!
