//! What holds of the metadata service as a whole.
use crate::meta::catalog::{kv_distinct, kv_find, kv_read_your_write, kv_rebuild, StateView};
use crate::meta::message::{PairView, RequestView};
use crate::meta::node::{
    code, configured_all, is_config, others, reserved, visible, MetaView, OutcomeView,
    ProposalView,
};
use crate::meta::raft::{
    applicable, first_with_index, merged, AppendView, EntryView, RaftState, RaftView, VoteView,
};
use crate::text::has_prefix;
use vstd::prelude::*;
use vstd::set_lib::{lemma_len_subset, lemma_set_intersect_union_lens};

verus! {

// ---------------------------------------------------------------------------
// Quorums and votes
// ---------------------------------------------------------------------------

/// A cluster has a majority, and two majorities of it share a member.
pub proof fn quorums_intersect(
    r: RaftView,
    members: Set<Seq<char>>,
    a: Set<Seq<char>>,
    b: Set<Seq<char>>,
)
    requires
        members.finite(),
        members.len() == r.size(),
        a.subset_of(members),
        b.subset_of(members),
        a.len() >= r.quorum(),
        b.len() >= r.quorum(),
    ensures
        r.quorum() <= r.size(),
        exists|x: Seq<char>| #[trigger] a.contains(x) && b.contains(x),
{
    lemma_len_subset(a, members);
    lemma_len_subset(b, members);
    lemma_set_intersect_union_lens(a, b);
    lemma_len_subset(a + b, members);
    let both = a.intersect(b);
    assert(both.len() > 0);
    if !(exists|x: Seq<char>| #[trigger] both.contains(x)) {
        assert(both =~= Set::empty());
    }
    let x = choose|x: Seq<char>| #[trigger] both.contains(x);
    assert(a.contains(x) && b.contains(x));
}

/// Whether a step from `a` to `b` keeps its word: terms do not go back, and a
/// vote given in a term is not taken back in it.
pub open spec fn keeps_word(a: RaftView, b: RaftView) -> bool {
    &&& a.current_term <= b.current_term
    &&& a.current_term == b.current_term && a.voted_for is Some ==> b.voted_for == a.voted_for
}

proof fn applied_keeps_vote(m: MetaView, es: Seq<EntryView>)
    ensures
        m.applied_all(es).0.raft.current_term == m.raft.current_term,
        m.applied_all(es).0.raft.voted_for == m.raft.voted_for,
        m.applied_all(es).0.raft.log == m.raft.log,
        m.applied_all(es).0.state.epoch == m.state.epoch,
        m.applied_all(es).0.state.is_leader == m.state.is_leader,
        m.applied_all(es).0.raft.commit_index == m.raft.commit_index,
    decreases es.len(),
{
    if es.len() > 0 {
        applied_keeps_vote(m, es.drop_last());
    }
}

proof fn configured_keeps_vote(r: RaftView, es: Seq<EntryView>)
    ensures
        configured_all(r, es).current_term == r.current_term,
        configured_all(r, es).voted_for == r.voted_for,
        configured_all(r, es).log == r.log,
    decreases es.len(),
{
    if es.len() > 0 {
        configured_keeps_vote(r, es.drop_last());
    }
}

/// Everything that can happen to a node.
pub enum Event {
    Request(RequestView),
    Tick,
    Votes(nat),
    Conclude(ProposalView),
    Activate(Seq<char>),
    Deactivate(Seq<char>),
    Clock(u64),
    Beat,
    Kill,
}

impl MetaView {
    /// The node after an event. A tick in the last term there is does nothing.
    pub open spec fn next(self, e: Event) -> MetaView {
        match e {
            Event::Request(q) => self.served(q).0,
            Event::Tick => if self.raft.current_term < u64::MAX { self.ticked() } else { self },
            Event::Votes(n) => self.elected(n),
            Event::Conclude(p) => self.concluded(p).0,
            Event::Activate(a) => MetaView { raft: self.raft.activated(a), ..self },
            Event::Deactivate(a) => self.deactivated(a),
            Event::Clock(now) => MetaView {
                raft: RaftView {
                    clock: if now > self.raft.clock { now } else { self.raft.clock },
                    ..self.raft
                },
                ..self
            },
            Event::Beat => MetaView { raft: self.raft.heartbeat_reset(), ..self },
            Event::Kill => MetaView {
                state: StateView { alive: false, ..self.state },
                ..self
            },
        }
    }

    /// The node after events in order.
    pub open spec fn after(self, es: Seq<Event>) -> MetaView
        decreases es.len(),
    {
        if es.len() == 0 { self } else { self.after(es.drop_last()).next(es.last()) }
    }
}

/// Every event keeps a node's word.
pub proof fn event_keeps_word(m: MetaView, e: Event)
    ensures
        keeps_word(m.raft, m.next(e).raft),
{
    match e {
        Event::Request(q) => {
            match q {
                RequestView::Append(a) => {
                    let n = (MetaView { raft: m.raft.received(a), ..m }).stepped_down();
                    applied_keeps_vote(
                        MetaView { raft: n.raft.taken(), ..n },
                        n.raft.ready(),
                    );
                },
                RequestView::Install(s) => {
                    let last: u64 = if s.entries.len() == 0 { 0 } else { s.entries.last().index };
                    let r = (RaftView {
                        peers: others(s.peers, m.addr),
                        log: s.entries,
                        commit_index: last,
                        last_applied: last,
                        current_term: if m.raft.current_term >= s.epoch {
                            m.raft.current_term
                        } else {
                            s.epoch
                        },
                        state: RaftState::Follower,
                        ..m.raft
                    }).election_reset();
                    configured_keeps_vote(r, s.entries);
                },
                _ => {},
            }
        },
        Event::Conclude(p) => {
            let n = MetaView { raft: RaftView { commit_index: p.entry.index, ..m.raft }, ..m };
            applied_keeps_vote(MetaView { raft: n.raft.taken(), ..n }, n.raft.ready());
        },
        _ => {},
    }
}

/// No run of events takes a vote back or a term down.
pub proof fn run_keeps_word(m: MetaView, es: Seq<Event>)
    ensures
        keeps_word(m.raft, m.after(es).raft),
    decreases es.len(),
{
    if es.len() > 0 {
        run_keeps_word(m, es.drop_last());
        event_keeps_word(m.after(es.drop_last()), es.last());
    }
}

/// A node votes for at most one candidate in a term: whatever happens after it
/// granted one request, it grants another of the same term only to the same
/// candidate.
pub proof fn one_vote_per_term(m: MetaView, first: VoteView, es: Seq<Event>, second: VoteView)
    requires
        m.raft.grants(first),
        first.term == second.term,
        m.served(RequestView::Vote(first)).0.after(es).raft.grants(second),
    ensures
        second.candidate_id == first.candidate_id,
{
    let n = m.served(RequestView::Vote(first)).0;
    run_keeps_word(n, es);
}

proof fn after_in_two_goes(m: MetaView, es: Seq<Event>, i: int, j: int)
    requires
        0 <= i <= j <= es.len(),
    ensures
        m.after(es.take(j)) == m.after(es.take(i)).after(es.subrange(i, j)),
    decreases j - i,
{
    if i < j {
        after_in_two_goes(m, es, i, j - 1);
        assert(es.take(j).drop_last() =~= es.take(j - 1));
        assert(es.subrange(i, j).drop_last() =~= es.subrange(i, j - 1));
        assert(es.take(j).last() == es.subrange(i, j).last());
    } else {
        assert(es.subrange(i, j) =~= Seq::<Event>::empty());
    }
}

/// Whether a node's record said, at some moment of a run, that it had voted
/// for a candidate in a term.
pub open spec fn gave_word(m: MetaView, es: Seq<Event>, term: u64, who: Seq<char>) -> bool {
    exists|i: int| #[trigger] voted_by(m, es, i, term, who)
}

/// Whether the record says so after the first `i` events.
pub open spec fn voted_by(
    m: MetaView,
    es: Seq<Event>,
    i: int,
    term: u64,
    who: Seq<char>,
) -> bool {
    &&& 0 <= i <= es.len()
    &&& m.after(es.take(i)).raft.current_term == term
    &&& m.after(es.take(i)).raft.voted_for == Some(who)
}

/// A node that grants a request in a run has given the candidate its word.
pub proof fn grant_is_word(m: MetaView, es: Seq<Event>, i: int, v: VoteView)
    requires
        0 <= i < es.len(),
        es[i] == Event::Request(RequestView::Vote(v)),
        m.after(es.take(i)).raft.grants(v),
    ensures
        gave_word(m, es, v.term, v.candidate_id),
{
    assert(es.take(i + 1).drop_last() =~= es.take(i));
    assert(es.take(i + 1).last() == es[i]);
    assert(voted_by(m, es, i + 1, v.term, v.candidate_id));
}

/// A node that begins to campaign in a run has given itself its word.
pub proof fn campaign_is_word(m: MetaView, es: Seq<Event>, i: int)
    requires
        0 <= i < es.len(),
        es[i] is Tick,
        m.after(es.take(i)).raft.state == RaftState::Follower,
        m.after(es.take(i + 1)).raft.state == RaftState::Candidate,
    ensures
        gave_word(
            m,
            es,
            m.after(es.take(i + 1)).raft.current_term,
            m.after(es.take(i)).raft.id,
        ),
{
    assert(es.take(i + 1).drop_last() =~= es.take(i));
    assert(es.take(i + 1).last() == es[i]);
    assert(voted_by(
        m,
        es,
        i + 1,
        m.after(es.take(i + 1)).raft.current_term,
        m.after(es.take(i)).raft.id,
    ));
}

/// In a run a node gives its word once in a term.
pub proof fn word_is_single(m: MetaView, es: Seq<Event>, term: u64, a: Seq<char>, b: Seq<char>)
    requires
        gave_word(m, es, term, a),
        gave_word(m, es, term, b),
    ensures
        a == b,
{
    let i = choose|i: int| #[trigger] voted_by(m, es, i, term, a);
    let j = choose|j: int| #[trigger] voted_by(m, es, j, term, b);
    let (lo, hi) = if i <= j { (i, j) } else { (j, i) };
    after_in_two_goes(m, es, lo, hi);
    run_keeps_word(m.after(es.take(lo)), es.subrange(lo, hi));
}

/// Two candidates that majorities of one cluster gave their word to in one
/// term are the same candidate.
pub proof fn one_winner_per_term(
    r: RaftView,
    runs: Map<Seq<char>, (MetaView, Seq<Event>)>,
    term: u64,
    a: Seq<char>,
    for_a: Set<Seq<char>>,
    b: Seq<char>,
    for_b: Set<Seq<char>>,
)
    requires
        runs.dom().finite(),
        runs.dom().len() == r.size(),
        for_a.subset_of(runs.dom()),
        for_b.subset_of(runs.dom()),
        for_a.len() >= r.quorum(),
        for_b.len() >= r.quorum(),
        forall|x: Seq<char>| #[trigger]
            for_a.contains(x) ==> gave_word(runs[x].0, runs[x].1, term, a),
        forall|x: Seq<char>| #[trigger]
            for_b.contains(x) ==> gave_word(runs[x].0, runs[x].1, term, b),
    ensures
        a == b,
{
    quorums_intersect(r, runs.dom(), for_a, for_b);
    let x = choose|x: Seq<char>| #[trigger] for_a.contains(x) && for_b.contains(x);
    word_is_single(runs[x].0, runs[x].1, term, a, b);
}

/// A node that campaigns has voted for itself, and grants no other candidate
/// its vote in that term.
pub proof fn candidate_votes_for_itself(r: RaftView, req: VoteView)
    requires
        r.current_term < u64::MAX,
        req.term == r.current_term + 1,
        r.campaigning().grants(req),
    ensures
        req.candidate_id == r.id,
{
}

/// No vote goes to a candidate whose log is behind.
pub proof fn no_vote_for_stale_log(r: RaftView, req: VoteView)
    requires
        req.last_log_term < r.last_term() || (req.last_log_term == r.last_term()
            && req.last_log_index < r.last_index()),
    ensures
        !r.grants(req),
{
}

/// A node that waits for its snapshot neither votes nor campaigns.
pub proof fn joiner_takes_no_part(m: MetaView, buf: Seq<u8>)
    requires
        m.state.awaiting_snapshot,
        buf.len() > 0,
        buf[0] == crate::meta::message::OP_VOTE,
    ensures
        m.handled(buf) == (m, OutcomeView::Reply(crate::meta::message::wr_answer(0, false))),
        m.ticked() == m,
{
}

// ---------------------------------------------------------------------------
// Logs
// ---------------------------------------------------------------------------

/// Whether every entry's index is its position, counted from one.
pub open spec fn well_indexed(log: Seq<EntryView>) -> bool {
    forall|i: int| 0 <= i < log.len() ==> (#[trigger] log[i]).index == i + 1
}

/// Appending keeps indices and positions together.
pub proof fn append_keeps_indices(r: RaftView, key: Seq<char>, val: Seq<char>)
    requires
        well_indexed(r.log),
        r.last_index() < u64::MAX,
    ensures
        well_indexed(r.appended(key, val).log),
        r.appended(key, val).last_index() == r.log.len() + 1,
{
}

/// After entries were merged at a position, what was before it is unchanged,
/// and at each of their positions stands an entry of their term.
pub proof fn merged_matches(log: Seq<EntryView>, at: int, es: Seq<EntryView>)
    requires
        0 <= at <= log.len(),
    ensures
        merged(log, at, es).len() >= at + es.len(),
        forall|i: int| 0 <= i < at ==> merged(log, at, es)[i] == log[i],
        forall|k: int|
            0 <= k < es.len() ==> (#[trigger] merged(log, at, es)[at + k]).term == es[k].term,
        forall|k: int|
            0 <= k < es.len() ==> (#[trigger] merged(log, at, es)[at + k]) == es[k] || (at + k
                < log.len() && merged(log, at, es)[at + k] == log[at + k]),
    decreases es.len(),
{
    if es.len() > 0 {
        let cut = if at < log.len() && log[at].term != es[0].term { log.take(at) } else { log };
        let grown = if at >= cut.len() { cut.push(es[0]) } else { cut };
        let t = es.skip(1);
        merged_matches(grown, at + 1, t);
        let m = merged(log, at, es);
        assert(m == merged(grown, at + 1, t));
        assert(m[at] == grown[at]);
        assert forall|i: int| 0 <= i < at implies m[i] == log[i] by {
            assert(m[i] == grown[i]);
        }
        assert forall|k: int| 0 <= k < es.len() implies (#[trigger] m[at + k]).term
            == es[k].term by {
            if k > 0 {
                assert(m[at + 1 + (k - 1)].term == t[k - 1].term);
            }
        }
        assert forall|k: int| 0 <= k < es.len() implies (#[trigger] m[at + k]) == es[k] || (at + k
            < log.len() && m[at + k] == log[at + k]) by {
            if k > 0 {
                assert(m[at + 1 + (k - 1)] == t[k - 1] || (at + 1 + (k - 1) < grown.len() && m[at
                    + 1 + (k - 1)] == grown[at + 1 + (k - 1)]));
            }
        }
    }
}

/// An accepted append leaves the follower's log with the leader's terms over
/// the range it covers, and all before it as it was.
pub proof fn accepted_append_matches(r: RaftView, req: AppendView)
    requires
        r.accepts(req),
    ensures
        ({
            let n = r.received(req);
            let at = req.prev_log_index as int;
            &&& at + req.entries.len() <= n.log.len()
            &&& forall|i: int| 0 <= i < at ==> n.log[i] == r.log[i]
            &&& forall|k: int|
                0 <= k < req.entries.len() ==> (#[trigger] n.log[at + k]).term
                    == req.entries[k].term
            &&& n.current_term == req.term
            &&& n.state == RaftState::Follower
        }),
{
    merged_matches(r.log, req.prev_log_index as int, req.entries);
}

/// A leader with an older term is refused and changes nothing.
pub proof fn stale_leader_refused(r: RaftView, req: AppendView)
    requires
        req.term < r.current_term,
    ensures
        !r.accepts(req),
        r.received(req) == r,
{
}

/// A follower does not take more for committed than it holds, and what it has
/// taken for committed stays so while its log reaches there.
pub proof fn commit_within_log(r: RaftView, req: AppendView)
    ensures
        ({
            let n = r.received(req);
            &&& n.commit_index != r.commit_index ==> n.commit_index <= n.last_index()
                && n.commit_index <= req.leader_commit
            &&& r.commit_index <= n.last_index() ==> r.commit_index <= n.commit_index
        }),
{
}

// ---------------------------------------------------------------------------
// Commits
// ---------------------------------------------------------------------------

/// Nothing is committed or applied without a majority, nor by a node that no
/// longer leads.
pub proof fn no_commit_without_quorum(m: MetaView, p: ProposalView)
    requires
        p.acks < p.majority || m.raft.state != RaftState::Leader,
    ensures
        m.concluded(p).0 == m,
        m.concluded(p).1 is Err,
{
}

proof fn found_at(log: Seq<EntryView>, from: int, i: int)
    requires
        0 <= i < log.len(),
        forall|k: int| 0 <= k < log.len() ==> (#[trigger] log[k]).index == from + k + 1,
    ensures
        first_with_index(log, from + i + 1) == Some(log[i]),
    decreases log.len(),
{
    if i > 0 {
        assert(log[0].index == from + 1);
        let t = log.skip(1);
        assert forall|k: int| 0 <= k < t.len() implies (#[trigger] t[k]).index == from + 1 + k
            + 1 by {
            assert(t[k] == log[k + 1]);
        }
        found_at(t, from + 1, i - 1);
    } else {
        assert(log[0].index == from + 1);
    }
}

/// The entries ready to apply are the stretch of the log between the two
/// indices.
pub proof fn ready_is_the_log_between(log: Seq<EntryView>, from: int, to: int)
    requires
        well_indexed(log),
        0 <= from <= to <= log.len(),
    ensures
        applicable(log, from, to) == log.subrange(from, to),
    decreases to - from,
{
    if from < to {
        found_at(log, 0, from);
        ready_is_the_log_between(log, from + 1, to);
        assert(log.subrange(from, to) =~= seq![log[from]] + log.subrange(from + 1, to));
    } else {
        assert(log.subrange(from, to) =~= Seq::<EntryView>::empty());
    }
}

/// Entries are applied once each: right after they were, none is ready.
pub proof fn applied_once(r: RaftView)
    ensures
        r.taken().ready() == Seq::<EntryView>::empty(),
{
}

/// A write that a majority acknowledged is what the next read of its key
/// gives, and it is in the commit log.
pub proof fn committed_write_is_read(m: MetaView, key: Seq<char>, val: Seq<char>, acks: nat)
    requires
        m.raft.state == RaftState::Leader,
        well_indexed(m.raft.log),
        m.raft.last_index() < u64::MAX,
        m.raft.last_applied <= m.raft.log.len(),
        !has_prefix(key, reserved()),
        acks >= m.raft.quorum(),
        m.proposed(key, val).1 is Propose,
    ensures
        ({
            let p = m.proposed(key, val).1->Propose_0;
            let n = m.proposed(key, val).0.concluded(ProposalView { acks, ..p });
            &&& n.1 is Ok
            &&& kv_find(n.0.state.map, key) == Some(val)
            &&& n.0.state.log.len() > 0
            &&& n.0.state.log.last() == p.entry
            &&& n.0.raft.commit_index == p.entry.index
            &&& n.0.raft.last_applied == p.entry.index
        }),
{
    let e = m.raft.next_entry(key, val);
    let a = m.proposed(key, val).0;
    let b = MetaView { raft: RaftView { commit_index: e.index, ..a.raft }, ..a };
    append_keeps_indices(m.raft, key, val);
    let n = a.raft.log.len() as int;
    assert(e.index == n);
    ready_is_the_log_between(a.raft.log, m.raft.last_applied as int, n);
    let es = b.raft.ready();
    assert(es.last() == e);
    let c = MetaView { raft: b.raft.taken(), ..b };
    applied_keeps_vote(c, es.drop_last());
    applied_last(c, es);
    not_config(e);
    kv_read_your_write(c.applied_all(es.drop_last()).0.state.map, key, val, key);
}

proof fn applied_last(m: MetaView, es: Seq<EntryView>)
    ensures
        m.applied_all(es).0.raft.last_applied == m.raft.last_applied,
        m.applied_all(es).0.raft.commit_index == m.raft.commit_index,
    decreases es.len(),
{
    if es.len() > 0 {
        applied_last(m, es.drop_last());
    }
}

/// Membership keys are reserved.
proof fn not_config(e: EntryView)
    requires
        !has_prefix(e.key, reserved()),
    ensures
        !is_config(e),
{
    reveal_strlit("__raft/");
    reveal_strlit("__raft/add:");
    reveal_strlit("__raft/remove:");
    let add = crate::meta::raft::add_prefix();
    let rem = crate::meta::raft::remove_prefix();
    assert(add.take(7) =~= reserved());
    assert(rem.take(7) =~= reserved());
    if has_prefix(e.key, add) {
        assert(e.key.take(7) =~= e.key.take(add.len() as int).take(7));
    }
    if has_prefix(e.key, rem) {
        assert(e.key.take(7) =~= e.key.take(rem.len() as int).take(7));
    }
}

// ---------------------------------------------------------------------------
// Fencing
// ---------------------------------------------------------------------------

/// A write under an epoch older than the node's own is refused and changes
/// nothing, so that a deposed leader cannot have it stored.
pub proof fn stale_epoch_fenced(
    m: MetaView,
    epoch: u64,
    index: u64,
    key: Seq<char>,
    val: Seq<char>,
)
    requires
        m.state.alive,
        epoch < m.state.epoch,
    ensures
        m.served(RequestView::Replicate(epoch, index, key, val)) == (
            m,
            OutcomeView::Reply(code(0)),
        ),
{
}

/// What a node acknowledges under an epoch it accepts, it holds: the next read
/// of the key there gives the value.
pub proof fn acknowledged_write_is_stored(
    m: MetaView,
    epoch: u64,
    index: u64,
    key: Seq<char>,
    val: Seq<char>,
)
    requires
        m.state.alive,
        epoch >= m.state.epoch,
        !has_prefix(key, reserved()),
    ensures
        ({
            let (n, r) = m.served(RequestView::Replicate(epoch, index, key, val));
            &&& r == OutcomeView::Reply(code(1))
            &&& kv_find(n.state.map, key) == Some(val)
            &&& n.state.log.last() == (EntryView { term: epoch, index, key, val })
            &&& n.state.epoch == epoch
        }),
{
    not_config(EntryView { term: epoch, index, key, val });
    kv_read_your_write(m.state.map, key, val, key);
}

/// A node whose epoch and term are both ahead of a leader's acknowledges
/// nothing of it and is left as it was.
pub proof fn deposed_leader_gets_no_ack(
    m: MetaView,
    a: AppendView,
    epoch: u64,
    index: u64,
    key: Seq<char>,
    val: Seq<char>,
)
    requires
        m.state.alive,
        a.term < m.raft.current_term,
        epoch < m.state.epoch,
    ensures
        !m.raft.accepts(a),
        m.raft.received(a) == m.raft,
        m.served(RequestView::Replicate(epoch, index, key, val)) == (
            m,
            OutcomeView::Reply(code(0)),
        ),
{
    stale_leader_refused(m.raft, a);
    stale_epoch_fenced(m, epoch, index, key, val);
}

/// Where a majority acknowledges nothing of a leader, the rest are no
/// majority, so that it commits nothing.
pub proof fn deposed_leader_cannot_commit(
    m: MetaView,
    p: ProposalView,
    members: Set<Seq<char>>,
    silent: Set<Seq<char>>,
    acked: Set<Seq<char>>,
)
    requires
        members.finite(),
        members.len() == m.raft.size(),
        silent.subset_of(members),
        acked.subset_of(members),
        silent.len() >= m.raft.quorum(),
        silent.disjoint(acked),
        p.acks == acked.len(),
        p.majority == m.raft.quorum(),
    ensures
        m.concluded(p).0 == m,
        m.concluded(p).1 is Err,
{
    if acked.len() >= m.raft.quorum() {
        quorums_intersect(m.raft, members, silent, acked);
    }
    no_commit_without_quorum(m, p);
}

/// No request takes the catalog's epoch back.
pub proof fn epoch_never_decreases(m: MetaView, q: RequestView)
    ensures
        m.state.epoch <= m.served(q).0.state.epoch,
{
    if let RequestView::Append(a) = q {
        let n = (MetaView { raft: m.raft.received(a), ..m }).stepped_down();
        applied_keeps_vote(MetaView { raft: n.raft.taken(), ..n }, n.raft.ready());
    }
}

/// A node is promoted only into a later epoch, and leads in it.
pub proof fn promotion_needs_later_epoch(m: MetaView, epoch: u64)
    requires
        m.state.alive,
    ensures
        ({
            let (n, r) = m.served(RequestView::Promote(epoch));
            if epoch > m.state.epoch {
                n.state.epoch == epoch && n.state.is_leader && r == OutcomeView::Reply(code(1))
            } else {
                n == m && r == OutcomeView::Reply(code(0))
            }
        }),
{
}

/// A node that does not lead answers a write so, and stores nothing.
pub proof fn follower_refuses_writes(m: MetaView, key: Seq<char>, val: Seq<char>)
    requires
        m.state.alive,
        !m.state.is_leader || m.raft.state != RaftState::Leader,
    ensures
        m.served(RequestView::Put(key, val)) == (m, OutcomeView::Reply(code(2))),
{
}

// ---------------------------------------------------------------------------
// Membership
// ---------------------------------------------------------------------------

/// A new peer's snapshot gives it the leader's map and log, and everything in
/// that log counts as applied.
pub proof fn snapshot_catches_up(leader: MetaView, joiner: MetaView)
    requires
        kv_distinct(leader.state.map),
    ensures
        ({
            let n = joiner.installed(leader.snapshot());
            &&& n.state.map == leader.state.map
            &&& n.raft.log == leader.raft.log
            &&& n.state.log == visible(leader.raft.log)
            &&& !n.state.awaiting_snapshot
            &&& !n.state.is_leader
            &&& n.state.epoch >= leader.state.epoch
            &&& n.raft.current_term >= leader.state.epoch
        }),
{
    let s = leader.snapshot();
    let empty = Seq::<PairView>::empty();
    assert(empty + s.map =~= s.map);
    kv_rebuild(empty, s.map);
    let last: u64 = if s.entries.len() == 0 { 0 } else { s.entries.last().index };
    let r = (RaftView {
        peers: others(s.peers, joiner.addr),
        log: s.entries,
        commit_index: last,
        last_applied: last,
        current_term: if joiner.raft.current_term >= s.epoch {
            joiner.raft.current_term
        } else {
            s.epoch
        },
        state: RaftState::Follower,
        ..joiner.raft
    }).election_reset();
    configured_keeps_vote(r, s.entries);
}

/// A follower that applies an entry that adds a new peer has one member more;
/// a leader only once the peer is activated.
pub proof fn add_grows_by_one(r: RaftView, e: EntryView, addr: Seq<char>)
    requires
        e.adds() == Some(addr),
        r.is_new(addr),
    ensures
        r.state != RaftState::Leader ==> r.configured(e).0.size() == r.size() + 1 && r.configured(
            e,
        ).1 is None,
        r.state == RaftState::Leader ==> r.configured(e).0 == r && r.configured(e).1 == Some(addr)
            && r.activated(addr).size() == r.size() + 1,
{
}

/// Removing a peer takes one member away; removing the node itself makes it a
/// follower.
pub proof fn remove_shrinks_by_one(r: RaftView, e: EntryView, addr: Seq<char>)
    requires
        e.removes() == Some(addr),
    ensures
        r.peers.contains(addr) ==> r.configured(e).0.size() == r.size() - 1,
        addr == r.id ==> r.configured(e).0.state == RaftState::Follower,
{
    crate::meta::raft::adds_or_removes(e);
    r.peers.index_of_first_ensures(addr);
}

} // verus!
