//! What whole exchanges with the metadata service come to.
use crate::meta::catalog::{kv_distinct, kv_put_distinct};
use crate::meta::client::{get_outcome, put_outcome, replies_read_back, table_key, PutResult};
use crate::meta::laws::{
    append_keeps_indices, committed_write_is_read, ready_is_the_log_between, snapshot_catches_up,
    well_indexed,
};
use crate::meta::message::RequestView;
use crate::meta::node::{
    configured_all, is_config, others, reserved, yes_with, MetaView, OutcomeView, ProposalView,
};
use crate::meta::raft::{
    add_prefix, adds_or_removes, config_entries_name_their_peer, position, EntryView, RaftState,
    RaftView,
};
use crate::text::has_prefix;
use vstd::prelude::*;
use vstd::utf8::encode_utf8;

verus! {

proof fn applied_keeps_alive(m: MetaView, es: Seq<EntryView>)
    ensures
        m.applied_all(es).0.state.alive == m.state.alive,
        m.applied_all(es).0.addr == m.addr,
        kv_distinct(m.state.map) ==> kv_distinct(m.applied_all(es).0.state.map),
    decreases es.len(),
{
    if es.len() > 0 {
        applied_keeps_alive(m, es.drop_last());
        let n = m.applied_all(es.drop_last()).0;
        if kv_distinct(n.state.map) {
            kv_put_distinct(n.state.map, es.last().key, es.last().val);
        }
    }
}

/// Table pointers are kept apart from membership entries.
proof fn table_key_is_plain(name: Seq<char>)
    ensures
        !has_prefix(table_key(name), reserved()),
{
    reveal_strlit("__raft/");
    reveal_strlit("iceberg.table.");
    if has_prefix(table_key(name), reserved()) {
        assert(table_key(name).take(7)[0] == '_');
        assert(table_key(name)[0] == 'i');
    }
}

/// Tables of different names do not share a pointer.
pub proof fn table_keys_differ(a: Seq<char>, b: Seq<char>)
    requires
        a != b,
    ensures
        table_key(a) != table_key(b),
{
    let n = "iceberg.table."@.len() as int;
    assert(table_key(a).skip(n) =~= a);
    assert(table_key(b).skip(n) =~= b);
}

/// A table pointer that a majority acknowledged is reported as committed, and
/// it is what the next load of that table reads.
pub proof fn committed_table_is_loaded(m: MetaView, name: Seq<char>, path: Seq<char>, acks: nat)
    requires
        m.state.alive,
        m.state.is_leader,
        m.raft.state == RaftState::Leader,
        well_indexed(m.raft.log),
        m.raft.last_index() < u64::MAX,
        m.raft.last_applied <= m.raft.log.len(),
        acks >= m.raft.quorum(),
        encode_utf8(path).len() <= u32::MAX,
    ensures
        ({
            let (a, out) = m.served(RequestView::Put(table_key(name), path));
            let p = out->Propose_0;
            let (n, r) = a.concluded(ProposalView { acks, ..p });
            &&& out is Propose
            &&& r is Ok
            &&& put_outcome(yes_with(p.entry.index)) == PutResult::Committed(p.entry.index)
            &&& n.served(RequestView::Get(table_key(name))) matches (same, OutcomeView::Reply(b))
                && same == n && get_outcome(b) == Some(path)
        }),
{
    let key = table_key(name);
    table_key_is_plain(name);
    committed_write_is_read(m, key, path, acks);
    let p = m.proposed(key, path).1->Propose_0;
    let a = m.proposed(key, path).0;
    let b = MetaView { raft: RaftView { commit_index: p.entry.index, ..a.raft }, ..a };
    applied_keeps_alive(MetaView { raft: b.raft.taken(), ..b }, b.raft.ready());
    replies_read_back(p.entry.index, path, true, 0, 0, 0);
}

// ---------------------------------------------------------------------------
// A peer is added
// ---------------------------------------------------------------------------

/// A leader that applies entries, none of which removes it, leads on with the
/// same log, and with no peer that it did not have.
proof fn leader_applies(m: MetaView, es: Seq<EntryView>)
    requires
        m.raft.state == RaftState::Leader,
        forall|i: int| 0 <= i < es.len() ==> (#[trigger] es[i]).removes() != Some(m.raft.id),
    ensures
        ({
            let r = m.applied_all(es).0.raft;
            &&& r.state == RaftState::Leader
            &&& r.id == m.raft.id
            &&& r.log == m.raft.log
            &&& forall|x: Seq<char>| #[trigger] r.peers.contains(x) ==> m.raft.peers.contains(x)
        }),
        (forall|i: int| 0 <= i < es.len() ==> !is_config(#[trigger] es[i])) ==> m.applied_all(
            es,
        ).0.raft == m.raft && m.applied_all(es).1 == Seq::<Seq<char>>::empty(),
    decreases es.len(),
{
    if es.len() > 0 {
        let d = es.drop_last();
        assert forall|i: int| 0 <= i < d.len() implies (#[trigger] d[i]).removes() != Some(
            m.raft.id,
        ) by {
            assert(d[i] == es[i]);
        }
        leader_applies(m, d);
        if forall|i: int| 0 <= i < es.len() ==> !is_config(#[trigger] es[i]) {
            assert forall|i: int| 0 <= i < d.len() implies !is_config(#[trigger] d[i]) by {
                assert(d[i] == es[i]);
            }
        }
        let q = m.applied_all(d).0.raft;
        let e = es.last();
        assert(e == es[es.len() - 1]);
        if e.adds() is None {
            if let Some(a) = e.removes() {
                if let Some(k) = position(q.peers, a) {
                    q.peers.index_of_first_ensures(a);
                    let t = q.peers.remove(k);
                    assert forall|x: Seq<char>| #[trigger] t.contains(x) implies q.peers.contains(
                        x,
                    ) by {
                        let i = choose|i: int| 0 <= i < t.len() && t[i] == x;
                        assert(q.peers[if i < k { i } else { i + 1 }] == x);
                    }
                }
            }
        }
    }
}

/// A leader after it activated peers one by one.
pub open spec fn activated_all(r: RaftView, peers: Seq<Seq<char>>) -> RaftView
    decreases peers.len(),
{
    if peers.len() == 0 {
        r
    } else {
        activated_all(r, peers.drop_last()).activated(peers.last())
    }
}

proof fn activation_keeps(r: RaftView, peers: Seq<Seq<char>>)
    ensures
        activated_all(r, peers).id == r.id,
        activated_all(r, peers).log == r.log,
        activated_all(r, peers).state == r.state,
    decreases peers.len(),
{
    if peers.len() > 0 {
        activation_keeps(r, peers.drop_last());
    }
}

/// Whether no entry removes a peer that a later one does not add again.
pub open spec fn stays(es: Seq<EntryView>, x: Seq<char>) -> bool
    decreases es.len(),
{
    if es.len() == 0 || es.last().adds() == Some(x) {
        true
    } else {
        es.last().removes() != Some(x) && stays(es.drop_last(), x)
    }
}

proof fn others_hold(peers: Seq<Seq<char>>, addr: Seq<char>, x: Seq<char>)
    ensures
        others(peers, addr).contains(x) <==> peers.contains(x) && x != addr,
    decreases peers.len(),
{
    if peers.len() > 0 {
        let d = peers.drop_last();
        let o = others(d, addr);
        others_hold(d, addr, x);
        if peers.contains(x) {
            let i = choose|i: int| 0 <= i < peers.len() && peers[i] == x;
            if i < d.len() {
                assert(d[i] == x);
            }
        }
        if d.contains(x) {
            let i = choose|i: int| 0 <= i < d.len() && d[i] == x;
            assert(peers[i] == x);
        }
        assert(peers.last() == peers[peers.len() - 1]);
        if peers.last() != addr {
            let t = o.push(peers.last());
            assert(t[o.len() as int] == peers.last());
            if o.contains(x) {
                let i = choose|i: int| 0 <= i < o.len() && o[i] == x;
                assert(t[i] == x);
            }
            if t.contains(x) {
                let i = choose|i: int| 0 <= i < t.len() && t[i] == x;
                if i < o.len() {
                    assert(o[i] == x);
                }
            }
        }
    }
}

/// A peer that membership entries leave, or add again, is there behind them,
/// and none makes a node its own peer.
proof fn replay_keeps(r: RaftView, es: Seq<EntryView>, x: Seq<char>)
    requires
        r.peers.contains(x),
        !r.peers.contains(r.id),
        x != r.id,
        r.state == RaftState::Follower,
    ensures
        configured_all(r, es).state == RaftState::Follower,
        stays(es, x) ==> configured_all(r, es).peers.contains(x),
        configured_all(r, es).id == r.id,
        !configured_all(r, es).peers.contains(r.id),
    decreases es.len(),
{
    if es.len() > 0 {
        let d = es.drop_last();
        replay_keeps(r, d, x);
        let q = configured_all(r, d);
        let e = es.last();
        assert(e == es[es.len() - 1]);
        adds_or_removes(e);
        let at = choose|i: int| 0 <= i < q.peers.len() && q.peers[i] == x;
        match e.adds() {
            Some(a) => {
                let t = q.peers.push(a);
                assert(t[q.peers.len() as int] == a);
                assert(t.contains(a));
                if q.peers.contains(x) {
                    assert(t[at] == x);
                }
                if t.contains(r.id) && q.is_new(a) {
                    let i = choose|i: int| 0 <= i < t.len() && t[i] == r.id;
                    if i < q.peers.len() {
                        assert(q.peers[i] == r.id);
                    }
                }
            },
            None => if let Some(a) = e.removes() {
                if let Some(k) = position(q.peers, a) {
                    q.peers.index_of_first_ensures(a);
                    let t = q.peers.remove(k);
                    if a != x && q.peers.contains(x) {
                        if at < k {
                            assert(t[at] == x);
                        } else {
                            assert(at != k);
                            assert(t[at - 1] == x);
                        }
                    }
                    if t.contains(r.id) {
                        let i = choose|i: int| 0 <= i < t.len() && t[i] == r.id;
                        assert(q.peers[if i < k { i } else { i + 1 }] == r.id);
                    }
                }
            },
        }
    }
}

/// Adding a peer: once a majority holds the entry it is reported as committed,
/// and the peer is the last of those to activate. Once it is activated, behind
/// any others that were, and sent the snapshot, the leader counts it among its
/// peers, the peer counts the leader and not itself, and every read there is
/// answered as by the leader. This is said of a leader whose log does not end
/// its own membership: an entry that does makes it step down.
pub proof fn added_peer_is_caught_up(
    leader: MetaView,
    joiner: MetaView,
    acks: nat,
    up: Seq<Seq<char>>,
    key: Seq<char>,
)
    requires
        leader.state.alive,
        leader.state.is_leader,
        leader.raft.state == RaftState::Leader,
        leader.raft.id == leader.addr,
        well_indexed(leader.raft.log),
        leader.raft.last_index() < u64::MAX,
        leader.raft.last_applied <= leader.raft.log.len(),
        kv_distinct(leader.state.map),
        acks >= leader.raft.quorum(),
        joiner.state.alive,
        joiner.raft.id == joiner.addr,
        joiner.addr != leader.addr,
        !leader.raft.peers.contains(joiner.addr),
        stays(leader.raft.log, leader.addr),
        forall|i: int|
            leader.raft.last_applied <= i < leader.raft.log.len() ==> (
            #[trigger] leader.raft.log[i]).removes() != Some(leader.addr),
    ensures
        ({
            let (a, out) = leader.served(RequestView::AddPeer(joiner.addr));
            let p = out->Propose_0;
            let (b, r) = a.concluded(ProposalView { acks, ..p });
            let l = MetaView { raft: activated_all(b.raft, up.push(joiner.addr)), ..b };
            let j = joiner.installed(l.snapshot());
            &&& out is Propose
            &&& p.entry.index > 0
            &&& put_outcome(yes_with(p.entry.index)) == PutResult::Committed(p.entry.index)
            &&& r is Ok
            &&& r->Ok_0.len() > 0
            &&& r->Ok_0.last() == joiner.addr
            &&& l.raft.peers.contains(joiner.addr)
            &&& l.raft.state == RaftState::Leader
            &&& j.raft.peers.contains(leader.addr)
            &&& !j.raft.peers.contains(joiner.addr)
            &&& !j.state.awaiting_snapshot
            &&& j.served(RequestView::Get(key)).1 == l.served(RequestView::Get(key)).1
            &&& (forall|i: int|
                leader.raft.last_applied <= i < leader.raft.log.len() ==> !is_config(
                    #[trigger] leader.raft.log[i],
                )) ==> r->Ok_0 == seq![joiner.addr] && b.raft.peers == leader.raft.peers
        }),
{
    let addr = joiner.addr;
    let k = add_prefix() + addr;
    let none = Seq::<char>::empty();
    let e = leader.raft.next_entry(k, none);
    config_entries_name_their_peer(e.term, e.index, addr);
    adds_or_removes(e);
    assert(e.adds() == Some(addr));
    assert(is_config(e));
    let a = leader.proposed(k, none).0;
    append_keeps_indices(leader.raft, k, none);
    let n = a.raft.log.len() as int;
    assert(e.index == n);
    let c = MetaView { raft: RaftView { commit_index: e.index, ..a.raft }, ..a };
    ready_is_the_log_between(a.raft.log, leader.raft.last_applied as int, n);
    let es = c.raft.ready();
    let d = es.drop_last();
    assert(es.last() == e);
    assert forall|i: int| 0 <= i < d.len() implies (#[trigger] d[i]).removes() != Some(
        leader.addr,
    ) by {
        assert(d[i] == leader.raft.log[leader.raft.last_applied + i]);
    }
    let t = MetaView { raft: c.raft.taken(), ..c };
    leader_applies(t, d);
    applied_keeps_alive(t, es);
    let b = t.applied_all(es).0;
    assert(b.raft == t.applied_all(d).0.raft);
    assert(t.applied_all(es).1 == t.applied_all(d).1.push(addr));
    if forall|i: int|
        leader.raft.last_applied <= i < leader.raft.log.len() ==> !is_config(
            #[trigger] leader.raft.log[i],
        ) {
        assert forall|i: int| 0 <= i < d.len() implies !is_config(#[trigger] d[i]) by {
            assert(d[i] == leader.raft.log[leader.raft.last_applied + i]);
        }
        assert(t.applied_all(es).1 =~= seq![addr]);
    }
    let q = activated_all(b.raft, up);
    activation_keeps(b.raft, up);
    assert(up.push(addr).drop_last() =~= up);
    let l = MetaView { raft: activated_all(b.raft, up.push(addr)), ..b };
    assert(l.raft == q.activated(addr));
    if q.is_new(addr) {
        assert(l.raft.peers[q.peers.len() as int] == addr);
    }
    replies_read_back(e.index, none, true, 0, 0, 0);
    snapshot_catches_up(l, joiner);
    let s = l.snapshot();
    assert(s.peers.contains(leader.addr)) by {
        if !l.raft.peers.contains(leader.addr) {
            assert(s.peers[l.raft.peers.len() as int] == leader.addr);
        }
    }
    others_hold(s.peers, addr, leader.addr);
    others_hold(s.peers, addr, addr);
    let last: u64 = if s.entries.len() == 0 { 0 } else { s.entries.last().index };
    let r = (RaftView {
        peers: others(s.peers, addr),
        log: s.entries,
        commit_index: last,
        last_applied: last,
        current_term: if joiner.raft.current_term >= s.epoch {
            joiner.raft.current_term
        } else {
            s.epoch
        },
        state: RaftState::Follower,
        ..joiner.raft
    }).election_reset();
    assert(s.entries == leader.raft.log.push(e));
    assert(s.entries.drop_last() =~= leader.raft.log);
    assert(stays(s.entries, leader.addr));
    replay_keeps(r, s.entries, leader.addr);
}

} // verus!
