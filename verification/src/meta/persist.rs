//! The durable form of a node: its consensus state and its catalog.
use crate::meta::catalog::{
    as_commits, as_entries, commits, kv_distinct, kv_put_all, kv_rebuild, KvMap, LogEntry,
    NodeState,
};
use crate::meta::message::{
    entries_fit, entry_list_read_back, more_entries, more_pairs, more_texts, pairs, pairs_fit,
    pair_list_read_back, put_entries, put_pairs, put_texts, st_entries, st_pairs, st_texts,
    text_fits, text_list_read_back, texts_fit, wr_entries, wr_pairs, wr_texts, Pair, PairView,
};
use crate::meta::raft::{
    entries, EntryView, LogEntry as RaftLogEntry, RaftNode, RaftState, RaftView,
};
use crate::partial::{
    more_str, more_u64, more_u8, st_str, st_str_read_back, st_u64, st_u8, Got, Step,
};
use crate::text::{join_path, path_join};
use crate::wire::{le, le_len, put_str, put_u32, put_u64, regroup, u64_read_back, wr_str};
use vstd::prelude::*;

verus! {

/// Why a saved file could not be loaded.
#[derive(Clone, Copy, Debug, PartialEq, Eq, Structural)]
pub enum LoadError {
    BadMagic,
    Truncated,
    NotUtf8,
}

pub open spec fn magic() -> Seq<u8> {
    seq![0x42u8, 0x4cu8, 0x5au8, 0x4du8]
}

/// The bytes both files start with: the magic and a version.
pub open spec fn head() -> Seq<u8> {
    magic() + le(1, 4)
}

/// What is kept of a node's consensus state.
#[verifier::ext_equal]
pub struct SavedRaft {
    pub current_term: u64,
    pub voted_for: Option<Seq<char>>,
    pub commit_index: u64,
    pub last_applied: u64,
    pub peers: Seq<Seq<char>>,
    pub log: Seq<EntryView>,
}

pub open spec fn saved(r: RaftView) -> SavedRaft {
    SavedRaft {
        current_term: r.current_term,
        voted_for: r.voted_for,
        commit_index: r.commit_index,
        last_applied: r.last_applied,
        peers: r.peers,
        log: r.log,
    }
}

pub open spec fn wr_voted(v: Option<Seq<char>>) -> Seq<u8> {
    match v {
        Some(s) => seq![1u8] + wr_str(s),
        None => seq![0u8],
    }
}

pub open spec fn wr_raft(r: SavedRaft) -> Seq<u8> {
    head() + (le(r.current_term as nat, 8) + (wr_voted(r.voted_for) + (le(r.commit_index as nat, 8)
        + (le(r.last_applied as nat, 8) + ((le(r.peers.len(), 8) + wr_texts(r.peers)) + (le(
        r.log.len(),
        8,
    ) + wr_entries(r.log) + Seq::<u8>::empty()))))))
}

pub open spec fn wr_catalog(epoch: u64, map: Seq<PairView>, log: Seq<EntryView>) -> Seq<u8> {
    head() + (le(epoch as nat, 8) + ((le(map.len(), 8) + wr_pairs(map)) + (le(log.len(), 8)
        + wr_entries(log) + Seq::<u8>::empty())))
}

/// What follows the magic and the version.
pub open spec fn rd_head(s: Seq<u8>) -> Result<Seq<u8>, LoadError> {
    if s.len() < 4 {
        Err(LoadError::Truncated)
    } else if s.take(4) != magic() {
        Err(LoadError::BadMagic)
    } else if s.len() < 8 {
        Err(LoadError::Truncated)
    } else {
        Ok(s.skip(8))
    }
}

pub open spec fn st_voted(s: Seq<u8>) -> Step<Option<Seq<char>>> {
    match st_u8(s) {
        Step::More => Step::More,
        Step::Bad => Step::Bad,
        Step::Done(b, s) => if b == 1 {
            match st_str(s) {
                Step::More => Step::More,
                Step::Bad => Step::Bad,
                Step::Done(v, s) => Step::Done(Some(v), s),
            }
        } else {
            Step::Done(None, s)
        },
    }
}

pub open spec fn st_raft(s: Seq<u8>) -> Step<SavedRaft> {
    match st_u64(s) {
        Step::More => Step::More,
        Step::Bad => Step::Bad,
        Step::Done(current_term, s) => match st_voted(s) {
            Step::More => Step::More,
            Step::Bad => Step::Bad,
            Step::Done(voted_for, s) => match st_u64(s) {
                Step::More => Step::More,
                Step::Bad => Step::Bad,
                Step::Done(commit_index, s) => match st_u64(s) {
                    Step::More => Step::More,
                    Step::Bad => Step::Bad,
                    Step::Done(last_applied, s) => match st_texts(s) {
                        Step::More => Step::More,
                        Step::Bad => Step::Bad,
                        Step::Done(peers, s) => match st_entries(s) {
                            Step::More => Step::More,
                            Step::Bad => Step::Bad,
                            Step::Done(log, s) => Step::Done(
                                SavedRaft {
                                    current_term,
                                    voted_for,
                                    commit_index,
                                    last_applied,
                                    peers,
                                    log,
                                },
                                s,
                            ),
                        },
                    },
                },
            },
        },
    }
}

/// An epoch, the pairs of a map, and commits.
pub open spec fn st_catalog(s: Seq<u8>) -> Step<(u64, Seq<PairView>, Seq<EntryView>)> {
    match st_u64(s) {
        Step::More => Step::More,
        Step::Bad => Step::Bad,
        Step::Done(epoch, s) => match st_pairs(s) {
            Step::More => Step::More,
            Step::Bad => Step::Bad,
            Step::Done(map, s) => match st_entries(s) {
                Step::More => Step::More,
                Step::Bad => Step::Bad,
                Step::Done(log, s) => Step::Done((epoch, map, log), s),
            },
        },
    }
}

/// A finished read, or the error that an unfinished one amounts to.
pub open spec fn finished<T>(st: Step<T>) -> Result<T, LoadError> {
    match st {
        Step::Done(v, _) => Ok(v),
        Step::More => Err(LoadError::Truncated),
        Step::Bad => Err(LoadError::NotUtf8),
    }
}

pub open spec fn rd_raft(s: Seq<u8>) -> Result<SavedRaft, LoadError> {
    match rd_head(s) {
        Err(e) => Err(e),
        Ok(s) => finished(st_raft(s)),
    }
}

pub open spec fn rd_catalog(s: Seq<u8>) -> Result<
    (u64, Seq<PairView>, Seq<EntryView>),
    LoadError,
> {
    match rd_head(s) {
        Err(e) => Err(e),
        Ok(s) => finished(st_catalog(s)),
    }
}

/// Where the consensus state is kept.
pub fn raft_path(dir: &str) -> (r: String)
    ensures
        r@ == path_join(dir@, "raft.bin"@),
{
    join_path(dir, "raft.bin")
}

/// Where the catalog is kept.
pub fn catalog_path(dir: &str) -> (r: String)
    ensures
        r@ == path_join(dir@, "catalog.bin"@),
{
    join_path(dir, "catalog.bin")
}

fn put_head(out: &mut Vec<u8>)
    ensures
        final(out)@ == old(out)@ + head(),
{
    out.push(0x42);
    out.push(0x4c);
    out.push(0x5a);
    out.push(0x4d);
    put_u32(out, 1);
    assert(out@ =~= old(out)@ + head());
}

/// The bytes of a node's consensus state.
pub fn save_raft(raft: &RaftNode) -> (buf: Vec<u8>)
    ensures
        buf@ == wr_raft(saved(raft@)),
{
    let ghost v = saved(raft@);
    let ghost e = Seq::<u8>::empty();
    let mut buf: Vec<u8> = Vec::new();
    put_head(&mut buf);
    assert(buf@ =~= head());
    let ghost h0 = buf@;
    put_u64(&mut buf, raft.current_term);
    let ghost h1 = buf@;
    match &raft.voted_for {
        Some(s) => {
            buf.push(1);
            put_str(&mut buf, s.as_str());
        },
        None => {
            buf.push(0);
        },
    }
    assert(buf@ =~= h1 + wr_voted(v.voted_for));
    let ghost h2 = buf@;
    put_u64(&mut buf, raft.commit_index);
    let ghost h3 = buf@;
    put_u64(&mut buf, raft.last_applied);
    let ghost h4 = buf@;
    put_u64(&mut buf, raft.peers.len() as u64);
    put_texts(&mut buf, &raft.peers);
    let ghost h5 = buf@;
    put_u64(&mut buf, raft.log.len() as u64);
    put_entries(&mut buf, raft.log.as_slice());
    proof {
        let p = le(v.peers.len(), 8);
        let q = le(v.log.len(), 8);
        let s5 = q + wr_entries(v.log) + e;
        let s4 = (p + wr_texts(v.peers)) + s5;
        let s3 = le(v.last_applied as nat, 8) + s4;
        let s2 = le(v.commit_index as nat, 8) + s3;
        let s1 = wr_voted(v.voted_for) + s2;
        assert(buf@ =~= h5 + s5);
        regroup(h4, p, wr_texts(v.peers));
        regroup(h4, p + wr_texts(v.peers), s5);
        regroup(h3, le(v.last_applied as nat, 8), s4);
        regroup(h2, le(v.commit_index as nat, 8), s3);
        regroup(h1, wr_voted(v.voted_for), s2);
        regroup(h0, le(v.current_term as nat, 8), s1);
    }
    buf
}

/// The bytes of a node's catalog.
pub fn save_catalog(st: &NodeState) -> (buf: Vec<u8>)
    ensures
        buf@ == wr_catalog(st.epoch, st@.map, st@.log),
{
    let ghost v = st@;
    let mut buf: Vec<u8> = Vec::new();
    put_head(&mut buf);
    assert(buf@ =~= head());
    let ghost h0 = buf@;
    put_u64(&mut buf, st.epoch);
    let ghost h1 = buf@;
    put_u64(&mut buf, st.map.pairs.len() as u64);
    put_pairs(&mut buf, &st.map.pairs);
    let ghost h2 = buf@;
    let es: Vec<RaftLogEntry> = as_entries(&st.log);
    assert(es@.len() == entries(es@).len());
    put_u64(&mut buf, es.len() as u64);
    put_entries(&mut buf, es.as_slice());
    proof {
        let p = le(v.map.len(), 8);
        let q = le(v.log.len(), 8);
        let s2 = q + wr_entries(v.log) + Seq::<u8>::empty();
        let s1 = (p + wr_pairs(v.map)) + s2;
        assert(buf@ =~= h2 + s2);
        regroup(h1, p, wr_pairs(v.map));
        regroup(h1, p + wr_pairs(v.map), s2);
        regroup(h0, le(v.epoch as nat, 8), s1);
    }
    buf
}

/// Checks the magic; the version is not looked at.
fn get_head(buf: &[u8]) -> (r: Result<usize, LoadError>)
    ensures
        match rd_head(buf@) {
            Err(e) => r == Err::<usize, LoadError>(e),
            Ok(s) => r == Ok::<usize, LoadError>(8) && buf@.skip(8) == s && buf@.len() >= 8,
        },
{
    if buf.len() < 4 {
        return Err(LoadError::Truncated);
    }
    proof {
        let t = buf@.take(4);
        assert(t[0] == buf@[0] && t[1] == buf@[1] && t[2] == buf@[2] && t[3] == buf@[3]);
        if buf@[0] == 0x42 && buf@[1] == 0x4c && buf@[2] == 0x5a && buf@[3] == 0x4d {
            assert(t =~= magic());
        }
    }
    if buf[0] != 0x42 || buf[1] != 0x4c || buf[2] != 0x5a || buf[3] != 0x4d {
        return Err(LoadError::BadMagic);
    }
    if buf.len() < 8 {
        return Err(LoadError::Truncated);
    }
    Ok(8)
}

/// The node that was saved, as a follower with fresh timers. The identity is
/// the caller's.
pub open spec fn restored(id: Seq<char>, s: SavedRaft) -> RaftView {
    RaftView {
        id,
        peers: s.peers,
        current_term: s.current_term,
        voted_for: s.voted_for,
        log: s.log,
        state: RaftState::Follower,
        commit_index: s.commit_index,
        last_applied: s.last_applied,
        next_index: Seq::new(s.peers.len(), |i: int| 0u64),
        match_index: Seq::new(s.peers.len(), |i: int| 0u64),
        election_timeout: (250 + crate::meta::raft::jitter(id)) as u64,
        heartbeat_timeout: 50,
        clock: 0,
    }
}

pub fn load_raft(buf: &[u8], id: &str) -> (r: Result<RaftNode, LoadError>)
    ensures
        match rd_raft(buf@) {
            Err(e) => r matches Err(f) && e == f,
            Ok(s) => r matches Ok(n) && n@ == restored(id@, s),
        },
{
    let mut pos: usize = match get_head(buf) {
        Ok(p) => p,
        Err(e) => return Err(e),
    };
    let current_term: u64 = match more_u64(buf, &mut pos) {
        Got::Done(v) => v,
        Got::More => return Err(LoadError::Truncated),
        Got::Bad => return Err(LoadError::NotUtf8),
    };
    let has: u8 = match more_u8(buf, &mut pos) {
        Got::Done(v) => v,
        Got::More => return Err(LoadError::Truncated),
        Got::Bad => return Err(LoadError::NotUtf8),
    };
    let voted_for: Option<String> = if has == 1 {
        match more_str(buf, &mut pos) {
            Got::Done(v) => Some(v),
            Got::More => return Err(LoadError::Truncated),
            Got::Bad => return Err(LoadError::NotUtf8),
        }
    } else {
        None
    };
    let commit_index: u64 = match more_u64(buf, &mut pos) {
        Got::Done(v) => v,
        Got::More => return Err(LoadError::Truncated),
        Got::Bad => return Err(LoadError::NotUtf8),
    };
    let last_applied: u64 = match more_u64(buf, &mut pos) {
        Got::Done(v) => v,
        Got::More => return Err(LoadError::Truncated),
        Got::Bad => return Err(LoadError::NotUtf8),
    };
    let peers: Vec<String> = match more_texts(buf, &mut pos) {
        Got::Done(v) => v,
        Got::More => return Err(LoadError::Truncated),
        Got::Bad => return Err(LoadError::NotUtf8),
    };
    let log: Vec<RaftLogEntry> = match more_entries(buf, &mut pos) {
        Got::Done(v) => v,
        Got::More => return Err(LoadError::Truncated),
        Got::Bad => return Err(LoadError::NotUtf8),
    };
    let mut node: RaftNode = RaftNode::new(id.to_owned(), peers);
    node.current_term = current_term;
    node.voted_for = voted_for;
    node.commit_index = commit_index;
    node.last_applied = last_applied;
    node.log = log;
    assert(rd_raft(buf@) matches Ok(s) && node@ =~= restored(id@, s));
    Ok(node)
}

/// The epoch, the map and the commits that were saved.
pub fn load_catalog(buf: &[u8]) -> (r: Result<(u64, KvMap, Vec<LogEntry>), LoadError>)
    ensures
        match rd_catalog(buf@) {
            Err(e) => r matches Err(f) && e == f,
            Ok((epoch, map, log)) => r matches Ok((e, m, l)) && e == epoch && m@ == kv_put_all(
                Seq::empty(),
                map,
            ) && kv_distinct(m@) && commits(l@) == log,
        },
{
    let mut pos: usize = match get_head(buf) {
        Ok(p) => p,
        Err(e) => return Err(e),
    };
    let epoch: u64 = match more_u64(buf, &mut pos) {
        Got::Done(v) => v,
        Got::More => return Err(LoadError::Truncated),
        Got::Bad => return Err(LoadError::NotUtf8),
    };
    let list: Vec<Pair> = match more_pairs(buf, &mut pos) {
        Got::Done(v) => v,
        Got::More => return Err(LoadError::Truncated),
        Got::Bad => return Err(LoadError::NotUtf8),
    };
    let log: Vec<RaftLogEntry> = match more_entries(buf, &mut pos) {
        Got::Done(v) => v,
        Got::More => return Err(LoadError::Truncated),
        Got::Bad => return Err(LoadError::NotUtf8),
    };
    Ok((epoch, KvMap::from_pairs(list), as_commits(&log)))
}

proof fn head_read_back(rest: Seq<u8>)
    ensures
        rd_head(head() + rest) == Ok::<Seq<u8>, LoadError>(rest),
{
    le_len(1, 4);
    assert((head() + rest).take(4) =~= magic());
    assert((head() + rest).skip(8) =~= rest);
}

proof fn voted_read_back(v: Option<Seq<char>>, rest: Seq<u8>)
    requires
        v matches Some(t) ==> text_fits(t),
    ensures
        st_voted(wr_voted(v) + rest) == Step::Done(v, rest),
{
    let s = wr_voted(v) + rest;
    match v {
        Some(t) => {
            assert(s.skip(1) =~= wr_str(t) + rest);
            st_str_read_back(t, rest);
        },
        None => {
            assert(s.skip(1) =~= rest);
        },
    }
}

/// Reads that follow each other make up the whole.
proof fn raft_steps(
    r: SavedRaft,
    s0: Seq<u8>,
    s1: Seq<u8>,
    s2: Seq<u8>,
    s3: Seq<u8>,
    s4: Seq<u8>,
    s5: Seq<u8>,
    e: Seq<u8>,
)
    requires
        st_u64(s0) == Step::Done(r.current_term, s1),
        st_voted(s1) == Step::Done(r.voted_for, s2),
        st_u64(s2) == Step::Done(r.commit_index, s3),
        st_u64(s3) == Step::Done(r.last_applied, s4),
        st_texts(s4) == Step::Done(r.peers, s5),
        st_entries(s5) == Step::Done(r.log, e),
    ensures
        st_raft(s0) == Step::Done(r, e),
{
}

/// A node's consensus state survives being saved and loaded.
pub proof fn raft_read_back(r: SavedRaft)
    requires
        r.voted_for matches Some(v) ==> text_fits(v),
        texts_fit(r.peers),
        entries_fit(r.log),
    ensures
        rd_raft(wr_raft(r)) == Ok::<SavedRaft, LoadError>(r),
{
    let e = Seq::<u8>::empty();
    let s5 = le(r.log.len(), 8) + wr_entries(r.log) + e;
    let s4 = (le(r.peers.len(), 8) + wr_texts(r.peers)) + s5;
    let s3 = le(r.last_applied as nat, 8) + s4;
    let s2 = le(r.commit_index as nat, 8) + s3;
    let s1 = wr_voted(r.voted_for) + s2;
    let s0 = le(r.current_term as nat, 8) + s1;
    assert(rd_head(wr_raft(r)) == Ok::<Seq<u8>, LoadError>(s0)) by {
        head_read_back(s0);
    }
    assert(st_u64(s0) == Step::Done(r.current_term, s1)) by {
        u64_read_back(r.current_term, s1);
    }
    assert(st_voted(s1) == Step::Done(r.voted_for, s2)) by {
        voted_read_back(r.voted_for, s2);
    }
    assert(st_u64(s2) == Step::Done(r.commit_index, s3)) by {
        u64_read_back(r.commit_index, s3);
    }
    assert(st_u64(s3) == Step::Done(r.last_applied, s4)) by {
        u64_read_back(r.last_applied, s4);
    }
    assert(st_texts(s4) == Step::Done(r.peers, s5)) by {
        text_list_read_back(r.peers, s5);
    }
    assert(st_entries(s5) == Step::Done(r.log, e)) by {
        entry_list_read_back(r.log, e);
    }
    raft_steps(r, s0, s1, s2, s3, s4, s5, e);
}

/// A catalog survives being saved and loaded, whatever order its pairs are in.
pub proof fn catalog_read_back(epoch: u64, map: Seq<PairView>, log: Seq<EntryView>)
    requires
        pairs_fit(map),
        kv_distinct(map),
        entries_fit(log),
    ensures
        rd_catalog(wr_catalog(epoch, map, log)) == Ok::<
            (u64, Seq<PairView>, Seq<EntryView>),
            LoadError,
        >((epoch, map, log)),
        kv_put_all(Seq::empty(), map) == map,
{
    let s2 = le(log.len(), 8) + wr_entries(log) + Seq::<u8>::empty();
    let s1 = (le(map.len(), 8) + wr_pairs(map)) + s2;
    head_read_back(le(epoch as nat, 8) + s1);
    u64_read_back(epoch, s1);
    pair_list_read_back(map, s2);
    entry_list_read_back(log, Seq::empty());
    assert(Seq::<PairView>::empty() + map =~= map);
    kv_rebuild(Seq::empty(), map);
}

} // verus!
