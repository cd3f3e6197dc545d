//! The client's side: the requests it sends and what it makes of replies.
use crate::meta::message::{
    wr_request, RequestView, OP_ADD_PEER, OP_GET, OP_PROMOTE, OP_PUT, OP_REMOVE_PEER, OP_STATUS,
};
use crate::meta::node::{code, flag, yes_with};
use crate::text::join2;
use crate::wire::{
    get_str, get_u64, le, put_str, put_u64, rd_str, rd_u64, str_read_back, u64_read_back, wr_str,
};
use vstd::prelude::*;
use vstd::utf8::encode_utf8;

verus! {

pub struct MetaClient {
    pub leader: String,
}

#[derive(Clone, Copy, Debug, PartialEq, Eq, Structural)]
pub enum PutResult {
    Committed(u64),
    NotLeader,
    Fenced,
    Unreachable,
}

/// What a reply to a write means. A missing index counts as zero.
pub open spec fn put_outcome(reply: Seq<u8>) -> PutResult {
    if reply.len() == 0 {
        PutResult::Unreachable
    } else if reply[0] == 1 {
        PutResult::Committed(
            match rd_u64(reply.skip(1)) {
                Some((n, _)) => n,
                None => 0,
            },
        )
    } else if reply[0] == 2 {
        PutResult::NotLeader
    } else {
        PutResult::Fenced
    }
}

/// The value in a reply to a read.
pub open spec fn get_outcome(reply: Seq<u8>) -> Option<Seq<char>> {
    if reply.len() == 0 || reply[0] != 1 {
        None
    } else {
        match rd_str(reply.skip(1)) {
            Some((v, _)) => Some(v),
            None => None,
        }
    }
}

/// Leadership, epoch, log length and peer count in a status reply. A missing
/// peer count counts as zero.
pub open spec fn status_outcome(reply: Seq<u8>) -> Option<(bool, u64, u64, u64)> {
    if reply.len() == 0 {
        None
    } else {
        match rd_u64(reply.skip(1)) {
            None => None,
            Some((epoch, s)) => match rd_u64(s) {
                None => None,
                Some((log_len, s)) => Some(
                    (
                        reply[0] != 0,
                        epoch,
                        log_len,
                        match rd_u64(s) {
                            Some((n, _)) => n,
                            None => 0,
                        },
                    ),
                ),
            },
        }
    }
}

/// The key under which a table's metadata path is kept.
pub open spec fn table_key(name: Seq<char>) -> Seq<char> {
    "iceberg.table."@ + name
}

fn request1(op: u8, a: &str) -> (m: Vec<u8>)
    ensures
        m@ == seq![op] + wr_str(a@),
{
    let mut m: Vec<u8> = Vec::new();
    m.push(op);
    assert(m@ =~= seq![op]);
    put_str(&mut m, a);
    m
}

impl MetaClient {
    pub fn new(leader: &str) -> (c: MetaClient)
        ensures
            c.leader@ == leader@,
    {
        MetaClient { leader: leader.to_owned() }
    }

    /// The request that puts a value under a key.
    pub fn put(&self, key: &str, val: &str) -> (m: Vec<u8>)
        ensures
            m@ == wr_request(RequestView::Put(key@, val@)),
    {
        let mut m: Vec<u8> = request1(OP_PUT, key);
        put_str(&mut m, val);
        m
    }

    /// The request that adds a member.
    pub fn add_peer(&self, addr: &str) -> (m: Vec<u8>)
        ensures
            m@ == wr_request(RequestView::AddPeer(addr@)),
    {
        request1(OP_ADD_PEER, addr)
    }

    /// The request that removes a member.
    pub fn remove_peer(&self, addr: &str) -> (m: Vec<u8>)
        ensures
            m@ == wr_request(RequestView::RemovePeer(addr@)),
    {
        request1(OP_REMOVE_PEER, addr)
    }

    /// What a write came to, by the reply; none means that the leader could
    /// not be reached.
    pub fn put_reply(reply: Option<&[u8]>) -> (r: PutResult)
        ensures
            r == (match reply {
                None => PutResult::Unreachable,
                Some(b) => put_outcome(b@),
            }),
    {
        match reply {
            None => PutResult::Unreachable,
            Some(b) => {
                if b.len() == 0 {
                    return PutResult::Unreachable;
                }
                if b[0] == 1 {
                    let mut pos: usize = 1;
                    match get_u64(b, &mut pos) {
                        Some(n) => PutResult::Committed(n),
                        None => PutResult::Committed(0),
                    }
                } else if b[0] == 2 {
                    PutResult::NotLeader
                } else {
                    PutResult::Fenced
                }
            },
        }
    }

    /// The request that reads a key.
    pub fn get(&self, key: &str) -> (m: Vec<u8>)
        ensures
            m@ == wr_request(RequestView::Get(key@)),
    {
        request1(OP_GET, key)
    }

    /// The value in the reply to a read.
    pub fn get_reply(reply: &[u8]) -> (r: Option<String>)
        ensures
            match get_outcome(reply@) {
                None => r is None,
                Some(v) => r is Some && r->0@ == v,
            },
    {
        if reply.len() == 0 || reply[0] != 1 {
            return None;
        }
        let mut pos: usize = 1;
        get_str(reply, &mut pos)
    }

    /// The request that promotes a node into an epoch.
    pub fn promote(epoch: u64) -> (m: Vec<u8>)
        ensures
            m@ == wr_request(RequestView::Promote(epoch)),
    {
        let mut m: Vec<u8> = Vec::new();
        m.push(OP_PROMOTE);
        assert(m@ =~= seq![OP_PROMOTE]);
        put_u64(&mut m, epoch);
        m
    }

    /// Whether a node took a promotion.
    pub fn promote_reply(reply: &[u8]) -> (r: bool)
        ensures
            r == (reply@.len() > 0 && reply@[0] == 1),
    {
        reply.len() > 0 && reply[0] == 1
    }

    /// The request for a node's status.
    pub fn status() -> (m: Vec<u8>)
        ensures
            m@ == wr_request(RequestView::Status),
    {
        let mut m: Vec<u8> = Vec::new();
        m.push(OP_STATUS);
        assert(m@ =~= seq![OP_STATUS]);
        m
    }

    pub fn status_reply(reply: &[u8]) -> (r: Option<(bool, u64, u64, u64)>)
        ensures
            r == status_outcome(reply@),
    {
        if reply.len() == 0 {
            return None;
        }
        let mut pos: usize = 1;
        let epoch: u64 = get_u64(reply, &mut pos)?;
        let log_len: u64 = get_u64(reply, &mut pos)?;
        let peers: u64 = match get_u64(reply, &mut pos) {
            Some(n) => n,
            None => 0,
        };
        Some((reply[0] != 0, epoch, log_len, peers))
    }

    /// The request that commits a table's metadata path.
    pub fn commit_table(&self, name: &str, metadata_path: &str) -> (m: Vec<u8>)
        ensures
            m@ == wr_request(RequestView::Put(table_key(name@), metadata_path@)),
    {
        let key: String = join2("iceberg.table.", name);
        self.put(key.as_str(), metadata_path)
    }

    /// The request that reads a table's metadata path.
    pub fn load_table(&self, name: &str) -> (m: Vec<u8>)
        ensures
            m@ == wr_request(RequestView::Get(table_key(name@))),
    {
        let key: String = join2("iceberg.table.", name);
        self.get(key.as_str())
    }
}

/// How sending a snapshot goes on.
#[derive(Clone, Copy, Debug, PartialEq, Eq, Structural)]
pub enum Retry {
    /// It is over, and whether the peer took the snapshot.
    Over(bool),
    /// Another attempt follows after so many milliseconds.
    Wait(u64),
}

/// How often a snapshot is sent before it is given up.
pub const SNAPSHOT_ATTEMPTS: u64 = 5;

/// What follows an attempt, counted from one, to send a snapshot: a reply ends
/// it, and so does the last attempt.
pub fn next_attempt(attempt: u64, reply: Option<u8>) -> (r: Retry)
    ensures
        r == (match reply {
            Some(b) => Retry::Over(b == 1),
            None => if attempt >= SNAPSHOT_ATTEMPTS {
                Retry::Over(false)
            } else {
                Retry::Wait((40 * attempt) as u64)
            },
        }),
{
    match reply {
        Some(b) => Retry::Over(b == 1),
        None => if attempt >= SNAPSHOT_ATTEMPTS {
            Retry::Over(false)
        } else {
            Retry::Wait(40 * attempt)
        },
    }
}

/// How the search for a leader goes on.
#[derive(Clone, Copy, Debug, PartialEq, Eq, Structural)]
pub enum Poll {
    /// The node at a place leads.
    Found(usize),
    /// The node at a place is to be asked.
    Ask(usize),
    /// All were asked; the next round follows after so many milliseconds.
    Sleep(u64),
    GiveUp,
}

/// The search for a leader among `n` nodes: before a round, or after the node
/// at a place was asked whether it leads. A round begins only before the
/// deadline.
pub fn leader_poll(n: usize, asked: Option<(usize, bool)>, now: u64, deadline: u64) -> (r: Poll)
    ensures
        r == (match asked {
            Some((i, true)) => Poll::Found(i),
            Some((i, false)) => if i + 1 < n {
                Poll::Ask((i + 1) as usize)
            } else {
                Poll::Sleep(50)
            },
            None => if now >= deadline {
                Poll::GiveUp
            } else if n > 0 {
                Poll::Ask(0)
            } else {
                Poll::Sleep(50)
            },
        }),
{
    match asked {
        Some((i, leads)) => if leads {
            Poll::Found(i)
        } else if n > 0 && i < n - 1 {
            Poll::Ask(i + 1)
        } else {
            Poll::Sleep(50)
        },
        None => if now >= deadline {
            Poll::GiveUp
        } else if n > 0 {
            Poll::Ask(0)
        } else {
            Poll::Sleep(50)
        },
    }
}

/// The client takes a reply for what the node meant: the committed index, the
/// value read, and the status.
pub proof fn replies_read_back(
    index: u64,
    val: Seq<char>,
    leader: bool,
    epoch: u64,
    log_len: u64,
    peers: u64,
)
    requires
        encode_utf8(val).len() <= u32::MAX,
    ensures
        put_outcome(yes_with(index)) == PutResult::Committed(index),
        put_outcome(code(2)) == PutResult::NotLeader,
        put_outcome(code(3)) == PutResult::Fenced,
        get_outcome(code(1) + wr_str(val)) == Some(val),
        get_outcome(code(0)) is None,
        status_outcome(
            code(flag(leader)) + le(epoch as nat, 8) + le(log_len as nat, 8) + le(peers as nat, 8),
        ) == Some((leader, epoch, log_len, peers)),
{
    let e = Seq::<u8>::empty();
    assert(yes_with(index).skip(1) =~= le(index as nat, 8) + e);
    u64_read_back(index, e);
    assert((code(1) + wr_str(val)).skip(1) =~= wr_str(val) + e);
    str_read_back(val, e);
    let s2 = le(peers as nat, 8) + e;
    let s1 = le(log_len as nat, 8) + s2;
    let w = code(flag(leader)) + le(epoch as nat, 8) + le(log_len as nat, 8) + le(peers as nat, 8);
    assert(w.skip(1) =~= le(epoch as nat, 8) + s1);
    u64_read_back(epoch, s1);
    u64_read_back(log_len, s2);
    u64_read_back(peers, e);
}

} // verus!
