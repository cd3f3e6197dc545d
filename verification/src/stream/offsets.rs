//! Where the consumers of a stream stand, kept outside the workers.
use crate::meta::client::{get_outcome, MetaClient, PutResult};
use crate::meta::message::{wr_request, RequestView};
use crate::text::{
    dec, dec_value, is_digit, parse_unsigned, parsed_unsigned, push_dec, str_eq, u64_text,
};
use vstd::prelude::*;

verus! {

/// Under which key the offset of a partition is kept.
pub open spec fn key_of(stream: Seq<char>, partition: u32) -> Seq<char> {
    "stream."@ + stream + ".partition."@ + dec(partition as nat) + ".offset"@
}

fn key(stream: &str, partition: u32) -> (k: String)
    ensures
        k@ == key_of(stream@, partition),
{
    let mut k: String = "stream.".to_owned();
    k.append(stream);
    k.append(".partition.");
    push_dec(&mut k, partition as u64);
    k.append(".offset");
    k
}

/// The offset a consumer has committed for each partition of each stream.
pub trait OffsetStore {
    spec fn offset(&self, stream: Seq<char>, partition: u32) -> Option<u64>;

    spec fn wf(&self) -> bool;

    /// Whether every offset can be committed, now and later.
    spec fn never_refuses(&self) -> bool;

    fn get(&self, stream: &str, partition: u32) -> (r: Option<u64>)
        requires
            self.wf(),
        ensures
            r == self.offset(stream@, partition),
    ;

    /// Commits an offset. Where it fails it is not known whether that offset
    /// was kept; no other one changes.
    fn put(&mut self, stream: &str, partition: u32, offset: u64) -> (r: Result<(), String>)
        requires
            old(self).wf(),
        ensures
            final(self).wf(),
            final(self).never_refuses() == old(self).never_refuses(),
            old(self).never_refuses() ==> r is Ok,
            r is Ok ==> final(self).offset(stream@, partition) == Some(offset),
            forall|s: Seq<char>, p: u32|
                s != stream@ || p != partition ==> #[trigger] final(self).offset(s, p) == old(
                    self,
                ).offset(s, p),
    ;
}

/// Offsets kept in the process.
pub struct MemoryOffsetStore {
    pub entries: Vec<(String, u64)>,
}

/// The offset under a key.
pub open spec fn offset_at(e: Seq<(String, u64)>, k: Seq<char>) -> Option<u64>
    decreases e.len(),
{
    if e.len() == 0 {
        None
    } else if e[0].0@ == k {
        Some(e[0].1)
    } else {
        offset_at(e.skip(1), k)
    }
}

proof fn offset_found(e: Seq<(String, u64)>, i: int, k: Seq<char>)
    requires
        0 <= i < e.len(),
        forall|j: int| 0 <= j < i ==> (#[trigger] e[j]).0@ != k,
        e[i].0@ == k,
    ensures
        offset_at(e, k) == Some(e[i].1),
    decreases i,
{
    if i > 0 {
        assert(e[0].0@ != k);
        let t = e.skip(1);
        assert forall|j: int| 0 <= j < i - 1 implies (#[trigger] t[j]).0@ != k by {
            assert(t[j] == e[j + 1]);
        }
        offset_found(t, i - 1, k);
    }
}

proof fn offset_absent(e: Seq<(String, u64)>, k: Seq<char>)
    requires
        forall|j: int| 0 <= j < e.len() ==> (#[trigger] e[j]).0@ != k,
    ensures
        offset_at(e, k) is None,
    decreases e.len(),
{
    if e.len() > 0 {
        assert(e[0].0@ != k);
        let t = e.skip(1);
        assert forall|j: int| 0 <= j < t.len() implies (#[trigger] t[j]).0@ != k by {
            assert(t[j] == e[j + 1]);
        }
        offset_absent(t, k);
    }
}

proof fn offset_kept(e: Seq<(String, u64)>, f: Seq<(String, u64)>, i: int, k: Seq<char>)
    requires
        0 <= i < e.len() <= f.len() <= e.len() + 1,
        forall|j: int| 0 <= j < e.len() && j != i ==> #[trigger] f[j] == e[j],
        e[i].0@ != k,
        f[i].0@ != k,
        f.len() == e.len(),
    ensures
        offset_at(f, k) == offset_at(e, k),
    decreases e.len(),
{
    if i > 0 {
        assert(f[0] == e[0]);
        let t = e.skip(1);
        let u = f.skip(1);
        assert forall|j: int| 0 <= j < t.len() && j != i - 1 implies #[trigger] u[j] == t[j] by {
            assert(f[j + 1] == e[j + 1]);
        }
        offset_kept(t, u, i - 1, k);
    } else {
        assert forall|j: int| 0 <= j < e.skip(1).len() implies f.skip(1)[j] == e.skip(1)[j] by {
            assert(f[j + 1] == e[j + 1]);
        }
        assert(f.skip(1) =~= e.skip(1));
    }
}

proof fn offset_pushed(e: Seq<(String, u64)>, x: (String, u64), k: Seq<char>)
    ensures
        offset_at(e.push(x), k) == (match offset_at(e, k) {
            Some(v) => Some(v),
            None => if x.0@ == k {
                Some(x.1)
            } else {
                None
            },
        }),
    decreases e.len(),
{
    let f = e.push(x);
    if e.len() > 0 {
        assert(f[0] == e[0]);
        assert(f.skip(1) =~= e.skip(1).push(x));
        offset_pushed(e.skip(1), x, k);
    } else {
        assert(f.skip(1) =~= Seq::empty());
        assert(offset_at(f.skip(1), k) is None);
    }
}

impl MemoryOffsetStore {
    pub fn new() -> (s: MemoryOffsetStore)
        ensures
            s.wf(),
            forall|stream: Seq<char>, p: u32| #[trigger] s.offset(stream, p) is None,
    {
        MemoryOffsetStore { entries: Vec::new() }
    }

    /// The first place of a key.
    fn find(&self, k: &str) -> (r: Option<usize>)
        ensures
            match r {
                Some(i) => i < self.entries@.len() && self.entries@[i as int].0@ == k@ && forall|
                    j: int,
                |
                    0 <= j < i ==> (#[trigger] self.entries@[j]).0@ != k@,
                None => forall|j: int|
                    0 <= j < self.entries@.len() ==> (#[trigger] self.entries@[j]).0@ != k@,
            },
    {
        let mut i: usize = 0;
        while i < self.entries.len()
            invariant
                i <= self.entries@.len(),
                forall|j: int| 0 <= j < i ==> (#[trigger] self.entries@[j]).0@ != k@,
            decreases self.entries@.len() - i,
        {
            if str_eq(self.entries[i].0.as_str(), k) {
                return Some(i);
            }
            i += 1;
        }
        None
    }
}

impl Default for MemoryOffsetStore {
    fn default() -> (s: MemoryOffsetStore)
        ensures
            s.wf(),
            forall|stream: Seq<char>, p: u32| #[trigger] s.offset(stream, p) is None,
    {
        MemoryOffsetStore::new()
    }
}

impl OffsetStore for MemoryOffsetStore {
    open spec fn offset(&self, stream: Seq<char>, partition: u32) -> Option<u64> {
        offset_at(self.entries@, key_of(stream, partition))
    }

    open spec fn wf(&self) -> bool {
        true
    }

    open spec fn never_refuses(&self) -> bool {
        true
    }

    fn get(&self, stream: &str, partition: u32) -> (r: Option<u64>) {
        let k: String = key(stream, partition);
        match self.find(k.as_str()) {
            Some(i) => {
                proof {
                    offset_found(self.entries@, i as int, k@);
                }
                Some(self.entries[i].1)
            },
            None => {
                proof {
                    offset_absent(self.entries@, k@);
                }
                None
            },
        }
    }

    fn put(&mut self, stream: &str, partition: u32, offset: u64) -> (r: Result<(), String>)
        ensures
            r is Ok,
    {
        let k: String = key(stream, partition);
        let ghost e = self.entries@;
        let ghost name = k@;
        match self.find(k.as_str()) {
            Some(i) => {
                self.entries.set(i, (k, offset));
                proof {
                    let f = self.entries@;
                    assert forall|s: Seq<char>, p: u32| #[trigger]
                        self.offset(s, p) == (if s == stream@ && p == partition {
                            Some(offset)
                        } else {
                            old(self).offset(s, p)
                        }) by {
                        if s == stream@ && p == partition {
                            assert forall|j: int| 0 <= j < i implies (#[trigger] f[j]).0@ != name by {
                                assert(f[j] == e[j]);
                            }
                            offset_found(f, i as int, name);
                        } else {
                            if key_of(s, p) == name {
                                keys_differ(s, p, stream@, partition);
                            }
                            offset_kept(e, f, i as int, key_of(s, p));
                        }
                    }
                }
            },
            None => {
                self.entries.push((k, offset));
                proof {
                    let x = (k, offset);
                    offset_absent(e, name);
                    assert forall|s: Seq<char>, p: u32| #[trigger]
                        self.offset(s, p) == (if s == stream@ && p == partition {
                            Some(offset)
                        } else {
                            old(self).offset(s, p)
                        }) by {
                        offset_pushed(e, x, key_of(s, p));
                        if key_of(s, p) == name {
                            keys_differ(s, p, stream@, partition);
                        }
                    }
                }
            },
        }
        Ok(())
    }
}

/// A common end of two texts that parts at a character which neither tail
/// holds is found in both.
proof fn tails_same(a: Seq<char>, x: Seq<char>, b: Seq<char>, y: Seq<char>, c: char)
    requires
        a.push(c) + x == b.push(c) + y,
        forall|i: int| 0 <= i < x.len() ==> #[trigger] x[i] != c,
        forall|i: int| 0 <= i < y.len() ==> #[trigger] y[i] != c,
    ensures
        a == b,
        x == y,
{
    let w = a.push(c) + x;
    let v = b.push(c) + y;
    assert(w.len() == v.len());
    assert(w.len() == a.len() + 1 + x.len());
    assert(v.len() == b.len() + 1 + y.len());
    assert(a.push(c)[a.len() as int] == c && b.push(c)[b.len() as int] == c);
    assert(w[a.len() as int] == c);
    assert(v[b.len() as int] == c);
    if a.len() < b.len() {
        let j = b.len() - a.len() - 1;
        assert(w[a.len() + 1 + j] == x[j]);
        assert(x[j] == c);
    } else if b.len() < a.len() {
        let j = a.len() - b.len() - 1;
        assert(v[b.len() + 1 + j] == y[j]);
        assert(y[j] == c);
    }
    assert(a.len() == b.len());
    assert forall|i: int| 0 <= i < a.len() implies a[i] == b[i] by {
        assert(w[i] == a[i] && v[i] == b[i]);
    }
    assert(a =~= b);
    assert forall|i: int| 0 <= i < x.len() implies x[i] == y[i] by {
        assert(w[a.len() + 1 + i] == x[i] && v[b.len() + 1 + i] == y[i]);
    }
    assert(x =~= y);
}

proof fn key_parts(stream: Seq<char>, partition: u32)
    ensures
        key_of(stream, partition) == (("stream."@ + stream + ".partition"@).push('.') + dec(
            partition as nat,
        )) + ".offset"@,
        ".offset"@.len() == 7,
{
    reveal_strlit(".partition.");
    reveal_strlit(".partition");
    reveal_strlit(".offset");
    let h = "stream."@ + stream;
    assert(h + ".partition."@ =~= (h + ".partition"@).push('.'));
}

/// No two partitions share a key.
pub proof fn keys_differ(s: Seq<char>, p: u32, t: Seq<char>, q: u32)
    requires
        key_of(s, p) == key_of(t, q),
    ensures
        s == t,
        p == q,
{
    key_parts(s, p);
    key_parts(t, q);
    let a = "stream."@ + s + ".partition"@;
    let b = "stream."@ + t + ".partition"@;
    let x = dec(p as nat);
    let y = dec(q as nat);
    let end = ".offset"@;
    let w = a.push('.') + x;
    let v = b.push('.') + y;
    assert(w.len() == v.len()) by {
        assert((w + end).len() == (v + end).len());
    }
    assert forall|i: int| 0 <= i < w.len() implies w[i] == v[i] by {
        assert((w + end)[i] == w[i] && (v + end)[i] == v[i]);
    }
    assert(w =~= v);
    dec_value(p as nat);
    dec_value(q as nat);
    assert forall|i: int| 0 <= i < x.len() implies #[trigger] x[i] != '.' by {
        assert(is_digit(x[i]));
    }
    assert forall|i: int| 0 <= i < y.len() implies #[trigger] y[i] != '.' by {
        assert(is_digit(y[i]));
    }
    tails_same(a, x, b, y, '.');
    let h = "stream."@;
    let m = ".partition"@;
    assert(s.len() == t.len()) by {
        assert((h + s + m).len() == (h + t + m).len());
    }
    assert forall|i: int| 0 <= i < s.len() implies s[i] == t[i] by {
        assert((h + s + m)[h.len() + i] == s[i]);
        assert((h + t + m)[h.len() + i] == t[i]);
    }
    assert(s =~= t);
}

/// Offsets kept by the metadata quorum.
pub struct MetaOffsetStore {
    pub client: MetaClient,
}

/// The offset in a reply to a read.
pub open spec fn offset_in(reply: Seq<u8>) -> Option<u64> {
    match get_outcome(reply) {
        Some(v) => match parsed_unsigned(v, u64::MAX as nat) {
            Some(n) => Some(n as u64),
            None => None,
        },
        None => None,
    }
}

/// How the outcome of a write is shown.
pub open spec fn outcome_text(r: PutResult) -> Seq<char> {
    match r {
        PutResult::Committed(i) => "Committed("@ + dec(i as nat) + ")"@,
        PutResult::NotLeader => "NotLeader"@,
        PutResult::Fenced => "Fenced"@,
        PutResult::Unreachable => "Unreachable"@,
    }
}

impl MetaOffsetStore {
    pub fn new(leader: &str) -> (s: MetaOffsetStore)
        ensures
            s.client.leader@ == leader@,
    {
        MetaOffsetStore { client: MetaClient::new(leader) }
    }

    /// The request for the offset of a partition.
    pub fn get(&self, stream: &str, partition: u32) -> (m: Vec<u8>)
        ensures
            m@ == wr_request(RequestView::Get(key_of(stream@, partition))),
    {
        let k: String = key(stream, partition);
        self.client.get(k.as_str())
    }

    /// The offset in the reply.
    pub fn got(reply: &[u8]) -> (r: Option<u64>)
        ensures
            r == offset_in(reply@),
    {
        match MetaClient::get_reply(reply) {
            Some(v) => parse_unsigned(v.as_str(), u64::MAX),
            None => None,
        }
    }

    /// The request that commits the offset of a partition.
    pub fn put(&self, stream: &str, partition: u32, offset: u64) -> (m: Vec<u8>)
        ensures
            m@ == wr_request(
                RequestView::Put(key_of(stream@, partition), dec(offset as nat)),
            ),
    {
        let k: String = key(stream, partition);
        let v: String = u64_text(offset);
        self.client.put(k.as_str(), v.as_str())
    }

    /// Whether the offset was committed.
    pub fn stored(outcome: PutResult) -> (r: Result<(), String>)
        ensures
            match r {
                Ok(_) => outcome is Committed,
                Err(m) => !(outcome is Committed) && m@ == "offset commit failed: "@ + outcome_text(
                    outcome,
                ),
            },
    {
        let mut m: String = "offset commit failed: ".to_owned();
        match outcome {
            PutResult::Committed(_) => return Ok(()),
            PutResult::NotLeader => m.append("NotLeader"),
            PutResult::Fenced => m.append("Fenced"),
            PutResult::Unreachable => m.append("Unreachable"),
        }
        Err(m)
    }
}

/// An offset that was committed is read back.
pub proof fn offset_read_back(offset: u64)
    ensures
        parsed_unsigned(dec(offset as nat), u64::MAX as nat) == Some(offset as nat),
{
    dec_value(offset as nat);
    let t = dec(offset as nat);
    assert(is_digit(t[0]));
}

} // verus!
