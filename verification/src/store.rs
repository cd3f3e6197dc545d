//! Where a warehouse keeps its objects: a directory or an S3 bucket.
use crate::sort::{goes_before, orders, sort_positions, sorts, taken, taken_rearranges};
use crate::text::{
    bytes_lt_transitive, from_chars, has_prefix, join_path, path_join, str_lt, strip_prefix, strs,
    text_lt, text_lt_total, to_chars, without_prefix,
};
use vstd::prelude::*;
use vstd::utf8::encode_utf8;

verus! {

/// A text without slashes at its start.
pub open spec fn unrooted(s: Seq<char>) -> Seq<char>
    decreases s.len(),
{
    if s.len() > 0 && s[0] == '/' {
        unrooted(s.skip(1))
    } else {
        s
    }
}

/// A text without slashes at its end.
pub open spec fn unended(s: Seq<char>) -> Seq<char>
    decreases s.len(),
{
    if s.len() > 0 && s.last() == '/' {
        unended(s.drop_last())
    } else {
        s
    }
}

fn lead(v: &Vec<char>) -> (a: usize)
    ensures
        a <= v@.len(),
        v@.skip(a as int) == unrooted(v@),
{
    let mut a: usize = 0;
    assert(v@.skip(0) =~= v@);
    while a < v.len() && v[a] == '/'
        invariant
            a <= v@.len(),
            unrooted(v@.skip(a as int)) == unrooted(v@),
        decreases v@.len() - a,
    {
        assert(v@.skip(a as int).skip(1) =~= v@.skip(a + 1));
        a += 1;
    }
    a
}

fn without_lead(s: &str) -> (r: String)
    ensures
        r@ == unrooted(s@),
{
    let v: Vec<char> = to_chars(s);
    let a: usize = lead(&v);
    let r: String = from_chars(v.as_slice(), a, v.len());
    assert(r@ =~= v@.skip(a as int));
    r
}

/// A directory that holds a warehouse.
pub struct LocalStore {
    pub root: String,
}

impl LocalStore {
    pub fn new(root: &str) -> (s: LocalStore)
        ensures
            s.root@ == root@,
    {
        LocalStore { root: root.to_owned() }
    }

    /// Where the object of a key is.
    pub fn resolve(&self, key: &str) -> (path: String)
        ensures
            path@ == path_join(self.root@, unrooted(key@)),
    {
        let k: String = without_lead(key);
        join_path(self.root.as_str(), k.as_str())
    }
}

/// A bucket that holds a warehouse under a prefix.
pub struct S3Store {
    pub bucket: String,
    pub prefix: String,
}

/// The name of an object in a bucket.
pub open spec fn full_name(prefix: Seq<char>, key: Seq<char>) -> Seq<char> {
    if prefix.len() == 0 {
        unrooted(key)
    } else {
        prefix.push('/') + unrooted(key)
    }
}

/// The key of an object in a bucket: its name without the prefix.
pub open spec fn key_in(prefix: Seq<char>, name: Seq<char>) -> Seq<char> {
    if prefix.len() > 0 && has_prefix(name, prefix.push('/')) {
        name.skip(prefix.push('/').len() as int)
    } else {
        name
    }
}

impl S3Store {
    pub fn new(bucket: &str, prefix: &str) -> (s: S3Store)
        ensures
            s.bucket@ == bucket@,
            s.prefix@ == unended(unrooted(prefix@)),
    {
        let v: Vec<char> = to_chars(prefix);
        let a: usize = lead(&v);
        let mut b: usize = v.len();
        let ghost t = v@.skip(a as int);
        assert(v@.subrange(a as int, b as int) =~= t);
        while b > a && v[b - 1] == '/'
            invariant
                a <= b <= v@.len(),
                unended(v@.subrange(a as int, b as int)) == unended(t),
            decreases b,
        {
            assert(v@.subrange(a as int, b as int).drop_last() =~= v@.subrange(a as int, b - 1));
            b -= 1;
        }
        S3Store { bucket: bucket.to_owned(), prefix: from_chars(v.as_slice(), a, b) }
    }

    /// The name of the object of a key.
    pub fn full_key(&self, key: &str) -> (r: String)
        ensures
            r@ == full_name(self.prefix@, key@),
    {
        let k: String = without_lead(key);
        if self.prefix.as_str().unicode_len() == 0 {
            k
        } else {
            let mut r: String = self.prefix.clone();
            r.push('/');
            r.append(k.as_str());
            r
        }
    }

    /// The key of the object of a name.
    pub fn key(&self, name: &str) -> (r: String)
        ensures
            r@ == key_in(self.prefix@, name@),
    {
        if self.prefix.as_str().unicode_len() == 0 {
            return name.to_owned();
        }
        let mut p: String = self.prefix.clone();
        p.push('/');
        match strip_prefix(name, p.as_str()) {
            Some(r) => r,
            None => name.to_owned(),
        }
    }
}

/// The key that an object was put under is the key it is listed by, but for
/// slashes at its start.
pub proof fn listed_key_is_put_key(prefix: Seq<char>, key: Seq<char>)
    ensures
        key_in(prefix, full_name(prefix, key)) == unrooted(key),
{
    if prefix.len() > 0 {
        let p = prefix.push('/');
        let name = p + unrooted(key);
        assert(name.take(p.len() as int) =~= p);
        assert(name.skip(p.len() as int) =~= unrooted(key));
    }
}

/// A warehouse by its address.
pub enum Warehouse {
    Local(LocalStore),
    S3(S3Store),
}

#[verifier::ext_equal]
pub enum WarehouseView {
    Local(Seq<char>),
    S3(Seq<char>, Seq<char>),
}

impl View for Warehouse {
    type V = WarehouseView;

    open spec fn view(&self) -> WarehouseView {
        match self {
            Warehouse::Local(s) => WarehouseView::Local(s.root@),
            Warehouse::S3(s) => WarehouseView::S3(s.bucket@, s.prefix@),
        }
    }
}

/// How many characters stand before the first slash.
pub open spec fn before_slash(s: Seq<char>) -> nat
    decreases s.len(),
{
    if s.len() > 0 && s[0] != '/' {
        1 + before_slash(s.skip(1))
    } else {
        0
    }
}

/// The warehouse an address names: `s3://bucket/prefix`, or a directory, which
/// may have `file://` before it.
pub open spec fn warehouse_of(uri: Seq<char>) -> WarehouseView {
    match without_prefix(uri, "s3://"@) {
        Some(rest) => {
            let n = before_slash(rest) as int;
            if n < rest.len() {
                WarehouseView::S3(rest.take(n), unended(unrooted(rest.skip(n + 1))))
            } else {
                WarehouseView::S3(rest, Seq::empty())
            }
        },
        None => match without_prefix(uri, "file://"@) {
            Some(path) => WarehouseView::Local(path),
            None => WarehouseView::Local(uri),
        },
    }
}

proof fn slash_at(s: Seq<char>, n: int)
    requires
        0 <= n <= s.len(),
        forall|i: int| 0 <= i < n ==> #[trigger] s[i] != '/',
        n < s.len() ==> s[n] == '/',
    ensures
        before_slash(s) == n,
    decreases s.len(),
{
    if n > 0 {
        assert(s[0] != '/');
        let t = s.skip(1);
        assert forall|i: int| 0 <= i < n - 1 implies #[trigger] t[i] != '/' by {
            assert(t[i] == s[i + 1]);
        }
        slash_at(t, n - 1);
    }
}

/// Opens the warehouse an address names.
pub fn open(uri: &str) -> (w: Warehouse)
    ensures
        w@ == warehouse_of(uri@),
{
    match strip_prefix(uri, "s3://") {
        Some(rest) => {
            let v: Vec<char> = to_chars(rest.as_str());
            let mut n: usize = 0;
            while n < v.len() && v[n] != '/'
                invariant
                    n <= v@.len(),
                    forall|i: int| 0 <= i < n ==> #[trigger] v@[i] != '/',
                decreases v@.len() - n,
            {
                n += 1;
            }
            proof {
                slash_at(v@, n as int);
            }
            if n < v.len() {
                let bucket: String = from_chars(v.as_slice(), 0, n);
                let prefix: String = from_chars(v.as_slice(), n + 1, v.len());
                assert(bucket@ =~= v@.take(n as int));
                assert(prefix@ =~= v@.skip(n + 1));
                Warehouse::S3(S3Store::new(bucket.as_str(), prefix.as_str()))
            } else {
                let none: String = String::new();
                assert(none@ =~= Seq::empty());
                Warehouse::S3(S3Store::new(rest.as_str(), none.as_str()))
            }
        },
        None => match strip_prefix(uri, "file://") {
            Some(path) => Warehouse::Local(LocalStore::new(path.as_str())),
            None => Warehouse::Local(LocalStore::new(uri)),
        },
    }
}

/// A name with slashes for backslashes.
pub open spec fn slashed(s: Seq<char>) -> Seq<char> {
    Seq::new(
        s.len(),
        |i: int|
            if s[i] == '\\' {
                '/'
            } else {
                s[i]
            },
    )
}

pub open spec fn all_slashed(v: Seq<Seq<char>>) -> Seq<Seq<char>> {
    Seq::new(v.len(), |i: int| slashed(v[i]))
}

fn to_slashes(s: &str) -> (r: String)
    ensures
        r@ == slashed(s@),
{
    let v: Vec<char> = to_chars(s);
    let mut out: Vec<char> = Vec::new();
    let mut k: usize = 0;
    while k < v.len()
        invariant
            k <= v@.len(),
            out@ == slashed(v@).take(k as int),
        decreases v@.len() - k,
    {
        out.push(
            if v[k] == '\\' {
                '/'
            } else {
                v[k]
            },
        );
        k += 1;
        assert(out@ =~= slashed(v@).take(k as int));
    }
    let r: String = from_chars(out.as_slice(), 0, out.len());
    assert(r@ =~= slashed(v@));
    r
}

/// Which of two names comes first.
pub open spec fn by_name(v: Seq<Seq<char>>) -> spec_fn(int, int) -> bool {
    |a: int, b: int| text_lt(v[a], v[b])
}

proof fn names_order(v: Seq<Seq<char>>)
    ensures
        orders(by_name(v), v.len() as int),
{
    let less = by_name(v);
    assert forall|a: int, b: int| 0 <= a < v.len() && 0 <= b < v.len() implies !(#[trigger] less(
        a,
        b,
    ) && less(b, a)) by {
        text_lt_total(v[a], v[b]);
    }
    assert forall|a: int, b: int, c: int|
        #![trigger less(a, b), less(b, c)]
        0 <= a < v.len() && 0 <= b < v.len() && 0 <= c < v.len() && less(a, b) && less(b, c) implies less(
        a,
        c,
    ) by {
        bytes_lt_transitive(encode_utf8(v[a]), encode_utf8(v[b]), encode_utf8(v[c]));
    }
    assert forall|a: int, b: int, c: int|
        #![trigger less(a, b), less(b, c)]
        0 <= a < v.len() && 0 <= b < v.len() && 0 <= c < v.len() && !less(a, b) && !less(
            b,
            c,
        ) implies !less(a, c) by {
        text_lt_total(v[a], v[b]);
        text_lt_total(v[b], v[c]);
        text_lt_total(v[a], v[c]);
        if less(a, c) {
            if v[a] != v[b] && v[b] != v[c] {
                bytes_lt_transitive(encode_utf8(v[c]), encode_utf8(v[b]), encode_utf8(v[a]));
            }
        }
    }
}

/// The keys of the objects in a directory: their names with slashes, in order.
pub fn listing(names: &Vec<String>) -> (keys: Vec<String>)
    ensures
        strs(keys@).to_multiset() == all_slashed(strs(names@)).to_multiset(),
        forall|i: int, j: int|
            0 <= i < j < keys@.len() ==> !text_lt((#[trigger] keys@[j])@, (#[trigger] keys@[i])@),
{
    let ghost want = all_slashed(strs(names@));
    let mut v: Vec<String> = Vec::new();
    let mut k: usize = 0;
    while k < names.len()
        invariant
            k <= names@.len(),
            want == all_slashed(strs(names@)),
            v@.len() == k,
            forall|i: int| 0 <= i < k ==> (#[trigger] v@[i])@ == want[i],
        decreases names@.len() - k,
    {
        v.push(to_slashes(names[k].as_str()));
        k += 1;
    }
    let ghost m = strs(v@);
    assert(m =~= want);
    let n: usize = v.len();
    proof {
        names_order(m);
    }
    let lt = |a: usize, b: usize| -> (r: bool)
        requires
            a < v@.len(),
            b < v@.len(),
        ensures
            a < v@.len() && b < v@.len() ==> r == text_lt(v@[a as int]@, v@[b as int]@),
        { str_lt(v[a].as_str(), v[b].as_str()) };
    let at: Vec<usize> = sort_positions(n, &lt, Ghost(by_name(m)));
    let mut keys: Vec<String> = Vec::new();
    let mut j: usize = 0;
    while j < n
        invariant
            j <= n,
            n == v@.len(),
            m == strs(v@),
            sorts(by_name(m), n as nat, at@),
            keys@.len() == j,
            forall|i: int| 0 <= i < j ==> (#[trigger] keys@[i])@ == m[at@[i] as int],
        decreases n - j,
    {
        assert(at@[j as int] < n);
        keys.push(v[at[j]].clone());
        j += 1;
    }
    proof {
        taken_rearranges(m, at@);
        assert(strs(keys@) =~= taken(m, at@));
        assert forall|a: int, b: int| 0 <= a < b < keys@.len() implies !text_lt(
            (#[trigger] keys@[b])@,
            (#[trigger] keys@[a])@,
        ) by {
            assert(goes_before(by_name(m), at@[a] as int, at@[b] as int));
            text_lt_total(m[at@[a] as int], m[at@[b] as int]);
        }
    }
    keys
}

} // verus!
