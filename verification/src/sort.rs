//! Stable sorting of positions by a comparison of what stands there.
use vstd::prelude::*;

verus! {

/// Whether position `a` goes before position `b`: what stands there is less,
/// or neither is less and `a` comes first.
pub open spec fn goes_before(less: spec_fn(int, int) -> bool, a: int, b: int) -> bool {
    less(a, b) || (!less(b, a) && a < b)
}

/// Whether `less` orders the positions below `n`, up to ties.
pub open spec fn orders(less: spec_fn(int, int) -> bool, n: int) -> bool {
    &&& forall|a: int, b: int| 0 <= a < n && 0 <= b < n ==> !(#[trigger] less(a, b) && less(b, a))
    &&& forall|a: int, b: int, c: int|
        #![trigger less(a, b), less(b, c)]
        0 <= a < n && 0 <= b < n && 0 <= c < n && less(a, b) && less(b, c) ==> less(a, c)
    &&& forall|a: int, b: int, c: int|
        #![trigger less(a, b), less(b, c)]
        0 <= a < n && 0 <= b < n && 0 <= c < n && !less(a, b) && !less(b, c) ==> !less(a, c)
}

/// Positions in order.
pub open spec fn in_order(less: spec_fn(int, int) -> bool, s: Seq<usize>) -> bool {
    forall|i: int, j: int|
        0 <= i < j < s.len() ==> goes_before(less, #[trigger] s[i] as int, #[trigger] s[j] as int)
}

pub open spec fn below(s: Seq<usize>, n: int) -> bool {
    forall|i: int| 0 <= i < s.len() ==> (#[trigger] s[i]) < n
}

/// The positions below `n`.
pub open spec fn positions(n: nat) -> Seq<usize> {
    Seq::new(n, |i: int| i as usize)
}

/// Whether `s` is the stable sorting of the positions below `n`: each once,
/// and in order.
pub open spec fn sorts(less: spec_fn(int, int) -> bool, n: nat, s: Seq<usize>) -> bool {
    &&& s.to_multiset() == positions(n).to_multiset()
    &&& s.len() == n
    &&& below(s, n as int)
    &&& in_order(less, s)
}

proof fn before_transitive(less: spec_fn(int, int) -> bool, n: int, a: int, b: int, c: int)
    requires
        orders(less, n),
        0 <= a < n,
        0 <= b < n,
        0 <= c < n,
        goes_before(less, a, b),
        goes_before(less, b, c),
    ensures
        goes_before(less, a, c),
{
    if less(a, b) {
        if less(b, c) {
        } else {
            if !less(a, c) {
                assert(!less(a, c) && !less(c, b));
                assert(!less(a, b));
            }
        }
    } else if less(b, c) {
        if !less(a, c) {
            assert(!less(b, a) && !less(a, c));
            assert(!less(b, c));
        }
    } else {
        assert(!less(c, b) && !less(b, a));
        assert(!less(c, a));
    }
}

fn merge<F: Fn(usize, usize) -> bool>(
    x: &Vec<usize>,
    y: &Vec<usize>,
    n: usize,
    lt: &F,
    Ghost(less): Ghost<spec_fn(int, int) -> bool>,
) -> (out: Vec<usize>)
    requires
        orders(less, n as int),
        below(x@, n as int),
        below(y@, n as int),
        in_order(less, x@),
        in_order(less, y@),
        forall|i: int, j: int| 0 <= i < x@.len() && 0 <= j < y@.len() ==> x@[i] != y@[j],
        forall|a: usize, b: usize| a < n && b < n ==> call_requires(lt, (a, b)),
        forall|a: usize, b: usize, r: bool|
            a < n && b < n && call_ensures(lt, (a, b), r) ==> r == less(a as int, b as int),
    ensures
        out@.to_multiset() == x@.to_multiset().add(y@.to_multiset()),
        out@.len() == x@.len() + y@.len(),
        below(out@, n as int),
        in_order(less, out@),
{
    broadcast use vstd::seq_lib::group_to_multiset_ensures;

    let mut out: Vec<usize> = Vec::new();
    let mut i: usize = 0;
    let mut j: usize = 0;
    proof {
        assert(x@.take(0) =~= Seq::<usize>::empty());
        assert(y@.take(0) =~= Seq::<usize>::empty());
        assert(out@.to_multiset() =~= x@.take(0).to_multiset().add(y@.take(0).to_multiset()));
    }
    while i < x.len() || j < y.len()
        invariant
            i <= x@.len(),
            j <= y@.len(),
            orders(less, n as int),
            below(x@, n as int),
            below(y@, n as int),
            in_order(less, x@),
            in_order(less, y@),
            forall|i: int, j: int| 0 <= i < x@.len() && 0 <= j < y@.len() ==> x@[i] != y@[j],
            forall|a: usize, b: usize| a < n && b < n ==> call_requires(lt, (a, b)),
            forall|a: usize, b: usize, r: bool|
                a < n && b < n && call_ensures(lt, (a, b), r) ==> r == less(a as int, b as int),
            out@.len() == i + j,
            below(out@, n as int),
            in_order(less, out@),
            forall|k: int| 0 <= k < out@.len() && i < x@.len() ==> goes_before(
                less,
                #[trigger] out@[k] as int,
                x@[i as int] as int,
            ),
            forall|k: int| 0 <= k < out@.len() && j < y@.len() ==> goes_before(
                less,
                #[trigger] out@[k] as int,
                y@[j as int] as int,
            ),
            out@.to_multiset() == x@.take(i as int).to_multiset().add(
                y@.take(j as int).to_multiset(),
            ),
        decreases x@.len() - i + y@.len() - j,
    {
        let left: bool = if i == x.len() {
            false
        } else if j == y.len() {
            true
        } else {
            let a: usize = x[i];
            let b: usize = y[j];
            if lt(a, b) {
                true
            } else if lt(b, a) {
                false
            } else {
                a < b
            }
        };
        let v: usize = if left {
            x[i]
        } else {
            y[j]
        };
        proof {
            let ghost o = out@.push(v);
            if left {
                assert(x@.take(i + 1) =~= x@.take(i as int).push(v));
                if j < y@.len() {
                    assert(goes_before(less, v as int, y@[j as int] as int));
                }
                if i + 1 < x@.len() {
                    assert(goes_before(less, x@[i as int] as int, x@[i + 1] as int));
                    assert forall|k: int| 0 <= k < o.len() implies goes_before(
                        less,
                        #[trigger] o[k] as int,
                        x@[i + 1] as int,
                    ) by {
                        if k < out@.len() {
                            before_transitive(
                                less,
                                n as int,
                                out@[k] as int,
                                v as int,
                                x@[i + 1] as int,
                            );
                        }
                    }
                }
            } else {
                assert(y@.take(j + 1) =~= y@.take(j as int).push(v));
                if i < x@.len() {
                    assert(goes_before(less, v as int, x@[i as int] as int));
                }
                if j + 1 < y@.len() {
                    assert(goes_before(less, y@[j as int] as int, y@[j + 1] as int));
                    assert forall|k: int| 0 <= k < o.len() implies goes_before(
                        less,
                        #[trigger] o[k] as int,
                        y@[j + 1] as int,
                    ) by {
                        if k < out@.len() {
                            before_transitive(
                                less,
                                n as int,
                                out@[k] as int,
                                v as int,
                                y@[j + 1] as int,
                            );
                        }
                    }
                }
            }
        }
        let ghost ob = out@;
        out.push(v);
        proof {
            vstd::seq_lib::to_multiset_build(ob, v);
            if left {
                vstd::seq_lib::to_multiset_build(x@.take(i as int), v);
                assert(out@.to_multiset() =~= x@.take(i + 1).to_multiset().add(
                    y@.take(j as int).to_multiset(),
                ));
            } else {
                vstd::seq_lib::to_multiset_build(y@.take(j as int), v);
                assert(out@.to_multiset() =~= x@.take(i as int).to_multiset().add(
                    y@.take(j + 1).to_multiset(),
                ));
            }
        }
        if left {
            i += 1;
        } else {
            j += 1;
        }
    }
    assert(x@.take(i as int) =~= x@);
    assert(y@.take(j as int) =~= y@);
    out
}

/// Sorts the positions from `from` to `to`.
fn sort_range<F: Fn(usize, usize) -> bool>(
    from: usize,
    to: usize,
    n: usize,
    lt: &F,
    Ghost(less): Ghost<spec_fn(int, int) -> bool>,
) -> (out: Vec<usize>)
    requires
        from <= to <= n,
        orders(less, n as int),
        forall|a: usize, b: usize| a < n && b < n ==> call_requires(lt, (a, b)),
        forall|a: usize, b: usize, r: bool|
            a < n && b < n && call_ensures(lt, (a, b), r) ==> r == less(a as int, b as int),
    ensures
        out@.to_multiset() == positions(n as nat).subrange(from as int, to as int).to_multiset(),
        out@.len() == to - from,
        below(out@, n as int),
        in_order(less, out@),
        forall|i: int| 0 <= i < out@.len() ==> from <= #[trigger] out@[i] < to,
    decreases to - from,
{
    broadcast use vstd::seq_lib::group_to_multiset_ensures;

    let ghost all = positions(n as nat);
    if to - from == 0 {
        let out: Vec<usize> = Vec::new();
        assert(all.subrange(from as int, to as int) =~= out@);
        return out;
    }
    if to - from == 1 {
        let mut out: Vec<usize> = Vec::new();
        out.push(from);
        assert(all.subrange(from as int, to as int) =~= out@);
        return out;
    }
    let mid: usize = from + (to - from) / 2;
    let x: Vec<usize> = sort_range(from, mid, n, lt, Ghost(less));
    let y: Vec<usize> = sort_range(mid, to, n, lt, Ghost(less));
    let out: Vec<usize> = merge(&x, &y, n, lt, Ghost(less));
    proof {
        let a = all.subrange(from as int, mid as int);
        let b = all.subrange(mid as int, to as int);
        assert(all.subrange(from as int, to as int) =~= a + b);
        vstd::seq_lib::lemma_multiset_commutative(a, b);
        assert forall|i: int| 0 <= i < out@.len() implies from <= #[trigger] out@[i] < to by {
            assert(out@.to_multiset().count(out@[i]) > 0) by {
                assert(out@.contains(out@[i]));
            }
            if x@.to_multiset().count(out@[i]) > 0 {
                assert(x@.contains(out@[i]));
                let k = choose|k: int| 0 <= k < x@.len() && x@[k] == out@[i];
                assert(from <= x@[k] < mid);
            } else {
                assert(y@.to_multiset().count(out@[i]) > 0);
                assert(y@.contains(out@[i]));
                let k = choose|k: int| 0 <= k < y@.len() && y@[k] == out@[i];
                assert(mid <= y@[k] < to);
            }
        }
    }
    out
}

/// Sorts the positions below `n`; ties stay in their order.
pub(crate) fn sort_positions<F: Fn(usize, usize) -> bool>(
    n: usize,
    lt: &F,
    Ghost(less): Ghost<spec_fn(int, int) -> bool>,
) -> (out: Vec<usize>)
    requires
        orders(less, n as int),
        forall|a: usize, b: usize| a < n && b < n ==> call_requires(lt, (a, b)),
        forall|a: usize, b: usize, r: bool|
            a < n && b < n && call_ensures(lt, (a, b), r) ==> r == less(a as int, b as int),
    ensures
        sorts(less, n as nat, out@),
{
    let out: Vec<usize> = sort_range(0, n, n, lt, Ghost(less));
    assert(positions(n as nat).subrange(0, n as int) =~= positions(n as nat));
    out
}

/// What stands at some positions.
pub open spec fn taken<T>(s: Seq<T>, at: Seq<usize>) -> Seq<T> {
    Seq::new(at.len(), |i: int| s[at[i] as int])
}

/// Sorting keeps everything: taking what stands at each position once gives a
/// rearrangement of the whole.
pub proof fn taken_rearranges<T>(s: Seq<T>, at: Seq<usize>)
    requires
        at.to_multiset() == positions(s.len()).to_multiset(),
        below(at, s.len() as int),
        s.len() <= usize::MAX,
    ensures
        taken(s, at).to_multiset() == s.to_multiset(),
{
    let p = positions(s.len());
    taken_same_multiset(s, at, p);
    assert(taken(s, p) =~= s);
}

proof fn taken_same_multiset<T>(s: Seq<T>, a: Seq<usize>, b: Seq<usize>)
    requires
        a.to_multiset() == b.to_multiset(),
    ensures
        taken(s, a).to_multiset() == taken(s, b).to_multiset(),
    decreases a.len(),
{
    broadcast use vstd::seq_lib::group_to_multiset_ensures;

    vstd::seq_lib::to_multiset_len(a);
    vstd::seq_lib::to_multiset_len(b);
    if a.len() == 0 {
        assert(taken(s, a) =~= taken(s, b));
    } else {
        let v = a.last();
        assert(a.to_multiset().count(v) > 0) by {
            assert(a.contains(v));
        }
        assert(b.contains(v));
        let k = b.index_of(v);
        let a1 = a.drop_last();
        let b1 = b.remove(k);
        assert(a =~= a1.push(v));
        assert(b1.to_multiset() =~= b.to_multiset().remove(v));
        assert(a1.to_multiset() =~= a.to_multiset().remove(v));
        taken_same_multiset(s, a1, b1);
        assert(taken(s, a) =~= taken(s, a1).push(s[v as int]));
        assert(taken(s, b1) =~= taken(s, b).remove(k));
        assert(taken(s, b).to_multiset() =~= taken(s, b1).to_multiset().insert(s[v as int]));
    }
}

} // verus!
