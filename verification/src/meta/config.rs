//! How a node is told of its peers.
use crate::chars::{trim, trimmed};
use crate::text::{str_eq, strs, strs_push, to_chars};
use vstd::prelude::*;

verus! {

/// How many characters stand before the first comma.
pub open spec fn before_comma(s: Seq<char>) -> nat
    decreases s.len(),
{
    if s.len() > 0 && s[0] != ',' {
        1 + before_comma(s.skip(1))
    } else {
        0
    }
}

proof fn comma_at(s: Seq<char>, n: int)
    requires
        0 <= n <= s.len(),
        forall|i: int| 0 <= i < n ==> #[trigger] s[i] != ',',
        n < s.len() ==> s[n] == ',',
    ensures
        before_comma(s) == n,
    decreases s.len(),
{
    if n > 0 {
        assert(s[0] != ',');
        let t = s.skip(1);
        assert forall|i: int| 0 <= i < n - 1 implies #[trigger] t[i] != ',' by {
            assert(t[i] == s[i + 1]);
        }
        comma_at(t, n - 1);
    }
}

/// The name of a pod among its peers.
pub open spec fn pod_address(pod: Seq<char>) -> Seq<char> {
    pod + ".blitz-meta-headless.blitz.svc.cluster.local:7401"@
}

/// Whether an entry names a peer: it is not empty and not the node itself.
pub open spec fn names_peer(p: Seq<char>, own: Option<Seq<char>>) -> bool {
    p.len() > 0 && own != Some(p)
}

/// The peers that a list between commas names.
pub open spec fn peers_in(s: Seq<char>, own: Option<Seq<char>>) -> Seq<Seq<char>>
    decreases s.len(),
{
    let n = before_comma(s) as int;
    let p = trim(s.take(n));
    let head = if names_peer(p, own) {
        seq![p]
    } else {
        Seq::empty()
    };
    if n < s.len() {
        head + peers_in(s.skip(n + 1), own)
    } else {
        head
    }
}

pub open spec fn own_view(s: Option<String>) -> Option<Seq<char>> {
    match s {
        Some(t) => Some(t@),
        None => None,
    }
}

/// Reads the list of a node's peers, without the node itself.
pub fn peer_list(list: &str, pod: Option<&str>) -> (peers: Vec<String>)
    ensures
        strs(peers@) == peers_in(
            list@,
            match pod {
                Some(p) => Some(pod_address(p@)),
                None => None,
            },
        ),
{
    let own: Option<String> = match pod {
        Some(p) => {
            let mut a: String = p.to_owned();
            a.append(".blitz-meta-headless.blitz.svc.cluster.local:7401");
            Some(a)
        },
        None => None,
    };
    let ghost me: Option<Seq<char>> = own_view(own);
    let v: Vec<char> = to_chars(list);
    let n: usize = v.len();
    let ghost want = peers_in(v@, me);
    let mut peers: Vec<String> = Vec::new();
    let mut i: usize = 0;
    proof {
        assert(v@.skip(0) =~= v@);
        assert(strs(peers@) + want =~= want);
    }
    loop
        invariant_except_break
            strs(peers@) + peers_in(v@.skip(i as int), me) == want,
        invariant
            n == v@.len(),
            i <= n,
            v@ == list@,
            me == own_view(own),
            want == peers_in(v@, me),
        ensures
            strs(peers@) == want,
        decreases n - i,
    {
        let ghost s = v@.skip(i as int);
        let ghost before = strs(peers@);
        let mut e: usize = i;
        let mut part: Vec<char> = Vec::new();
        while e < n && v[e] != ','
            invariant
                i <= e <= n,
                n == v@.len(),
                part@ == v@.subrange(i as int, e as int),
                forall|k: int| i <= k < e ==> #[trigger] v@[k] != ',',
            decreases n - e,
        {
            part.push(v[e]);
            e += 1;
            assert(part@ =~= v@.subrange(i as int, e as int));
        }
        let p: String = trimmed(&part, 0);
        proof {
            assert forall|k: int| 0 <= k < e - i implies #[trigger] s[k] != ',' by {
                assert(s[k] == v@[i + k]);
            }
            if e < n {
                assert(s[e - i] == v@[e as int]);
            }
            comma_at(s, e - i);
            assert(part@.skip(0) =~= s.take(e - i));
        }
        let mine: bool = match &own {
            Some(a) => str_eq(p.as_str(), a.as_str()),
            None => false,
        };
        let keep: bool = p.as_str().unicode_len() > 0 && !mine;
        assert(keep == names_peer(p@, me));
        let ghost rest = if e < n {
            peers_in(v@.skip(e + 1), me)
        } else {
            Seq::empty()
        };
        proof {
            assert(s.skip(e - i + 1) =~= v@.skip(e + 1) || e >= n);
            let head = if keep {
                seq![p@]
            } else {
                Seq::empty()
            };
            assert(peers_in(s, me) =~= head + rest);
            assert(before + (head + rest) =~= (before + head) + rest);
            assert(before + head =~= (if keep {
                before.push(p@)
            } else {
                before
            }));
            strs_push(peers@, p);
        }
        if keep {
            peers.push(p);
        }
        if e >= n {
            assert(strs(peers@) + rest =~= strs(peers@));
            break;
        }
        i = e + 1;
    }
    peers
}

} // verus!
