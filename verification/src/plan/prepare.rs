//! From a statement to a plan whose scans read only the files they need.
use crate::plan::ast::Ast;
use crate::plan::bind::bind;
use crate::plan::optimize::{bounds_readable, prune_scan, pruned, scan_readable};
use crate::plan::physical::{bound, BoundPlan, BoundView, Catalog, ScanNode};
use vstd::prelude::*;

verus! {

/// Whether the bounds that the predicates of a plan are held against can be
/// read.
pub open spec fn plan_readable(b: BoundView) -> bool {
    forall|i: int| 0 <= i < b.scans.len() ==> scan_readable(#[trigger] b.scans[i])
}

/// A plan with every scan without the files that its predicates rule out.
pub open spec fn plan_pruned(b: BoundView) -> BoundView {
    BoundView { scans: Seq::new(b.scans.len(), |i: int| pruned(b.scans[i])), ..b }
}

/// Binds a statement against a catalog and drops the files that its predicates
/// rule out. Nothing comes of a statement that binds where a bound to hold a
/// predicate against cannot be read.
pub fn prepare(ast: &Ast, catalog: &Catalog) -> (r: Option<Result<BoundPlan, String>>)
    ensures
        match bound(ast@, catalog@) {
            Ok(b) => if plan_readable(b) {
                r matches Some(Ok(p)) && p@ == plan_pruned(b)
            } else {
                r is None
            },
            Err(m) => r matches Some(Err(e)) && e@ == m,
        },
{
    let mut p: BoundPlan = match bind(ast, catalog) {
        Ok(p) => p,
        Err(e) => return Some(Err(e)),
    };
    let ghost b = p@;
    let n: usize = p.scans.len();
    let mut i: usize = 0;
    while i < n
        invariant
            i <= n,
            n == p.scans@.len() == b.scans.len(),
            b == p@,
            bound(ast@, catalog@) == Ok::<BoundView, Seq<char>>(b),
            forall|j: int| 0 <= j < i ==> scan_readable(#[trigger] b.scans[j]),
        decreases n - i,
    {
        assert(b.scans[i as int] == p.scans@[i as int]@);
        if !bounds_readable(&p.scans[i]) {
            assert(!plan_readable(b));
            return None;
        }
        i += 1;
    }
    let mut scans: Vec<ScanNode> = p.scans;
    let mut k: usize = 0;
    while k < n
        invariant
            k <= n,
            n == scans@.len() == b.scans.len(),
            plan_readable(b),
            forall|j: int| 0 <= j < k ==> (#[trigger] scans@[j])@ == pruned(b.scans[j]),
            forall|j: int| k <= j < n ==> (#[trigger] scans@[j])@ == b.scans[j],
        decreases n - k,
    {
        assert(scans@[k as int]@ == b.scans[k as int]);
        prune_scan(&mut scans[k]);
        k += 1;
    }
    p.scans = scans;
    assert(p@.scans =~= plan_pruned(b).scans);
    Some(Ok(p))
}

} // verus!
