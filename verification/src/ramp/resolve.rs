//! Turns common table expressions and subqueries into a scan of a base table.
use crate::sql::{Query, QueryView, SourceView, TableSource};
use crate::text::{join2, str_eq};
use vstd::prelude::*;

verus! {

/// How many sources deep a query may be nested.
pub const MAX_NESTING: usize = 32;

/// A clause of the outer query, or else of the inner one.
pub open spec fn outer_or<T>(outer: Option<T>, inner: Option<T>) -> Option<T> {
    if outer is Some {
        outer
    } else {
        inner
    }
}

/// A query over another one: the aggregate and the source are the inner one's,
/// and the outer clauses win. Order and limit are taken over from a common
/// table expression only.
pub open spec fn overlaid(q: QueryView, inner: QueryView, cte: bool) -> QueryView {
    QueryView {
        agg: inner.agg,
        agg_col: inner.agg_col,
        table: inner.table,
        filter: outer_or(q.filter, inner.filter),
        group_by: outer_or(q.group_by, inner.group_by),
        ctes: inner.ctes,
        order_by: if cte {
            outer_or(q.order_by, inner.order_by)
        } else {
            q.order_by
        },
        limit: if cte {
            outer_or(q.limit, inner.limit)
        } else {
            q.limit
        },
    }
}

/// The first expression of a name.
pub open spec fn cte_named(ctes: Seq<(Seq<char>, QueryView)>, name: Seq<char>) -> Option<QueryView>
    decreases ctes.len(),
{
    if ctes.len() == 0 {
        None
    } else if ctes[0].0 == name {
        Some(ctes[0].1)
    } else {
        cte_named(ctes.skip(1), name)
    }
}

pub open spec fn resolved(q: QueryView, fuel: nat) -> Result<QueryView, Seq<char>>
    decreases fuel,
{
    if fuel == 0 {
        Err("CTE/subquery nesting too deep"@)
    } else {
        match q.table {
            SourceView::Table(_) => Ok(q),
            SourceView::CTE(name) => match cte_named(q.ctes, name) {
                None => Err("unknown CTE "@ + name),
                Some(inner) => resolved(overlaid(q, inner, true), (fuel - 1) as nat),
            },
            SourceView::Subquery(inner, _) => resolved(
                overlaid(q, *inner, false),
                (fuel - 1) as nat,
            ),
        }
    }
}

fn or_else<T: Copy>(outer: Option<T>, inner: Option<T>) -> (r: Option<T>)
    ensures
        r == outer_or(outer, inner),
{
    match outer {
        Some(x) => Some(x),
        None => inner,
    }
}

fn overlay(q: Query, inner: Query, cte: bool) -> (r: Query)
    ensures
        r.model() == overlaid(q.model(), inner.model(), cte),
{
    let r: Query = Query {
        agg: inner.agg,
        agg_col: inner.agg_col,
        table: inner.table,
        filter: or_else(q.filter, inner.filter),
        group_by: or_else(q.group_by, inner.group_by),
        ctes: inner.ctes,
        order_by: if cte { or_else(q.order_by, inner.order_by) } else { q.order_by },
        limit: if cte { or_else(q.limit, inner.limit) } else { q.limit },
    };
    assert(r.model().ctes =~= inner.model().ctes);
    r
}

fn find_cte(q: &Query, name: &str) -> (r: Option<Query>)
    ensures
        match r {
            Some(inner) => cte_named(q.model().ctes, name@) == Some(inner.model()),
            None => cte_named(q.model().ctes, name@) is None,
        },
{
    let ghost m = q.model().ctes;
    let mut k: usize = 0;
    assert(m.skip(0) =~= m);
    while k < q.ctes.len()
        invariant
            k <= q.ctes@.len(),
            m == q.model().ctes,
            m.len() == q.ctes@.len(),
            cte_named(m.skip(k as int), name@) == cte_named(m, name@),
        decreases q.ctes@.len() - k,
    {
        assert(m.skip(k as int)[0] == m[k as int]);
        if str_eq(q.ctes[k].0.as_str(), name) {
            return Some(q.ctes[k].1.copy());
        }
        assert(m.skip(k as int).skip(1) =~= m.skip(k + 1));
        k += 1;
    }
    None
}

/// Resolves the source of a query to a base table.
pub fn resolve_table_source(q: Query) -> (r: Result<Query, String>)
    ensures
        crate::sql::gives(r, resolved(q.model(), MAX_NESTING as nat)),
{
    let ghost whole = resolved(q.model(), MAX_NESTING as nat);
    let mut cur: Query = q;
    let mut k: usize = 0;
    while k < MAX_NESTING
        invariant
            k <= MAX_NESTING,
            whole == resolved(q.model(), MAX_NESTING as nat),
            resolved(cur.model(), (MAX_NESTING - k) as nat) == whole,
        decreases MAX_NESTING - k,
    {
        let found: Option<Query> = match &cur.table {
            TableSource::Table(_) => None,
            TableSource::CTE(name) => match find_cte(&cur, name.as_str()) {
                Some(inner) => Some(inner),
                None => return Err(join2("unknown CTE ", name.as_str())),
            },
            TableSource::Subquery(inner, _) => Some(inner.copy()),
        };
        let cte: bool = match &cur.table {
            TableSource::CTE(_) => true,
            _ => false,
        };
        match found {
            None => return Ok(cur),
            Some(inner) => {
                cur = overlay(cur, inner, cte);
            },
        }
        k += 1;
    }
    Err("CTE/subquery nesting too deep".to_owned())
}

/// A resolved query reads a base table, and every clause the query itself had
/// is kept.
pub proof fn resolved_keeps_clauses(q: QueryView, fuel: nat)
    requires
        resolved(q, fuel) is Ok,
    ensures
        resolved(q, fuel)->Ok_0.table is Table,
        q.filter is Some ==> resolved(q, fuel)->Ok_0.filter == q.filter,
        q.group_by is Some ==> resolved(q, fuel)->Ok_0.group_by == q.group_by,
        q.order_by is Some ==> resolved(q, fuel)->Ok_0.order_by == q.order_by,
        q.limit is Some ==> resolved(q, fuel)->Ok_0.limit == q.limit,
        q.table is Table ==> resolved(q, fuel)->Ok_0 == q,
    decreases fuel,
{
    match q.table {
        SourceView::Table(_) => {},
        SourceView::CTE(name) => {
            let inner = cte_named(q.ctes, name)->Some_0;
            resolved_keeps_clauses(overlaid(q, inner, true), (fuel - 1) as nat);
        },
        SourceView::Subquery(inner, _) => {
            resolved_keeps_clauses(overlaid(q, *inner, false), (fuel - 1) as nat);
        },
    }
}

} // verus!
