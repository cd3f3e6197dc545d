//! Queries of one aggregate written out as words, and that they are read back.
use crate::kernel::CmpOp;
use crate::sql::{
    agg_at, at, bare, before, clauses, close, col_at, is_bracket, is_mark, no_clauses, op_at, parts,
    query_of, source_at, spots, with_of, words, AggFn, Clauses, QueryView, SourceView,
};
use crate::chars::{char_space, span_is};
use crate::text::{dec, dec_int, dec_read_back, dec_value, is_digit, parsed_unsigned};
use vstd::prelude::*;

verus! {

// ---------------------------------------------------------------------------
// Writing
// ---------------------------------------------------------------------------

pub open spec fn col_word(c: usize) -> Seq<char> {
    seq!['C'] + dec(c as nat)
}

pub open spec fn agg_word(f: AggFn) -> Seq<char> {
    match f {
        AggFn::Sum => "SUM"@,
        AggFn::Count => "COUNT"@,
        AggFn::Min => "MIN"@,
        AggFn::Max => "MAX"@,
        AggFn::Avg => "AVG"@,
    }
}

pub open spec fn op_word(op: CmpOp) -> Seq<char> {
    match op {
        CmpOp::Gt => ">"@,
        CmpOp::Lt => "<"@,
        CmpOp::Ge => ">="@,
        CmpOp::Le => "<="@,
        CmpOp::Eq => "="@,
    }
}

pub open spec fn where_words(f: Option<(usize, CmpOp, i64)>) -> Seq<Seq<char>> {
    match f {
        None => Seq::empty(),
        Some((c, op, l)) => seq!["WHERE"@, col_word(c), op_word(op), dec_int(l as int)],
    }
}

pub open spec fn group_words(g: Option<usize>) -> Seq<Seq<char>> {
    match g {
        None => Seq::empty(),
        Some(c) => seq!["GROUP"@, "BY"@, col_word(c)],
    }
}

pub open spec fn order_words(o: Option<(usize, bool)>) -> Seq<Seq<char>> {
    match o {
        None => Seq::empty(),
        Some((c, up)) => seq!["ORDER"@, "BY"@, col_word(c), if up { "ASC"@ } else { "DESC"@ }],
    }
}

pub open spec fn limit_words(l: Option<usize>) -> Seq<Seq<char>> {
    match l {
        None => Seq::empty(),
        Some(n) => seq!["LIMIT"@, dec(n as nat)],
    }
}

pub open spec fn clause_words(c: Clauses) -> Seq<Seq<char>> {
    where_words(c.filter) + (group_words(c.group_by) + (order_words(c.order_by) + limit_words(
        c.limit,
    )))
}

/// The words of a query over a table.
pub open spec fn query_words(f: AggFn, col: usize, table: Seq<char>, c: Clauses) -> Seq<Seq<char>> {
    seq!["SELECT"@, agg_word(f), "("@, col_word(col), ")"@, "FROM"@, table] + clause_words(c)
}

// ---------------------------------------------------------------------------
// Words read back
// ---------------------------------------------------------------------------

proof fn literals()
    ensures
        "("@.len() == 1 && "("@[0] == '(',
        ")"@.len() == 1 && ")"@[0] == ')',
        ","@.len() == 1 && ","@[0] == ',',
        ">"@.len() == 1 && ">"@[0] == '>',
        "<"@.len() == 1 && "<"@[0] == '<',
        ">="@.len() == 2 && ">="@[0] == '>',
        "<="@.len() == 2 && "<="@[0] == '<',
        "="@.len() == 1 && "="@[0] == '=',
        "=="@.len() == 2 && "=="@[0] == '=',
        "SUM"@.len() == 3 && "SUM"@[0] == 'S',
        "COUNT"@.len() == 5 && "COUNT"@[0] == 'C',
        "MIN"@.len() == 3 && "MIN"@[0] == 'M' && "MIN"@[1] == 'I',
        "MAX"@.len() == 3 && "MAX"@[0] == 'M' && "MAX"@[1] == 'A',
        "AVG"@.len() == 3 && "AVG"@[0] == 'A',
        "WHERE"@.len() == 5 && "WHERE"@[0] == 'W',
        "GROUP"@.len() == 5 && "GROUP"@[0] == 'G',
        "ORDER"@.len() == 5 && "ORDER"@[0] == 'O',
        "LIMIT"@.len() == 5 && "LIMIT"@[0] == 'L',
        "BY"@.len() == 2 && "BY"@[0] == 'B',
        "ASC"@.len() == 3 && "ASC"@[0] == 'A',
        "DESC"@.len() == 4 && "DESC"@[0] == 'D',
        "SELECT"@.len() == 6 && "SELECT"@[0] == 'S',
        "FROM"@.len() == 4 && "FROM"@[0] == 'F',
        "WITH"@.len() == 4 && "WITH"@[0] == 'W',
{
    reveal_strlit("(");
    reveal_strlit(")");
    reveal_strlit(",");
    reveal_strlit(">");
    reveal_strlit("<");
    reveal_strlit(">=");
    reveal_strlit("<=");
    reveal_strlit("=");
    reveal_strlit("==");
    reveal_strlit("SUM");
    reveal_strlit("COUNT");
    reveal_strlit("MIN");
    reveal_strlit("MAX");
    reveal_strlit("AVG");
    reveal_strlit("WHERE");
    reveal_strlit("GROUP");
    reveal_strlit("ORDER");
    reveal_strlit("LIMIT");
    reveal_strlit("BY");
    reveal_strlit("ASC");
    reveal_strlit("DESC");
    reveal_strlit("SELECT");
    reveal_strlit("FROM");
    reveal_strlit("WITH");
}

/// A number's digits are its text, and are no sign.
proof fn numerals(n: usize)
    ensures
        parsed_unsigned(dec(n as nat), usize::MAX as nat) == Some(n as nat),
        dec(n as nat).len() > 0,
        is_digit(dec(n as nat)[0]),
{
    dec_value(n as nat);
    assert(is_digit(dec(n as nat)[0]));
}

/// A column is read as it was written.
pub proof fn columns_are_read_as_written(t: Seq<Seq<char>>, i: int, c: usize)
    requires
        0 <= i < t.len(),
        t[i] == col_word(c),
    ensures
        col_at(t, i) == Ok::<usize, Seq<char>>(c),
{
    numerals(c);
    assert(t[i].skip(1) =~= dec(c as nat));
}

/// The aggregate that is read is the one that was written, and nothing else is
/// an aggregate.
pub proof fn aggregates_are_read_as_written(t: Seq<Seq<char>>, i: int, f: AggFn)
    requires
        0 <= i < t.len(),
    ensures
        t[i] == agg_word(f) ==> agg_at(t, i) == Ok::<AggFn, Seq<char>>(f),
        agg_at(t, i) matches Ok(g) ==> t[i] == agg_word(g),
{
    literals();
}

/// The operator that is read is the one that was written, and `==` is `=`.
/// Nothing else is an operator.
pub proof fn operators_are_read_as_written(t: Seq<Seq<char>>, i: int, op: CmpOp)
    requires
        0 <= i < t.len(),
    ensures
        t[i] == op_word(op) ==> op_at(t, i) == Ok::<CmpOp, Seq<char>>(op),
        t[i] == "=="@ ==> op_at(t, i) == Ok::<CmpOp, Seq<char>>(CmpOp::Eq),
        op_at(t, i) matches Ok(o) ==> t[i] == op_word(o) || t[i] == "=="@,
{
    literals();
    if t[i] == op_word(op) {
        match op {
            CmpOp::Gt => {},
            CmpOp::Lt => {
                assert("<"@ != ">"@);
            },
            CmpOp::Ge => {
                assert(">="@ != ">"@ && ">="@ != "<"@);
            },
            CmpOp::Le => {
                assert("<="@ != ">"@ && "<="@ != "<"@ && "<="@ != ">="@);
            },
            CmpOp::Eq => {
                assert("="@ != ">"@ && "="@ != "<"@ && "="@ != ">="@ && "="@ != "<="@);
            },
        }
    }
    if t[i] == "=="@ {
        assert("=="@ != ">"@ && "=="@ != "<"@ && "=="@ != ">="@ && "=="@ != "<="@);
    }
}

/// A filter is read as it was written, whatever clauses came before it, and
/// replaces an earlier one.
pub proof fn a_filter_is_read_as_written(
    t: Seq<Seq<char>>,
    i: int,
    c: Clauses,
    col: usize,
    op: CmpOp,
    lit: i64,
)
    requires
        0 <= i,
        i + 4 <= t.len(),
        t[i] == "WHERE"@,
        t[i + 1] == col_word(col),
        t[i + 2] == op_word(op),
        t[i + 3] == dec_int(lit as int),
    ensures
        clauses(t, i, c) == clauses(t, i + 4, Clauses { filter: Some((col, op, lit)), ..c }),
{
    columns_are_read_as_written(t, i + 1, col);
    operators_are_read_as_written(t, i + 2, op);
    dec_read_back(lit);
}

/// A group is read as it was written.
pub proof fn a_group_is_read_as_written(t: Seq<Seq<char>>, i: int, c: Clauses, col: usize)
    requires
        0 <= i,
        i + 3 <= t.len(),
        t[i] == "GROUP"@,
        t[i + 1] == "BY"@,
        t[i + 2] == col_word(col),
    ensures
        clauses(t, i, c) == clauses(t, i + 3, Clauses { group_by: Some(col), ..c }),
{
    literals();
    columns_are_read_as_written(t, i + 2, col);
}

/// An order is read as it was written: downwards for DESC, upwards for ASC and
/// where neither stands.
pub proof fn an_order_is_read_as_written(t: Seq<Seq<char>>, i: int, c: Clauses, col: usize)
    requires
        0 <= i,
        i + 3 <= t.len(),
        t[i] == "ORDER"@,
        t[i + 1] == "BY"@,
        t[i + 2] == col_word(col),
    ensures
        i + 3 < t.len() && t[i + 3] == "DESC"@ ==> clauses(t, i, c) == clauses(
            t,
            i + 4,
            Clauses { order_by: Some((col, false)), ..c },
        ),
        i + 3 < t.len() && t[i + 3] == "ASC"@ ==> clauses(t, i, c) == clauses(
            t,
            i + 4,
            Clauses { order_by: Some((col, true)), ..c },
        ),
        i + 3 == t.len() || t[i + 3] != "DESC"@ && t[i + 3] != "ASC"@ ==> clauses(t, i, c)
            == clauses(t, i + 3, Clauses { order_by: Some((col, true)), ..c }),
{
    literals();
    columns_are_read_as_written(t, i + 2, col);
}

/// A limit is read as it was written.
pub proof fn a_limit_is_read_as_written(t: Seq<Seq<char>>, i: int, c: Clauses, n: usize)
    requires
        0 <= i,
        i + 2 <= t.len(),
        t[i] == "LIMIT"@,
        t[i + 1] == dec(n as nat),
    ensures
        clauses(t, i, c) == clauses(t, i + 2, Clauses { limit: Some(n), ..c }),
{
    literals();
    numerals(n);
}

/// Whether words stand in a row from a place on.
spec fn stand(t: Seq<Seq<char>>, i: int, v: Seq<Seq<char>>) -> bool {
    &&& 0 <= i
    &&& i + v.len() <= t.len()
    &&& forall|k: int| 0 <= k < v.len() ==> t[i + k] == #[trigger] v[k]
}

proof fn read_filter(t: Seq<Seq<char>>, i: int, c: Clauses, f: Option<(usize, CmpOp, i64)>)
    requires
        stand(t, i, where_words(f)),
        c.filter is None,
    ensures
        clauses(t, i, c) == clauses(t, i + where_words(f).len(), Clauses { filter: f, ..c }),
{
    if let Some((col, op, lit)) = f {
        let a = where_words(f);
        assert(t[i + 0] == a[0] && t[i + 1] == a[1] && t[i + 2] == a[2] && t[i + 3] == a[3]);
        a_filter_is_read_as_written(t, i, c, col, op, lit);
    } else {
        assert((Clauses { filter: f, ..c }) == c);
    }
}

proof fn read_group(t: Seq<Seq<char>>, i: int, c: Clauses, g: Option<usize>)
    requires
        stand(t, i, group_words(g)),
        c.group_by is None,
    ensures
        clauses(t, i, c) == clauses(t, i + group_words(g).len(), Clauses { group_by: g, ..c }),
{
    if let Some(col) = g {
        let a = group_words(g);
        assert(t[i + 0] == a[0] && t[i + 1] == a[1] && t[i + 2] == a[2]);
        a_group_is_read_as_written(t, i, c, col);
    } else {
        assert((Clauses { group_by: g, ..c }) == c);
    }
}

proof fn read_order(t: Seq<Seq<char>>, i: int, c: Clauses, o: Option<(usize, bool)>)
    requires
        stand(t, i, order_words(o)),
        c.order_by is None,
    ensures
        clauses(t, i, c) == clauses(t, i + order_words(o).len(), Clauses { order_by: o, ..c }),
{
    if let Some((col, up)) = o {
        let a = order_words(o);
        assert(t[i + 0] == a[0] && t[i + 1] == a[1] && t[i + 2] == a[2] && t[i + 3] == a[3]);
        an_order_is_read_as_written(t, i, c, col);
    } else {
        assert((Clauses { order_by: o, ..c }) == c);
    }
}

proof fn read_limit(t: Seq<Seq<char>>, i: int, c: Clauses, l: Option<usize>)
    requires
        stand(t, i, limit_words(l)),
        i + limit_words(l).len() == t.len(),
        c.limit is None,
    ensures
        clauses(t, i, c) == Ok::<Clauses, Seq<char>>(Clauses { limit: l, ..c }),
{
    if let Some(n) = l {
        let a = limit_words(l);
        assert(t[i + 0] == a[0] && t[i + 1] == a[1]);
        a_limit_is_read_as_written(t, i, c, n);
    } else {
        assert((Clauses { limit: l, ..c }) == c);
    }
}

proof fn placed(
    t: Seq<Seq<char>>,
    i: int,
    a: Seq<Seq<char>>,
    b: Seq<Seq<char>>,
    o: Seq<Seq<char>>,
    l: Seq<Seq<char>>,
)
    requires
        0 <= i <= t.len(),
        t.skip(i) == a + (b + (o + l)),
    ensures
        stand(t, i, a),
        stand(t, i + a.len(), b),
        stand(t, i + a.len() + b.len(), o),
        stand(t, i + a.len() + b.len() + o.len(), l),
        t.len() == i + a.len() + b.len() + o.len() + l.len(),
{
    let (i1, i2, i3) = (i + a.len(), i + a.len() + b.len(), i + a.len() + b.len() + o.len());
    let w = t.skip(i);
    assert(w.len() == t.len() - i);
    assert((o + l).len() == o.len() + l.len());
    assert((b + (o + l)).len() == b.len() + (o + l).len());
    assert((a + (b + (o + l))).len() == a.len() + (b + (o + l)).len());
    assert(t.len() == i3 + l.len());
    assert(stand(t, i, a)) by {
        assert forall|k: int| 0 <= k < a.len() implies t[i + k] == #[trigger] a[k] by {
            assert(w[k] == a[k]);
        }
    }
    assert(stand(t, i1, b)) by {
        assert forall|k: int| 0 <= k < b.len() implies t[i1 + k] == #[trigger] b[k] by {
            assert(w[a.len() + k] == b[k]);
        }
    }
    assert(stand(t, i2, o)) by {
        assert forall|k: int| 0 <= k < o.len() implies t[i2 + k] == #[trigger] o[k] by {
            assert(w[a.len() + b.len() + k] == o[k]);
        }
    }
    assert(stand(t, i3, l)) by {
        assert forall|k: int| 0 <= k < l.len() implies t[i3 + k] == #[trigger] l[k] by {
            assert(w[a.len() + b.len() + o.len() + k] == l[k]);
        }
    }
}

/// Clauses written one after another are read back, all of them.
pub proof fn clauses_are_read_as_written(t: Seq<Seq<char>>, i: int, c: Clauses)
    requires
        0 <= i <= t.len(),
        t.skip(i) == clause_words(c),
    ensures
        clauses(t, i, no_clauses()) == Ok::<Clauses, Seq<char>>(c),
{
    let (a, b, o, l) = (
        where_words(c.filter),
        group_words(c.group_by),
        order_words(c.order_by),
        limit_words(c.limit),
    );
    let (i1, i2, i3) = (i + a.len(), i + a.len() + b.len(), i + a.len() + b.len() + o.len());
    placed(t, i, a, b, o, l);
    let c0 = no_clauses();
    let c1 = Clauses { filter: c.filter, ..c0 };
    let c2 = Clauses { group_by: c.group_by, ..c1 };
    let c3 = Clauses { order_by: c.order_by, ..c2 };
    read_filter(t, i, c0, c.filter);
    read_group(t, i1, c1, c.group_by);
    read_order(t, i2, c2, c.order_by);
    read_limit(t, i3, c3, c.limit);
    assert((Clauses { limit: c.limit, ..c3 }) == c);
}

// ---------------------------------------------------------------------------
// Brackets and commas
// ---------------------------------------------------------------------------

/// The bare words are those that are neither brackets nor commas, in order.
pub proof fn bare_words_are_no_marks(t: Seq<Seq<char>>)
    ensures
        bare(t) == t.filter(|w: Seq<char>| w != "("@ && w != ")"@ && w != ","@),
        forall|k: int|
            0 <= k < spots(t).len() ==> 0 <= #[trigger] spots(t)[k] < t.len() && t[spots(t)[k]]
                == bare(t)[k],
        forall|j: int, k: int| 0 <= j < k < spots(t).len() ==> spots(t)[j] < spots(t)[k],
    decreases t.len(),
{
    reveal(Seq::filter);
    let f = |w: Seq<char>| w != "("@ && w != ")"@ && w != ","@;
    if t.len() > 0 {
        let d = t.drop_last();
        bare_words_are_no_marks(d);
        assert(bare(d) =~= d.filter(f));
        assert forall|k: int| 0 <= k < spots(d).len() implies t[spots(d)[k]] == bare(d)[k] by {
            assert(0 <= spots(d)[k] < d.len());
        }
        assert(bare(t) =~= t.filter(f));
    } else {
        assert(bare(t) =~= t.filter(f));
    }
}

spec fn unmarked(v: Seq<Seq<char>>) -> bool {
    forall|i: int| 0 <= i < v.len() ==> !is_mark(#[trigger] v[i])
}

proof fn bare_concat(a: Seq<Seq<char>>, b: Seq<Seq<char>>)
    requires
        unmarked(b),
    ensures
        bare(a + b) == bare(a) + b,
        spots(a + b).len() == spots(a).len() + b.len(),
        forall|k: int| 0 <= k < spots(a).len() ==> spots(a + b)[k] == spots(a)[k],
    decreases b.len(),
{
    if b.len() == 0 {
        assert(a + b =~= a);
        assert(bare(a) + b =~= bare(a));
    } else {
        let d = b.drop_last();
        assert forall|i: int| 0 <= i < d.len() implies !is_mark(#[trigger] d[i]) by {
            assert(d[i] == b[i]);
        }
        bare_concat(a, d);
        assert((a + b).drop_last() =~= a + d);
        assert((a + b).last() == b.last());
        assert(!is_mark(b[b.len() - 1]));
        bare_words_are_no_marks(a + d);
        assert(bare(a + b) =~= bare(a) + b) by {
            assert forall|k: int| 0 <= k < bare(a + b).len() implies bare(a + b)[k] == (bare(a)
                + b)[k] by {
                if k < spots(a + d).len() {
                    assert(spots(a + b)[k] == spots(a + d)[k]);
                    assert(0 <= spots(a + d)[k] < (a + d).len());
                    assert((a + b)[spots(a + d)[k]] == (a + d)[spots(a + d)[k]]);
                    assert(bare(a + d)[k] == (bare(a) + d)[k]);
                } else {
                    assert(k == spots(a + d).len());
                }
            }
        }
    }
}

proof fn clause_words_unmarked(c: Clauses)
    ensures
        unmarked(clause_words(c)),
{
    literals();
    let w = clause_words(c);
    assert forall|i: int| 0 <= i < w.len() implies !is_mark(#[trigger] w[i]) by {
        if let Some((col, op, l)) = c.filter {
            numerals(col);
            if l < 0 {
                assert(dec_int(l as int)[0] == '-');
            } else {
                dec_value(l as nat);
                assert(is_digit(dec(l as nat)[0]));
            }
            assert(col_word(col)[0] == 'C');
        }
        if let Some(col) = c.group_by {
            assert(col_word(col)[0] == 'C');
        }
        if let Some((col, up)) = c.order_by {
            assert(col_word(col)[0] == 'C');
        }
        if let Some(n) = c.limit {
            numerals(n);
        }
        assert(w[i][0] != '(' && w[i][0] != ')' && w[i][0] != ',');
    }
}

/// A query over a table that was written out is read back: its aggregate and
/// column, its table, its filter, group, order and limit.
pub proof fn a_query_is_read_as_written(f: AggFn, col: usize, table: Seq<char>, c: Clauses)
    requires
        table != "("@,
        table != ")"@,
        table != ","@,
    ensures
        query_of(query_words(f, col, table, c)) == Ok::<QueryView, Seq<char>>(
            QueryView {
                agg: f,
                agg_col: col,
                table: SourceView::Table(table),
                filter: c.filter,
                group_by: c.group_by,
                ctes: Seq::empty(),
                order_by: c.order_by,
                limit: c.limit,
            },
        ),
{
    literals();
    let h2 = seq!["SELECT"@, agg_word(f)];
    let h3 = h2.push("("@);
    let h4 = h3.push(col_word(col));
    let h5 = h4.push(")"@);
    let h6 = h5.push("FROM"@);
    let rest = seq![table] + clause_words(c);
    let t = query_words(f, col, table, c);
    assert(t =~= h6 + rest);
    let e = Seq::<Seq<char>>::empty();
    assert(h2.drop_last() =~= e.push("SELECT"@));
    assert(e.push("SELECT"@).drop_last() =~= e);
    assert(h3.drop_last() =~= h2);
    assert(h4.drop_last() =~= h3);
    assert(h5.drop_last() =~= h4);
    assert(h6.drop_last() =~= h5);
    assert(agg_word(f)[0] != '(' && agg_word(f)[0] != ')' && agg_word(f)[0] != ',');
    assert(col_word(col)[0] == 'C');
    assert(spots(e) =~= Seq::<int>::empty());
    assert(spots(e.push("SELECT"@)) =~= seq![0int]);
    assert(spots(h2) =~= seq![0int, 1int]);
    assert(spots(h3) =~= seq![0int, 1int]);
    assert(spots(h4) =~= seq![0int, 1int, 3int]);
    assert(spots(h5) =~= seq![0int, 1int, 3int]);
    assert(spots(h6) =~= seq![0int, 1int, 3int, 5int]);
    clause_words_unmarked(c);
    assert forall|i: int| 0 <= i < rest.len() implies !is_mark(#[trigger] rest[i]) by {
        if i > 0 {
            assert(rest[i] == clause_words(c)[i - 1]);
        }
    }
    bare_concat(h6, rest);
    let b = bare(t);
    let want = seq!["SELECT"@, agg_word(f), col_word(col), "FROM"@] + rest;
    assert(bare(h6) =~= seq!["SELECT"@, agg_word(f), col_word(col), "FROM"@]);
    assert(b =~= want);
    assert(!at(t, 0, "WITH"@)) by {
        assert(t[0] == "SELECT"@);
    }
    assert(before(t, 0) == 0) by {
        assert(t.take(0) =~= e);
    }
    assert(b[0] == "SELECT"@ && b[1] == agg_word(f) && b[2] == col_word(col) && b[3] == "FROM"@
        && b[4] == table);
    aggregates_are_read_as_written(b, 1, f);
    columns_are_read_as_written(b, 2, col);
    assert(spots(t)[3] == spots(h6)[3]);
    assert(t[6] == table);
    assert(!at(t, 6, "("@));
    assert(source_at(t, 6, 4, Seq::empty()) == Ok::<(SourceView, int), Seq<char>>(
        (SourceView::Table(table), 5),
    ));
    assert(b.skip(5) =~= clause_words(c));
    clauses_are_read_as_written(b, 5, c);
}

// ---------------------------------------------------------------------------
// Queries in brackets
// ---------------------------------------------------------------------------

/// How many brackets are open behind the first `k` words.
pub open spec fn open_after(w: Seq<Seq<char>>, k: int) -> int
    decreases k,
{
    if k <= 0 {
        0
    } else {
        open_after(w, k - 1) + if w[k - 1] == "("@ {
            1int
        } else if w[k - 1] == ")"@ {
            -1
        } else {
            0
        }
    }
}

/// Whether the brackets of some words pair up.
pub open spec fn balanced(w: Seq<Seq<char>>) -> bool {
    &&& open_after(w, w.len() as int) == 0
    &&& forall|k: int| 0 <= k <= w.len() ==> #[trigger] open_after(w, k) >= 0
}

proof fn close_passes(t: Seq<Seq<char>>, i: int, w: Seq<Seq<char>>, k: int)
    requires
        0 <= i,
        0 <= k <= w.len(),
        balanced(w),
        i + w.len() <= t.len(),
        t.subrange(i, i + w.len()) == w,
    ensures
        close(t, i, 1) == close(t, i + k, 1 + open_after(w, k)),
    decreases k,
{
    literals();
    if k > 0 {
        close_passes(t, i, w, k - 1);
        assert(w[k - 1] == t[i + k - 1]) by {
            assert(t.subrange(i, i + w.len())[k - 1] == t[i + k - 1]);
        }
        assert(open_after(w, k) >= 0 && open_after(w, k - 1) >= 0);
        assert("("@ != ")"@);
    }
}

/// A bracket is closed by the one that pairs with it, past any that pair up in
/// between.
pub proof fn a_bracket_is_closed_by_its_pair(t: Seq<Seq<char>>, i: int, w: Seq<Seq<char>>)
    requires
        0 <= i,
        balanced(w),
        i + w.len() < t.len(),
        t.subrange(i, i + w.len()) == w,
        t[i + w.len()] == ")"@,
    ensures
        close(t, i, 1) == i + w.len(),
{
    literals();
    close_passes(t, i, w, w.len() as int);
    assert("("@ != ")"@);
}

proof fn bare_adds(a: Seq<Seq<char>>, b: Seq<Seq<char>>)
    ensures
        bare(a + b) == bare(a) + bare(b),
        spots(a + b).len() == spots(a).len() + spots(b).len(),
        forall|k: int| 0 <= k < spots(a).len() ==> spots(a + b)[k] == spots(a)[k],
{
    let f = |w: Seq<char>| w != "("@ && w != ")"@ && w != ","@;
    bare_words_are_no_marks(a);
    bare_words_are_no_marks(b);
    bare_words_are_no_marks(a + b);
    Seq::filter_distributes_over_add(a, b, f);
    assert(bare(a + b).len() == bare(a).len() + bare(b).len());
    spots_start(a, b);
}

proof fn spots_start(a: Seq<Seq<char>>, b: Seq<Seq<char>>)
    ensures
        spots(a + b).len() >= spots(a).len(),
        forall|k: int| 0 <= k < spots(a).len() ==> spots(a + b)[k] == spots(a)[k],
    decreases b.len(),
{
    if b.len() == 0 {
        assert(a + b =~= a);
    } else {
        spots_start(a, b.drop_last());
        assert((a + b).drop_last() =~= a + b.drop_last());
    }
}

proof fn select_head(f: AggFn, col: usize)
    ensures
        ({
            let h = seq!["SELECT"@, agg_word(f), "("@, col_word(col), ")"@, "FROM"@];
            &&& spots(h) == seq![0int, 1int, 3int, 5int]
            &&& bare(h) == seq!["SELECT"@, agg_word(f), col_word(col), "FROM"@]
        }),
{
    literals();
    let h2 = seq!["SELECT"@, agg_word(f)];
    let h3 = h2.push("("@);
    let h4 = h3.push(col_word(col));
    let h5 = h4.push(")"@);
    let h6 = h5.push("FROM"@);
    let e = Seq::<Seq<char>>::empty();
    let h = seq!["SELECT"@, agg_word(f), "("@, col_word(col), ")"@, "FROM"@];
    assert(h =~= h6);
    assert(h2.drop_last() =~= e.push("SELECT"@));
    assert(e.push("SELECT"@).drop_last() =~= e);
    assert(h3.drop_last() =~= h2);
    assert(h4.drop_last() =~= h3);
    assert(h5.drop_last() =~= h4);
    assert(h6.drop_last() =~= h5);
    assert(agg_word(f)[0] != '(' && agg_word(f)[0] != ')' && agg_word(f)[0] != ',');
    assert(col_word(col)[0] == 'C');
    assert(spots(e) =~= Seq::<int>::empty());
    assert(spots(e.push("SELECT"@)) =~= seq![0int]);
    assert(spots(h2) =~= seq![0int, 1int]);
    assert(spots(h3) =~= seq![0int, 1int]);
    assert(spots(h4) =~= seq![0int, 1int, 3int]);
    assert(spots(h5) =~= seq![0int, 1int, 3int]);
    assert(spots(h6) =~= seq![0int, 1int, 3int, 5int]);
    assert(bare(h) =~= seq!["SELECT"@, agg_word(f), col_word(col), "FROM"@]);
}

proof fn one_mark(m: Seq<char>)
    requires
        is_mark(m),
    ensures
        bare(seq![m]) == Seq::<Seq<char>>::empty(),
        spots(seq![m]).len() == 0,
{
    let e = Seq::<Seq<char>>::empty();
    let v = e.push(m);
    assert(seq![m] =~= v);
    assert(v.drop_last() =~= e);
    assert(v.last() == m);
    assert(spots(e) =~= Seq::<int>::empty());
    assert(spots(v) == spots(e));
    assert(bare(v) =~= Seq::<Seq<char>>::empty());
}

/// Words, and others in brackets behind them: what the bracket holds, and the
/// bare words before it closes and of all.
proof fn bracketed(h: Seq<Seq<char>>, inner: Seq<Seq<char>>, rest: Seq<Seq<char>>)
    requires
        balanced(inner),
    ensures
        ({
            let t = h + (seq!["("@] + (inner + (seq![")"@] + rest)));
            let (a, n) = (h.len() as int, inner.len() as int);
            &&& t.len() == a + n + 2 + rest.len()
            &&& t[a] == "("@
            &&& t.subrange(a + 1, a + 1 + n) == inner
            &&& close(t, a + 1, 1) == a + 1 + n
            &&& bare(t) == (bare(h) + bare(inner)) + bare(rest)
            &&& before(t, a + 1 + n) == bare(h).len() + bare(inner).len()
            &&& before(t, a + 2 + n) == bare(h).len() + bare(inner).len()
            &&& spots(t).len() >= spots(h).len()
            &&& forall|k: int| 0 <= k < spots(h).len() ==> spots(t)[k] == spots(h)[k]
            &&& forall|k: int| 0 <= k < a ==> t[k] == h[k]
            &&& forall|k: int| 0 <= k < rest.len() ==> t[a + n + 2 + k] == #[trigger] rest[k]
            &&& t.take(a + n + 2) + rest == t
            &&& spots(t.take(a + n + 2)).len() == bare(h).len() + bare(inner).len()
        }),
{
    let (o, c) = (seq!["("@], seq![")"@]);
    one_mark("("@);
    one_mark(")"@);
    let close_and = c + rest;
    let after = inner + close_and;
    let tail = o + after;
    let t = h + tail;
    let (a, n) = (h.len() as int, inner.len() as int);
    assert(o.len() == 1 && c.len() == 1);
    assert(after.len() == n + 1 + rest.len());
    assert(tail[0] == "("@);
    assert(t[a] == tail[0]);
    assert(t.subrange(a + 1, a + 1 + n) =~= inner) by {
        assert forall|k: int| 0 <= k < n implies t[a + 1 + k] == inner[k] by {
            assert(t[a + 1 + k] == tail[1 + k]);
            assert(tail[1 + k] == after[k]);
        }
    }
    assert(t[a + 1 + n] == ")"@) by {
        assert(t[a + 1 + n] == tail[1 + n]);
        assert(tail[1 + n] == after[n]);
        assert(after[n] == close_and[0]);
    }
    a_bracket_is_closed_by_its_pair(t, a + 1, inner);
    bare_adds(h, tail);
    bare_adds(o, after);
    bare_adds(inner, close_and);
    bare_adds(c, rest);
    let e = Seq::<Seq<char>>::empty();
    assert(e + bare(rest) =~= bare(rest));
    assert(e + bare(after) =~= bare(after));
    assert(bare(t) =~= (bare(h) + bare(inner)) + bare(rest));
    assert(t.take(a + 1 + n) =~= h + (o + inner));
    bare_adds(h, o + inner);
    bare_adds(o, inner);
    let ic = inner + c;
    assert(t.take(a + 2 + n) =~= h + (o + ic));
    bare_adds(h, o + ic);
    bare_adds(o, ic);
    bare_adds(inner, c);
    assert forall|k: int| 0 <= k < rest.len() implies t[a + n + 2 + k] == #[trigger] rest[k] by {
        assert(t[a + n + 2 + k] == tail[n + 2 + k]);
        assert(tail[n + 2 + k] == after[n + 1 + k]);
        assert(after[n + 1 + k] == close_and[1 + k]);
    }
    assert(t.take(a + n + 2) + rest =~= t);
}

proof fn unmarked_is_bare(v: Seq<Seq<char>>)
    requires
        unmarked(v),
    ensures
        bare(v) == v,
{
    let e = Seq::<Seq<char>>::empty();
    bare_concat(e, v);
    assert(e + v =~= v);
    assert(bare(e) =~= e);
}

proof fn tail_unmarked(front: Seq<Seq<char>>, c: Clauses)
    requires
        unmarked(front),
    ensures
        bare(front + clause_words(c)) == front + clause_words(c),
{
    clause_words_unmarked(c);
    let v = front + clause_words(c);
    assert forall|i: int| 0 <= i < v.len() implies !is_mark(#[trigger] v[i]) by {
        if i >= front.len() {
            assert(v[i] == clause_words(c)[i - front.len()]);
        } else {
            assert(v[i] == front[i]);
        }
    }
    unmarked_is_bare(v);
}

/// The head of a query among bare words, from place `i` on.
proof fn head_is_read(b: Seq<Seq<char>>, i: int, f: AggFn, col: usize)
    requires
        0 <= i,
        i + 4 <= b.len(),
        b.subrange(i, i + 4) == seq!["SELECT"@, agg_word(f), col_word(col), "FROM"@],
    ensures
        at(b, i, "SELECT"@),
        agg_at(b, i + 1) == Ok::<AggFn, Seq<char>>(f),
        col_at(b, i + 2) == Ok::<usize, Seq<char>>(col),
        at(b, i + 3, "FROM"@),
{
    let s = b.subrange(i, i + 4);
    assert(s[0] == b[i] && s[1] == b[i + 1] && s[2] == b[i + 2] && s[3] == b[i + 3]);
    aggregates_are_read_as_written(b, i + 1, f);
    columns_are_read_as_written(b, i + 2, col);
}

/// A query over another in brackets is read as it was written: its source is
/// the query inside, under its alias, and its clauses are those behind.
#[verifier::rlimit(60)]
pub proof fn a_query_over_a_query_is_read_as_written(
    f: AggFn,
    col: usize,
    inner: Seq<Seq<char>>,
    q: QueryView,
    alias: Seq<char>,
    c: Clauses,
)
    requires
        balanced(inner),
        query_of(inner) == Ok::<QueryView, Seq<char>>(q),
        alias != "("@,
        alias != ")"@,
        alias != ","@,
    ensures
        query_of(
            seq!["SELECT"@, agg_word(f), "("@, col_word(col), ")"@, "FROM"@] + (seq!["("@] + (inner
                + (seq![")"@] + (seq!["AS"@, alias] + clause_words(c))))),
        ) == Ok::<QueryView, Seq<char>>(
            QueryView {
                agg: f,
                agg_col: col,
                table: SourceView::Subquery(Box::new(q), alias),
                filter: c.filter,
                group_by: c.group_by,
                ctes: Seq::empty(),
                order_by: c.order_by,
                limit: c.limit,
            },
        ),
{
    let h = seq!["SELECT"@, agg_word(f), "("@, col_word(col), ")"@, "FROM"@];
    let named = seq!["AS"@, alias];
    let tail = named + clause_words(c);
    let t = h + (seq!["("@] + (inner + (seq![")"@] + tail)));
    let n = inner.len() as int;
    select_head(f, col);
    assert(unmarked(named)) by {
        literals();
        reveal_strlit("AS");
    }
    tail_unmarked(named, c);
    assert(h.len() == 6);
    bracketed(h, inner, tail);
    let b = bare(t);
    let front = bare(h) + bare(inner);
    let k = before(t, 7 + n);
    assert(b == front + tail);
    assert(k == front.len());
    assert(b[k] == tail[0] && b[k + 1] == tail[1]);
    assert(tail[0] == named[0] && tail[1] == named[1]);
    assert(b.skip(k + 2) =~= clause_words(c));
    clauses_are_read_as_written(b, k + 2, c);
    assert(source_at(t, 6, 4, Seq::empty()) == Ok::<(SourceView, int), Seq<char>>(
        (SourceView::Subquery(Box::new(q), alias), k + 2),
    ));
    assert(t[0] == h[0]);
    not_with(t);
    assert(b.subrange(0, 4) =~= bare(h));
    head_is_read(b, 0, f, col);
    assert(spots(t)[3] == spots(h)[3]);
}

proof fn not_with(t: Seq<Seq<char>>)
    requires
        t.len() > 0,
        t[0] == "SELECT"@,
    ensures
        with_of(t) == Ok::<(Seq<(Seq<char>, QueryView)>, int), Seq<char>>((Seq::empty(), 0)),
        before(t, 0) == 0,
{
    literals();
    assert(t.take(0) =~= Seq::<Seq<char>>::empty());
}

/// A query over a named expression is read as it was written: the expression
/// is the query in its brackets, under its name, and the source is that name.
#[verifier::rlimit(80)]
pub proof fn a_query_over_a_named_query_is_read_as_written(
    f: AggFn,
    col: usize,
    inner: Seq<Seq<char>>,
    q: QueryView,
    name: Seq<char>,
    c: Clauses,
)
    requires
        balanced(inner),
        query_of(inner) == Ok::<QueryView, Seq<char>>(q),
        name != "("@,
        name != ")"@,
        name != ","@,
    ensures
        query_of(
            seq!["WITH"@, name, "AS"@] + (seq!["("@] + (inner + (seq![")"@] + query_words(
                f,
                col,
                name,
                c,
            )))),
        ) == Ok::<QueryView, Seq<char>>(
            QueryView {
                agg: f,
                agg_col: col,
                table: SourceView::CTE(name),
                filter: c.filter,
                group_by: c.group_by,
                ctes: seq![(name, q)],
                order_by: c.order_by,
                limit: c.limit,
            },
        ),
{
    let w = seq!["WITH"@, name, "AS"@];
    let main = query_words(f, col, name, c);
    let t = w + (seq!["("@] + (inner + (seq![")"@] + main)));
    let n = inner.len() as int;
    let h = seq!["SELECT"@, agg_word(f), "("@, col_word(col), ")"@, "FROM"@];
    let named = seq![name];
    let tail = named + clause_words(c);
    assert(main =~= h + tail);
    assert(w.len() == 3 && h.len() == 6);
    select_head(f, col);
    assert(unmarked(named));
    tail_unmarked(named, c);
    bare_adds(h, tail);
    bracketed(w, inner, main);
    assert(unmarked(w)) by {
        literals();
        reveal_strlit("AS");
    }
    unmarked_is_bare(w);
    let b = bare(t);
    let front = w + bare(inner);
    let i = before(t, 5 + n);
    assert(b == front + (bare(h) + tail));
    assert(i == front.len());
    assert(t[0] == w[0] && t[1] == w[1] && t[2] == w[2]);
    let ctes = seq![(name, q)];
    expression_is_read(t, n, inner, q, name);
    assert(b.subrange(i, i + 4) =~= bare(h));
    head_is_read(b, i, f, col);
    assert(b[i + 4] == tail[0]);
    assert(tail[0] == named[0]);
    let pre = t.take(5 + n);
    assert(spots(pre).len() == i);
    from_place(pre, h, tail);
    assert(pre + (h + tail) == t);
    assert(spots(t)[i + 3] == pre.len() + 5);
    assert(pre.len() == 5 + n);
    assert(main[6] == tail[0]);
    assert(t[5 + n + 6] == main[6]);
    assert(crate::sql::has_cte(ctes, name)) by {
        assert(ctes[0].0 == name);
    }
    assert(source_at(t, 5 + n + 6, i + 4, ctes) == Ok::<(SourceView, int), Seq<char>>(
        (SourceView::CTE(name), i + 5),
    ));
    assert(b.skip(i + 5) =~= clause_words(c));
    clauses_are_read_as_written(b, i + 5, c);
}

proof fn expression_is_read(
    t: Seq<Seq<char>>,
    n: int,
    inner: Seq<Seq<char>>,
    q: QueryView,
    name: Seq<char>,
)
    requires
        n == inner.len(),
        t.len() > n + 5,
        t[0] == "WITH"@,
        t[1] == name,
        t[2] == "AS"@,
        t[3] == "("@,
        t.subrange(4, 4 + n) == inner,
        close(t, 4, 1) == 4 + n,
        t[5 + n] == "SELECT"@,
        query_of(inner) == Ok::<QueryView, Seq<char>>(q),
    ensures
        with_of(t) == Ok::<(Seq<(Seq<char>, QueryView)>, int), Seq<char>>((seq![(name, q)], 5 + n)),
{
    literals();
    let none = Seq::<(Seq<char>, QueryView)>::empty();
    assert(none.push((name, q)) =~= seq![(name, q)]);
    assert(!at(t, 5 + n, ","@));
    assert(crate::sql::ctes_from(t, 1, none) == Ok::<
        (Seq<(Seq<char>, QueryView)>, int),
        Seq<char>,
    >((seq![(name, q)], 5 + n)));
}

/// Where the last bare word of `h` stands behind other words.
proof fn from_place(pre: Seq<Seq<char>>, h: Seq<Seq<char>>, tail: Seq<Seq<char>>)
    requires
        spots(h) == seq![0int, 1int, 3int, 5int],
    ensures
        spots(pre + (h + tail)).len() >= spots(pre).len() + 4,
        spots(pre + (h + tail))[spots(pre).len() as int + 3] == pre.len() + 5,
{
    spots_shift(pre, h);
    assert(pre + (h + tail) =~= (pre + h) + tail);
    spots_start(pre + h, tail);
    assert(spots(pre + h)[spots(pre).len() as int + 3] == spots(h)[3] + pre.len());
}

proof fn spots_shift(a: Seq<Seq<char>>, b: Seq<Seq<char>>)
    ensures
        spots(a + b).len() == spots(a).len() + spots(b).len(),
        forall|k: int|
            0 <= k < spots(b).len() ==> #[trigger] spots(a + b)[spots(a).len() + k] == spots(b)[k]
                + a.len(),
    decreases b.len(),
{
    if b.len() == 0 {
        assert(a + b =~= a);
    } else {
        spots_shift(a, b.drop_last());
        assert((a + b).drop_last() =~= a + b.drop_last());
        assert((a + b).last() == b.last());
        let d = b.drop_last();
        assert forall|k: int| 0 <= k < spots(b).len() implies #[trigger] spots(a + b)[spots(a).len()
            + k] == spots(b)[k] + a.len() by {
            if k < spots(d).len() {
                assert(spots(a + d)[spots(a).len() + k] == spots(d)[k] + a.len());
            }
        }
    }
}

// ---------------------------------------------------------------------------
// Text
// ---------------------------------------------------------------------------

/// Whether a text is one word: a bracket or a comma, or something without any
/// of these and without white space.
pub open spec fn one_word(w: Seq<char>) -> bool {
    &&& w.len() > 0
    &&& w.len() == 1 && is_bracket(w[0]) || forall|i: int|
        0 <= i < w.len() ==> !char_space(#[trigger] w[i]) && w[i] != '(' && w[i] != ')' && w[i]
            != ','
}

/// Words with a space behind each.
pub open spec fn spread(v: Seq<Seq<char>>) -> Seq<char>
    decreases v.len(),
{
    if v.len() == 0 {
        Seq::empty()
    } else {
        v[0] + (seq![' '] + spread(v.skip(1)))
    }
}

/// Words with spaces between them are taken apart into the same words.
pub proof fn a_text_is_its_words(v: Seq<Seq<char>>)
    requires
        forall|i: int| 0 <= i < v.len() ==> one_word(#[trigger] v[i]),
    ensures
        words(spread(v)) == v,
    decreases v.len(),
{
    if v.len() > 0 {
        let w = v[0];
        let t = v.skip(1);
        let s = spread(v);
        let rest = seq![' '] + spread(t);
        assert(one_word(w));
        assert forall|i: int| 0 <= i < t.len() implies one_word(#[trigger] t[i]) by {
            assert(t[i] == v[i + 1]);
        }
        a_text_is_its_words(t);
        assert(rest.skip(1) =~= spread(t));
        assert(words(rest) == words(spread(t)));
        if w.len() == 1 && is_bracket(w[0]) {
            assert(s[0] == w[0]);
            assert(s.take(1) =~= w);
            assert(s.skip(1) =~= rest);
        } else {
            let f = |c: char| !parts(c);
            let n = w.len() as int;
            assert forall|i: int| 0 <= i < n implies f(#[trigger] s[i]) by {
                assert(s[i] == w[i]);
            }
            assert(s[n] == ' ');
            assert(s[0] == w[0]);
            span_is(s, f, n);
            assert(s.take(n) =~= w);
            assert(s.skip(n) =~= rest);
        }
        assert(seq![w] + t =~= v);
    } else {
        assert(v =~= Seq::empty());
    }
}

} // verus!
