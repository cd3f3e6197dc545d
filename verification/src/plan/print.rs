//! Statements written out as tokens, and that they are read back.
use crate::chars::{ascii_lower, same_word, upper};
use crate::format::meta::{CmpOp, LitView};
use crate::plan::ast::{AggFn, AstView, ItemView, JoinView, NameView, PredView, TokView};
use crate::plan::grammar::{
    at_kw, at_sym, g_group, g_head, g_item, g_items, g_join, g_joins, g_limit, g_lit, g_middle,
    g_names, g_op, g_order, g_pred, g_preds, g_qual, g_statement, g_table, g_where, item_col,
    item_position, reserved_word, skip_kw,
};
use vstd::prelude::*;

verus! {

// ---------------------------------------------------------------------------
// Writing
// ---------------------------------------------------------------------------

/// Whether a word is a keyword in some mix of upper and lower case.
pub open spec fn spelled(s: Seq<char>, w: Seq<char>) -> bool {
    &&& s.len() == w.len()
    &&& forall|i: int|
        0 <= i < w.len() ==> #[trigger] s[i] == w[i] || 'A' <= w[i] <= 'Z' && s[i] as int == w[i]
            as int + 32
}

/// Whether a way of writing keywords changes nothing but their case.
pub open spec fn spells(sp: spec_fn(Seq<char>) -> Seq<char>) -> bool {
    forall|w: Seq<char>| spelled(#[trigger] sp(w), w)
}

pub open spec fn word(sp: spec_fn(Seq<char>) -> Seq<char>, w: Seq<char>) -> Seq<TokView> {
    seq![TokView::Ident(sp(w))]
}

pub open spec fn name_toks(n: NameView) -> Seq<TokView> {
    if n.qual.len() == 0 {
        seq![TokView::Ident(n.col)]
    } else {
        seq![TokView::Ident(n.qual), TokView::Sym('.'), TokView::Ident(n.col)]
    }
}

pub open spec fn agg_word(f: AggFn) -> Seq<char> {
    match f {
        AggFn::Sum => "SUM"@,
        AggFn::Count => "COUNT"@,
        AggFn::Min => "MIN"@,
        AggFn::Max => "MAX"@,
        AggFn::Avg => "AVG"@,
    }
}

pub open spec fn item_toks(it: ItemView) -> Seq<TokView> {
    match it {
        ItemView::Col(n) => name_toks(n),
        ItemView::Agg(f, n) => seq![TokView::Ident(agg_word(f)), TokView::Sym('(')] + name_toks(n)
            + seq![TokView::Sym(')')],
    }
}

pub open spec fn items_toks(v: Seq<ItemView>) -> Seq<TokView>
    decreases v.len(),
{
    if v.len() == 0 {
        Seq::empty()
    } else if v.len() == 1 {
        item_toks(v[0])
    } else {
        item_toks(v[0]) + (seq![TokView::Sym(',')] + items_toks(v.skip(1)))
    }
}

pub open spec fn names_toks(v: Seq<NameView>) -> Seq<TokView>
    decreases v.len(),
{
    if v.len() == 0 {
        Seq::empty()
    } else if v.len() == 1 {
        name_toks(v[0])
    } else {
        name_toks(v[0]) + (seq![TokView::Sym(',')] + names_toks(v.skip(1)))
    }
}

pub open spec fn op_word(op: CmpOp) -> Seq<char> {
    match op {
        CmpOp::Gt => ">"@,
        CmpOp::Lt => "<"@,
        CmpOp::Ge => ">="@,
        CmpOp::Le => "<="@,
        CmpOp::Eq => "="@,
    }
}

pub open spec fn lit_tok(l: LitView) -> TokView {
    match l {
        LitView::Int(n) => TokView::Num(n),
        LitView::Str(s) => TokView::Str(s),
    }
}

pub open spec fn pred_toks(p: PredView) -> Seq<TokView> {
    name_toks(p.name) + seq![TokView::Op(op_word(p.op)), lit_tok(p.lit)]
}

pub open spec fn preds_toks(sp: spec_fn(Seq<char>) -> Seq<char>, v: Seq<PredView>) -> Seq<TokView>
    decreases v.len(),
{
    if v.len() == 0 {
        Seq::empty()
    } else if v.len() == 1 {
        pred_toks(v[0])
    } else {
        pred_toks(v[0]) + (word(sp, "AND"@) + preds_toks(sp, v.skip(1)))
    }
}

/// A table, and its alias unless that is its name.
pub open spec fn table_toks(table: Seq<char>, alias: Seq<char>) -> Seq<TokView> {
    if alias == table {
        seq![TokView::Ident(table)]
    } else {
        seq![TokView::Ident(table), TokView::Ident(alias)]
    }
}

pub open spec fn join_toks(sp: spec_fn(Seq<char>) -> Seq<char>, j: JoinView) -> Seq<TokView> {
    table_toks(j.table, j.alias) + (word(sp, "ON"@) + (name_toks(j.left) + (seq![
        TokView::Op("="@),
    ] + name_toks(j.right))))
}

pub open spec fn joins_toks(sp: spec_fn(Seq<char>) -> Seq<char>, v: Seq<JoinView>) -> Seq<TokView>
    decreases v.len(),
{
    if v.len() == 0 {
        Seq::empty()
    } else {
        word(sp, "JOIN"@) + (join_toks(sp, v[0]) + joins_toks(sp, v.skip(1)))
    }
}

pub open spec fn where_toks(sp: spec_fn(Seq<char>) -> Seq<char>, v: Seq<PredView>) -> Seq<
    TokView,
> {
    if v.len() == 0 { Seq::empty() } else { word(sp, "WHERE"@) + preds_toks(sp, v) }
}

pub open spec fn group_toks(sp: spec_fn(Seq<char>) -> Seq<char>, v: Seq<NameView>) -> Seq<
    TokView,
> {
    if v.len() == 0 {
        Seq::empty()
    } else {
        word(sp, "GROUP"@) + (word(sp, "BY"@) + names_toks(v))
    }
}

/// The order, by the number of the select item counted from one.
pub open spec fn order_toks(
    sp: spec_fn(Seq<char>) -> Seq<char>,
    o: Option<(usize, bool)>,
) -> Seq<TokView> {
    match o {
        None => Seq::empty(),
        Some((pos, desc)) => word(sp, "ORDER"@) + (word(sp, "BY"@) + (seq![
            TokView::Num((pos + 1) as i64),
        ] + if desc {
            word(sp, "DESC"@)
        } else {
            Seq::empty()
        })),
    }
}

pub open spec fn limit_toks(sp: spec_fn(Seq<char>) -> Seq<char>, l: Option<usize>) -> Seq<TokView> {
    match l {
        None => Seq::empty(),
        Some(n) => word(sp, "LIMIT"@) + seq![TokView::Num(n as i64)],
    }
}

/// A statement, written out.
pub open spec fn ast_toks(sp: spec_fn(Seq<char>) -> Seq<char>, a: AstView) -> Seq<TokView> {
    word(sp, "SELECT"@) + (items_toks(a.select) + (word(sp, "FROM"@) + (table_toks(
        a.table,
        a.alias,
    ) + (joins_toks(sp, a.joins) + (where_toks(sp, a.preds) + (group_toks(sp, a.group_by) + (
    order_toks(sp, a.order_by) + limit_toks(sp, a.limit))))))))
}

// ---------------------------------------------------------------------------
// What can be written
// ---------------------------------------------------------------------------

/// Whether a word is none of the five aggregates, and each of those is its own
/// upper case.
pub open spec fn plain_word(s: Seq<char>) -> bool {
    upper(s) != "SUM"@ && upper(s) != "COUNT"@ && upper(s) != "MIN"@ && upper(s) != "MAX"@ && upper(
        s,
    ) != "AVG"@
}

pub open spec fn writable_item(it: ItemView) -> bool {
    match it {
        ItemView::Col(n) => plain_word(if n.qual.len() == 0 { n.col } else { n.qual }),
        ItemView::Agg(f, n) => upper(agg_word(f)) == agg_word(f),
    }
}

/// Whether a table's alias is its name or a word that is not reserved.
pub open spec fn writable_alias(table: Seq<char>, alias: Seq<char>) -> bool {
    alias == table || !reserved_word(alias)
}

/// Whether a statement has something to select, aliases that are no keywords,
/// and numbers that a token can hold.
pub open spec fn writable(a: AstView) -> bool {
    &&& a.select.len() > 0
    &&& writable_alias(a.table, a.alias)
    &&& forall|i: int|
        0 <= i < a.joins.len() ==> writable_alias((#[trigger] a.joins[i]).table, a.joins[i].alias)
    &&& a.order_by matches Some((pos, desc)) ==> pos < i64::MAX && pos < usize::MAX
    &&& a.limit matches Some(n) ==> n <= i64::MAX
}

// ---------------------------------------------------------------------------
// Reading back
// ---------------------------------------------------------------------------

/// A keyword is known in any mix of cases.
proof fn spelled_is_same(s: Seq<char>, w: Seq<char>)
    requires
        spelled(s, w),
    ensures
        same_word(s, w),
{
    assert forall|i: int| 0 <= i < s.len() implies ascii_lower(#[trigger] s[i]) == ascii_lower(
        w[i],
    ) by {
        if s[i] != w[i] {
            assert('A' <= w[i] <= 'Z');
        }
    }
}

/// Words that differ in a letter, or in length, are different in every mix of
/// cases.
proof fn spelled_differs(s: Seq<char>, w: Seq<char>, v: Seq<char>)
    requires
        spelled(s, w),
        w.len() != v.len() || w.len() > 0 && ascii_lower(w[0]) != ascii_lower(v[0]),
    ensures
        !same_word(s, v),
{
    spelled_is_same(s, w);
    if w.len() > 0 && w.len() == v.len() {
        assert(ascii_lower(s[0]) == ascii_lower(w[0]));
    }
}

/// The operator that is read is the one that was written, and `==` is `=`.
/// Nothing else is an operator.
pub proof fn operators_are_read_as_written(op: CmpOp, o: Seq<char>, rest: Seq<TokView>)
    ensures
        g_op(seq![TokView::Op(op_word(op))] + rest) == Ok::<(CmpOp, Seq<TokView>), Seq<char>>(
            (op, rest),
        ),
        g_op(seq![TokView::Op("=="@)] + rest) == Ok::<(CmpOp, Seq<TokView>), Seq<char>>(
            (CmpOp::Eq, rest),
        ),
        g_op(seq![TokView::Op(o)] + rest) matches Ok((p, _)) ==> o == op_word(p) || o == "=="@,
{
    reveal_strlit(">");
    reveal_strlit("<");
    reveal_strlit(">=");
    reveal_strlit("<=");
    reveal_strlit("=");
    reveal_strlit("==");
    assert(">"@[0] == '>' && "<"@[0] == '<' && ">="@[0] == '>' && "<="@[0] == '<' && "="@[0] == '='
        && "=="@[0] == '=');
    assert(">"@.len() == 1 && "<"@.len() == 1 && "="@.len() == 1);
    assert(">="@.len() == 2 && "<="@.len() == 2 && "=="@.len() == 2);
    assert(">"@ != "<"@);
    assert(">"@ != "="@);
    assert("<"@ != "="@);
    assert(">"@ != ">="@ && ">"@ != "<="@);
    assert("<"@ != ">="@ && "<"@ != "<="@ && "<"@ != "=="@);
    assert(">="@ != "<="@ && ">="@ != "="@ && ">="@ != "=="@ && ">"@ != "=="@);
    assert("<="@ != "="@ && "<="@ != "=="@);
    assert((seq![TokView::Op(op_word(op))] + rest)[0] == TokView::Op(op_word(op)));
    assert((seq![TokView::Op("=="@)] + rest)[0] == TokView::Op("=="@));
    assert((seq![TokView::Op(op_word(op))] + rest).skip(1) =~= rest);
    assert((seq![TokView::Op("=="@)] + rest).skip(1) =~= rest);
    assert((seq![TokView::Op(o)] + rest)[0] == TokView::Op(o));
}

/// A literal is read as it was written.
pub proof fn literals_are_read_as_written(l: LitView, rest: Seq<TokView>)
    ensures
        g_lit(seq![lit_tok(l)] + rest) == Ok::<(LitView, Seq<TokView>), Seq<char>>((l, rest)),
{
    assert((seq![lit_tok(l)] + rest).skip(1) =~= rest);
}

/// A name is read as it was written, with its qualifier where it has one.
pub proof fn names_are_read_as_written(n: NameView, rest: Seq<TokView>)
    requires
        !at_sym(rest, '.'),
    ensures
        g_qual(name_toks(n) + rest) == Ok::<(NameView, Seq<TokView>), Seq<char>>((n, rest)),
{
    let ts = name_toks(n) + rest;
    if n.qual.len() == 0 {
        assert(ts.skip(1) =~= rest);
        assert(n.qual =~= Seq::empty());
    } else {
        assert(ts.skip(1)[0] == TokView::Sym('.'));
        assert(ts.skip(1).skip(1)[0] == TokView::Ident(n.col));
        assert(ts.skip(1).skip(1).skip(1) =~= rest);
    }
}

/// A predicate is read as it was written.
pub proof fn predicates_are_read_as_written(p: PredView, rest: Seq<TokView>)
    ensures
        g_pred(pred_toks(p) + rest) == Ok::<(PredView, Seq<TokView>), Seq<char>>((p, rest)),
{
    let last = seq![lit_tok(p.lit)] + rest;
    let mid = seq![TokView::Op(op_word(p.op))] + last;
    assert(pred_toks(p) + rest =~= name_toks(p.name) + mid);
    names_are_read_as_written(p.name, mid);
    operators_are_read_as_written(p.op, p.name.col, last);
    literals_are_read_as_written(p.lit, rest);
}

/// Predicates joined by AND are read as they were written, all of them and in
/// order.
pub proof fn conjunctions_are_read_as_written(
    sp: spec_fn(Seq<char>) -> Seq<char>,
    v: Seq<PredView>,
    rest: Seq<TokView>,
)
    requires
        spells(sp),
        v.len() > 0,
        !at_kw(rest, "AND"@),
    ensures
        g_preds(preds_toks(sp, v) + rest) == Ok::<(Seq<PredView>, Seq<TokView>), Seq<char>>(
            (v, rest),
        ),
    decreases v.len(),
{
    if v.len() == 1 {
        predicates_are_read_as_written(v[0], rest);
        assert(seq![v[0]] =~= v);
    } else {
        let more = preds_toks(sp, v.skip(1)) + rest;
        let after = word(sp, "AND"@) + more;
        assert(preds_toks(sp, v) + rest =~= pred_toks(v[0]) + after);
        predicates_are_read_as_written(v[0], after);
        spelled_is_same(sp("AND"@), "AND"@);
        assert(after[0] == TokView::Ident(sp("AND"@)));
        assert(after.skip(1) =~= more);
        conjunctions_are_read_as_written(sp, v.skip(1), rest);
        assert(seq![v[0]] + v.skip(1) =~= v);
    }
}

proof fn agg_words_differ()
    ensures
        forall|f: AggFn, g: AggFn| #[trigger] agg_word(f) == #[trigger] agg_word(g) ==> f == g,
        forall|f: AggFn|
            #![trigger agg_word(f)]
            (agg_word(f) == "SUM"@ <==> f is Sum) && (agg_word(f) == "COUNT"@ <==> f is Count) && (
            agg_word(f) == "MIN"@ <==> f is Min) && (agg_word(f) == "MAX"@ <==> f is Max) && (
            agg_word(f) == "AVG"@ <==> f is Avg),
{
    reveal_strlit("SUM");
    reveal_strlit("COUNT");
    reveal_strlit("MIN");
    reveal_strlit("MAX");
    reveal_strlit("AVG");
    assert("SUM"@[0] == 'S' && "COUNT"@[0] == 'C' && "MIN"@[0] == 'M' && "MAX"@[0] == 'M'
        && "AVG"@[0] == 'A' && "MIN"@[1] == 'I' && "MAX"@[1] == 'A');
}

/// A select item is read as it was written: a column by its name, an aggregate
/// by its word and the name in brackets.
pub proof fn items_are_read_as_written(it: ItemView, rest: Seq<TokView>)
    ensures
        writable_item(it) && !at_sym(rest, '.') ==> g_item(item_toks(it) + rest) == Ok::<
            (ItemView, Seq<TokView>),
            Seq<char>,
        >((it, rest)),
{
    if writable_item(it) && !at_sym(rest, '.') {
        let ts = item_toks(it) + rest;
        match it {
            ItemView::Col(n) => {
                names_are_read_as_written(n, rest);
                assert(ts[0] == TokView::Ident(if n.qual.len() == 0 { n.col } else { n.qual }));
            },
            ItemView::Agg(f, n) => {
                agg_words_differ();
                let close = seq![TokView::Sym(')')] + rest;
                assert(ts.skip(1)[0] == TokView::Sym('('));
                assert(ts.skip(1).skip(1) =~= name_toks(n) + close);
                names_are_read_as_written(n, close);
                assert(close.skip(1) =~= rest);
            },
        }
    }
}

/// A select list is read as it was written, all of it and in order.
pub proof fn select_lists_are_read_as_written(v: Seq<ItemView>, rest: Seq<TokView>)
    requires
        v.len() > 0,
    ensures
        !at_sym(rest, '.') && !at_sym(rest, ',') && (forall|i: int|
            0 <= i < v.len() ==> writable_item(#[trigger] v[i])) ==> g_items(items_toks(v) + rest)
            == Ok::<(Seq<ItemView>, Seq<TokView>), Seq<char>>((v, rest)),
    decreases v.len(),
{
    if !at_sym(rest, '.') && !at_sym(rest, ',') && (forall|i: int|
        0 <= i < v.len() ==> writable_item(#[trigger] v[i])) {
        if v.len() == 1 {
            items_are_read_as_written(v[0], rest);
            assert(seq![v[0]] =~= v);
        } else {
            let more = items_toks(v.skip(1)) + rest;
            let after = seq![TokView::Sym(',')] + more;
            assert(items_toks(v) + rest =~= item_toks(v[0]) + after);
            items_are_read_as_written(v[0], after);
            assert(after.skip(1) =~= more);
            assert forall|i: int| 0 <= i < v.skip(1).len() implies writable_item(
                #[trigger] v.skip(1)[i],
            ) by {
                assert(v.skip(1)[i] == v[i + 1]);
            }
            select_lists_are_read_as_written(v.skip(1), rest);
            assert(seq![v[0]] + v.skip(1) =~= v);
        }
    }
}

/// A list of names is read as it was written, all of it and in order.
pub proof fn name_lists_are_read_as_written(v: Seq<NameView>, rest: Seq<TokView>)
    requires
        v.len() > 0,
        !at_sym(rest, '.'),
        !at_sym(rest, ','),
    ensures
        g_names(names_toks(v) + rest) == Ok::<(Seq<NameView>, Seq<TokView>), Seq<char>>((v, rest)),
    decreases v.len(),
{
    if v.len() == 1 {
        names_are_read_as_written(v[0], rest);
        assert(seq![v[0]] =~= v);
    } else {
        let more = names_toks(v.skip(1)) + rest;
        let after = seq![TokView::Sym(',')] + more;
        assert(names_toks(v) + rest =~= name_toks(v[0]) + after);
        names_are_read_as_written(v[0], after);
        assert(after.skip(1) =~= more);
        name_lists_are_read_as_written(v.skip(1), rest);
        assert(seq![v[0]] + v.skip(1) =~= v);
    }
}

/// A table is read as it was written, and its alias is its name where none was
/// written.
pub proof fn tables_are_read_as_written(table: Seq<char>, alias: Seq<char>, rest: Seq<TokView>)
    requires
        writable_alias(table, alias),
        rest.len() > 0 && rest[0] is Ident ==> reserved_word(rest[0]->Ident_0),
    ensures
        g_table(table_toks(table, alias) + rest) == Ok::<
            ((Seq<char>, Seq<char>), Seq<TokView>),
            Seq<char>,
        >(((table, alias), rest)),
{
    let ts = table_toks(table, alias) + rest;
    if alias == table {
        assert(ts.skip(1) =~= rest);
    } else {
        assert(ts.skip(1)[0] == TokView::Ident(alias));
        assert(ts.skip(1).skip(1) =~= rest);
    }
}

/// A join is read as it was written, with its two sides on their sides.
pub proof fn joins_are_read_as_written(
    sp: spec_fn(Seq<char>) -> Seq<char>,
    j: JoinView,
    rest: Seq<TokView>,
)
    requires
        spells(sp),
        writable_alias(j.table, j.alias),
        !at_sym(rest, '.'),
    ensures
        g_join(join_toks(sp, j) + rest) == Ok::<(JoinView, Seq<TokView>), Seq<char>>((j, rest)),
{
    let right = name_toks(j.right) + rest;
    let eq = seq![TokView::Op("="@)] + right;
    let left = name_toks(j.left) + eq;
    let on = word(sp, "ON"@) + left;
    assert(join_toks(sp, j) + rest =~= table_toks(j.table, j.alias) + on);
    spelled_is_same(sp("ON"@), "ON"@);
    tables_are_read_as_written(j.table, j.alias, on);
    assert(on.skip(1) =~= left);
    names_are_read_as_written(j.left, eq);
    assert(eq.skip(1) =~= right);
    names_are_read_as_written(j.right, rest);
}

/// What may stand behind a table: a keyword that starts a later clause, or
/// nothing.
spec fn clause(sp: spec_fn(Seq<char>) -> Seq<char>, ts: Seq<TokView>) -> bool {
    ts.len() == 0 || ts[0] == TokView::Ident(sp("WHERE"@)) || ts[0] == TokView::Ident(sp("GROUP"@))
        || ts[0] == TokView::Ident(sp("ORDER"@)) || ts[0] == TokView::Ident(sp("LIMIT"@))
}

proof fn letters()
    ensures
        "INNER"@.len() == 5 && "INNER"@[0] == 'I',
        "JOIN"@.len() == 4 && "JOIN"@[0] == 'J',
        "WHERE"@.len() == 5 && "WHERE"@[0] == 'W',
        "GROUP"@.len() == 5 && "GROUP"@[0] == 'G',
        "ORDER"@.len() == 5 && "ORDER"@[0] == 'O',
        "LIMIT"@.len() == 5 && "LIMIT"@[0] == 'L',
        "AND"@.len() == 3 && "AND"@[0] == 'A',
        "ASC"@.len() == 3 && "ASC"@[0] == 'A',
        "DESC"@.len() == 4 && "DESC"@[0] == 'D',
        "BY"@.len() == 2 && "BY"@[0] == 'B',
{
    reveal_strlit("INNER");
    reveal_strlit("JOIN");
    reveal_strlit("WHERE");
    reveal_strlit("GROUP");
    reveal_strlit("ORDER");
    reveal_strlit("LIMIT");
    reveal_strlit("AND");
    reveal_strlit("ASC");
    reveal_strlit("DESC");
    reveal_strlit("BY");
}

/// A clause's keyword is none of the others.
proof fn clauses_differ(sp: spec_fn(Seq<char>) -> Seq<char>, ts: Seq<TokView>)
    requires
        spells(sp),
        clause(sp, ts),
    ensures
        !at_kw(ts, "INNER"@),
        !at_kw(ts, "JOIN"@),
        !at_kw(ts, "AND"@),
        !at_kw(ts, "ASC"@),
        !at_kw(ts, "DESC"@),
        at_kw(ts, "WHERE"@) <==> ts.len() > 0 && ts[0] == TokView::Ident(sp("WHERE"@)),
        at_kw(ts, "GROUP"@) <==> ts.len() > 0 && ts[0] == TokView::Ident(sp("GROUP"@)),
        at_kw(ts, "ORDER"@) <==> ts.len() > 0 && ts[0] == TokView::Ident(sp("ORDER"@)),
        at_kw(ts, "LIMIT"@) <==> ts.len() > 0 && ts[0] == TokView::Ident(sp("LIMIT"@)),
        ts.len() > 0 && ts[0] is Ident ==> reserved_word(ts[0]->Ident_0),
        !at_sym(ts, '.'),
        !at_sym(ts, ','),
{
    letters();
    if ts.len() > 0 {
        let s = ts[0]->Ident_0;
        let w = if s == sp("WHERE"@) {
            "WHERE"@
        } else if s == sp("GROUP"@) {
            "GROUP"@
        } else if s == sp("ORDER"@) {
            "ORDER"@
        } else {
            "LIMIT"@
        };
        assert(s == sp(w));
        spelled_is_same(s, w);
        spelled_differs(s, w, "INNER"@);
        spelled_differs(s, w, "JOIN"@);
        spelled_differs(s, w, "AND"@);
        spelled_differs(s, w, "ASC"@);
        spelled_differs(s, w, "DESC"@);
        assert(spelled(sp("WHERE"@), "WHERE"@));
        assert(spelled(sp("GROUP"@), "GROUP"@));
        assert(spelled(sp("ORDER"@), "ORDER"@));
        assert(spelled(sp("LIMIT"@), "LIMIT"@));
        if w != "WHERE"@ {
            spelled_differs(s, w, "WHERE"@);
        }
        if w != "GROUP"@ {
            spelled_differs(s, w, "GROUP"@);
        }
        if w != "ORDER"@ {
            spelled_differs(s, w, "ORDER"@);
        }
        if w != "LIMIT"@ {
            spelled_differs(s, w, "LIMIT"@);
        }
    }
}

#[verifier::rlimit(60)]
proof fn read_joins(sp: spec_fn(Seq<char>) -> Seq<char>, v: Seq<JoinView>, rest: Seq<TokView>)
    requires
        spells(sp),
        clause(sp, rest),
        forall|i: int|
            0 <= i < v.len() ==> writable_alias((#[trigger] v[i]).table, v[i].alias),
    ensures
        g_joins(joins_toks(sp, v) + rest) == Ok::<(Seq<JoinView>, Seq<TokView>), Seq<char>>(
            (v, rest),
        ),
        ({
            let ts = joins_toks(sp, v) + rest;
            &&& ts.len() > 0 && ts[0] is Ident ==> reserved_word(ts[0]->Ident_0)
            &&& !at_sym(ts, '.')
        }),
    decreases v.len(),
{
    clauses_differ(sp, rest);
    let ts = joins_toks(sp, v) + rest;
    if v.len() == 0 {
        assert(ts =~= rest);
        assert(v =~= Seq::empty());
    } else {
        let more = joins_toks(sp, v.skip(1)) + rest;
        assert(ts =~= word(sp, "JOIN"@) + (join_toks(sp, v[0]) + more));
        assert(ts.skip(1) =~= join_toks(sp, v[0]) + more);
        let s = sp("JOIN"@);
        letters();
        spelled_is_same(s, "JOIN"@);
        spelled_differs(s, "JOIN"@, "INNER"@);
        assert(ts[0] == TokView::Ident(s));
        assert forall|i: int| 0 <= i < v.skip(1).len() implies writable_alias(
            (#[trigger] v.skip(1)[i]).table,
            v.skip(1)[i].alias,
        ) by {
            assert(v.skip(1)[i] == v[i + 1]);
        }
        read_joins(sp, v.skip(1), rest);
        joins_are_read_as_written(sp, v[0], more);
        assert(skip_kw(ts, "INNER"@) == ts);
        assert(at_kw(ts, "JOIN"@));
        assert(g_join(ts.skip(1)) == Ok::<(JoinView, Seq<TokView>), Seq<char>>((v[0], more)));
        assert(seq![v[0]] + v.skip(1) =~= v);
    }
}

proof fn read_where(sp: spec_fn(Seq<char>) -> Seq<char>, v: Seq<PredView>, rest: Seq<TokView>)
    requires
        spells(sp),
        clause(sp, rest),
        !at_kw(rest, "WHERE"@),
    ensures
        g_where(where_toks(sp, v) + rest) == Ok::<(Seq<PredView>, Seq<TokView>), Seq<char>>(
            (v, rest),
        ),
        clause(sp, where_toks(sp, v) + rest),
{
    clauses_differ(sp, rest);
    let ts = where_toks(sp, v) + rest;
    if v.len() == 0 {
        assert(ts =~= rest);
        assert(v =~= Seq::empty());
    } else {
        assert(ts[0] == TokView::Ident(sp("WHERE"@)));
        clauses_differ(sp, ts);
        assert(ts.skip(1) =~= preds_toks(sp, v) + rest);
        conjunctions_are_read_as_written(sp, v, rest);
    }
}

proof fn read_group(sp: spec_fn(Seq<char>) -> Seq<char>, v: Seq<NameView>, rest: Seq<TokView>)
    requires
        spells(sp),
        clause(sp, rest),
        !at_kw(rest, "WHERE"@),
        !at_kw(rest, "GROUP"@),
    ensures
        g_group(group_toks(sp, v) + rest) == Ok::<(Seq<NameView>, Seq<TokView>), Seq<char>>(
            (v, rest),
        ),
        clause(sp, group_toks(sp, v) + rest),
        !at_kw(group_toks(sp, v) + rest, "WHERE"@),
{
    clauses_differ(sp, rest);
    let ts = group_toks(sp, v) + rest;
    if v.len() == 0 {
        assert(ts =~= rest);
        assert(v =~= Seq::empty());
    } else {
        assert(ts[0] == TokView::Ident(sp("GROUP"@)));
        clauses_differ(sp, ts);
        letters();
        spelled_differs(sp("GROUP"@), "GROUP"@, "WHERE"@);
        spelled_is_same(sp("BY"@), "BY"@);
        assert(ts.skip(1)[0] == TokView::Ident(sp("BY"@)));
        assert(ts.skip(2) =~= names_toks(v) + rest);
        name_lists_are_read_as_written(v, rest);
    }
}

proof fn read_order(
    sp: spec_fn(Seq<char>) -> Seq<char>,
    o: Option<(usize, bool)>,
    rest: Seq<TokView>,
    select: Seq<ItemView>,
)
    requires
        spells(sp),
        clause(sp, rest),
        !at_kw(rest, "WHERE"@),
        !at_kw(rest, "GROUP"@),
        !at_kw(rest, "ORDER"@),
        o matches Some((pos, desc)) ==> pos < i64::MAX && pos < usize::MAX,
    ensures
        g_order(order_toks(sp, o) + rest, select) == Ok::<
            (Option<(usize, bool)>, Seq<TokView>),
            Seq<char>,
        >((o, rest)),
        clause(sp, order_toks(sp, o) + rest),
        !at_kw(order_toks(sp, o) + rest, "WHERE"@),
        !at_kw(order_toks(sp, o) + rest, "GROUP"@),
{
    clauses_differ(sp, rest);
    let ts = order_toks(sp, o) + rest;
    match o {
        None => {
            assert(ts =~= rest);
        },
        Some((pos, desc)) => {
            letters();
            assert(ts[0] == TokView::Ident(sp("ORDER"@)));
            clauses_differ(sp, ts);
            spelled_differs(sp("ORDER"@), "ORDER"@, "WHERE"@);
            spelled_differs(sp("ORDER"@), "ORDER"@, "GROUP"@);
            spelled_is_same(sp("BY"@), "BY"@);
            assert(ts.skip(1)[0] == TokView::Ident(sp("BY"@)));
            assert(ts.skip(2)[0] == TokView::Num((pos + 1) as i64));
            if desc {
                spelled_is_same(sp("DESC"@), "DESC"@);
                assert(ts.skip(2).skip(1)[0] == TokView::Ident(sp("DESC"@)));
                assert(ts.skip(2).skip(1).skip(1) =~= rest);
            } else {
                assert(ts.skip(2).skip(1) =~= rest);
            }
        },
    }
}

proof fn read_limit(sp: spec_fn(Seq<char>) -> Seq<char>, l: Option<usize>)
    requires
        spells(sp),
        l matches Some(n) ==> n <= i64::MAX,
    ensures
        g_limit(limit_toks(sp, l)) == Ok::<(Option<usize>, Seq<TokView>), Seq<char>>(
            (l, Seq::empty()),
        ),
        clause(sp, limit_toks(sp, l)),
        !at_kw(limit_toks(sp, l), "WHERE"@),
        !at_kw(limit_toks(sp, l), "GROUP"@),
        !at_kw(limit_toks(sp, l), "ORDER"@),
{
    let ts = limit_toks(sp, l);
    if l is Some {
        letters();
        assert(ts[0] == TokView::Ident(sp("LIMIT"@)));
        clauses_differ(sp, ts);
        spelled_differs(sp("LIMIT"@), "LIMIT"@, "WHERE"@);
        spelled_differs(sp("LIMIT"@), "LIMIT"@, "GROUP"@);
        spelled_differs(sp("LIMIT"@), "LIMIT"@, "ORDER"@);
        assert(ts.skip(2) =~= Seq::empty());
    }
}

/// A statement that was written out, with its keywords in any mix of cases, is
/// read back: its select list, tables, joins, predicates, groups, order and
/// limit are those that were written.
pub proof fn statements_are_read_as_written(sp: spec_fn(Seq<char>) -> Seq<char>, a: AstView)
    requires
        spells(sp),
        writable(a),
    ensures
        (forall|i: int| 0 <= i < a.select.len() ==> writable_item(#[trigger] a.select[i]))
            ==> g_statement(ast_toks(sp, a)) == Ok::<AstView, Seq<char>>(a),
{
    if forall|i: int| 0 <= i < a.select.len() ==> writable_item(#[trigger] a.select[i]) {
        let t8 = limit_toks(sp, a.limit);
        let t7 = order_toks(sp, a.order_by) + t8;
        let t6 = group_toks(sp, a.group_by) + t7;
        let t5 = where_toks(sp, a.preds) + t6;
        let t4 = joins_toks(sp, a.joins) + t5;
        let t3 = table_toks(a.table, a.alias) + t4;
        let t2 = word(sp, "FROM"@) + t3;
        let t1 = items_toks(a.select) + t2;
        read_limit(sp, a.limit);
        read_order(sp, a.order_by, t8, a.select);
        read_group(sp, a.group_by, t7);
        read_where(sp, a.preds, t6);
        read_joins(sp, a.joins, t5);
        tables_are_read_as_written(a.table, a.alias, t4);
        spelled_is_same(sp("FROM"@), "FROM"@);
        assert(t2.skip(1) =~= t3);
        assert(t2[0] == TokView::Ident(sp("FROM"@)));
        select_lists_are_read_as_written(a.select, t2);
        let ts = ast_toks(sp, a);
        spelled_is_same(sp("SELECT"@), "SELECT"@);
        assert(ts[0] == TokView::Ident(sp("SELECT"@)));
        assert(ts.skip(1) =~= t1);
        assert(g_head(ts) == Ok::<((Seq<ItemView>, (Seq<char>, Seq<char>)), Seq<TokView>), Seq<char>>(
            ((a.select, (a.table, a.alias)), t4),
        ));
        assert(g_middle(t4) == Ok::<
            ((Seq<JoinView>, Seq<PredView>, Seq<NameView>), Seq<TokView>),
            Seq<char>,
        >(((a.joins, a.preds, a.group_by), t7)));
    }
}

/// An order by a column's name is by the first select item with that column.
pub proof fn an_order_finds_the_first_item(select: Seq<ItemView>, name: Seq<char>)
    ensures
        item_position(select, name) matches Some(i) ==> i < select.len() && item_col(
            select[i as int],
        ) == name && forall|j: int| 0 <= j < i ==> item_col(#[trigger] select[j]) != name,
        item_position(select, name) is None ==> forall|j: int|
            0 <= j < select.len() ==> item_col(#[trigger] select[j]) != name,
    decreases select.len(),
{
    if select.len() > 0 {
        let t = select.skip(1);
        an_order_finds_the_first_item(t, name);
        assert forall|j: int| 0 < j < select.len() implies #[trigger] select[j] == t[j - 1] by {}
    }
}

/// An order runs downwards behind DESC and upwards behind ASC or neither, by
/// the item that its number counts to, or the first with the column it names.
pub proof fn orders_are_read_as_written(
    sp: spec_fn(Seq<char>) -> Seq<char>,
    name: Seq<char>,
    n: i64,
    rest: Seq<TokView>,
    select: Seq<ItemView>,
)
    requires
        spells(sp),
        1 <= n <= usize::MAX,
        !at_kw(rest, "DESC"@),
        !at_kw(rest, "ASC"@),
    ensures
        ({
            let read = |t: TokView, ts: Seq<TokView>|
                g_order(word(sp, "ORDER"@) + (word(sp, "BY"@) + (seq![t] + ts)), select);
            let num = TokView::Num(n);
            &&& read(num, rest) == Ok::<(Option<(usize, bool)>, Seq<TokView>), Seq<char>>(
                (Some(((n - 1) as usize, false)), rest),
            )
            &&& read(num, word(sp, "ASC"@) + rest) == Ok::<
                (Option<(usize, bool)>, Seq<TokView>),
                Seq<char>,
            >((Some(((n - 1) as usize, false)), rest))
            &&& read(num, word(sp, "DESC"@) + rest) == Ok::<
                (Option<(usize, bool)>, Seq<TokView>),
                Seq<char>,
            >((Some(((n - 1) as usize, true)), rest))
            &&& match item_position(select, name) {
                Some(i) => read(TokView::Ident(name), rest) == Ok::<
                    (Option<(usize, bool)>, Seq<TokView>),
                    Seq<char>,
                >((Some((i as usize, false)), rest)),
                None => read(TokView::Ident(name), rest) is Err,
            }
        }),
{
    letters();
    spelled_is_same(sp("ORDER"@), "ORDER"@);
    spelled_is_same(sp("BY"@), "BY"@);
    spelled_is_same(sp("ASC"@), "ASC"@);
    spelled_is_same(sp("DESC"@), "DESC"@);
    spelled_differs(sp("ASC"@), "ASC"@, "DESC"@);
    order_tail(sp, TokView::Num(n), rest);
    order_tail(sp, TokView::Num(n), word(sp, "ASC"@) + rest);
    order_tail(sp, TokView::Num(n), word(sp, "DESC"@) + rest);
    order_tail(sp, TokView::Ident(name), rest);
    let a = word(sp, "ASC"@) + rest;
    let d = word(sp, "DESC"@) + rest;
    assert(a[0] == TokView::Ident(sp("ASC"@)) && d[0] == TokView::Ident(sp("DESC"@)));
    assert(a.skip(1) =~= rest);
    assert(d.skip(1) =~= rest);
}

proof fn order_tail(sp: spec_fn(Seq<char>) -> Seq<char>, t: TokView, ts: Seq<TokView>)
    ensures
        ({
            let s = word(sp, "ORDER"@) + (word(sp, "BY"@) + (seq![t] + ts));
            &&& s.len() >= 3
            &&& s[0] == TokView::Ident(sp("ORDER"@))
            &&& s.skip(1).len() > 0 && s.skip(1)[0] == TokView::Ident(sp("BY"@))
            &&& s.skip(2).len() > 0 && s.skip(2)[0] == t
            &&& s.skip(2).skip(1) == ts
        }),
{
    let s = word(sp, "ORDER"@) + (word(sp, "BY"@) + (seq![t] + ts));
    assert(s.skip(2).skip(1) =~= ts);
}

/// INNER before JOIN changes nothing.
pub proof fn an_inner_join_is_a_join(sp: spec_fn(Seq<char>) -> Seq<char>, ts: Seq<TokView>)
    requires
        spells(sp),
        at_kw(ts, "JOIN"@),
    ensures
        g_joins(word(sp, "INNER"@) + ts) == g_joins(ts),
{
    letters();
    spelled_is_same(sp("INNER"@), "INNER"@);
    let s = word(sp, "INNER"@) + ts;
    assert(s[0] == TokView::Ident(sp("INNER"@)));
    assert(s.skip(1) =~= ts);
    assert(!at_kw(ts, "INNER"@));
}

/// What is not a statement is refused: one that does not begin with SELECT,
/// has no FROM behind its items, or whose GROUP, ORDER, LIMIT or JOIN lacks
/// what belongs to it.
pub proof fn what_is_no_statement_is_refused(ts: Seq<TokView>, select: Seq<ItemView>)
    ensures
        !at_kw(ts, "SELECT"@) ==> g_statement(ts) is Err,
        ts.len() == 0 ==> g_statement(ts) is Err,
        g_items(ts.skip(1)) is Err ==> g_statement(ts) is Err,
        g_items(ts.skip(1)) matches Ok((items, rest)) ==> (!at_kw(rest, "FROM"@) ==> g_statement(ts)
            is Err),
        at_kw(ts, "GROUP"@) && !at_kw(ts.skip(1), "BY"@) ==> g_group(ts) is Err,
        at_kw(ts, "ORDER"@) && !at_kw(ts.skip(1), "BY"@) ==> g_order(ts, select) is Err,
        at_kw(ts, "LIMIT"@) && !(ts.len() > 1 && ts[1] is Num) ==> g_limit(ts) is Err,
        g_table(ts) matches Ok((t, rest)) ==> (!at_kw(rest, "ON"@) ==> g_join(ts) is Err),
{
}

} // verus!
