//! The grammar of statements, and the parser that follows it.
use crate::chars::{
    debug_char, debug_chr, debug_str, debug_text, eq_word, same_word, statement, statement_chars,
    to_upper, upper,
};
use crate::format::meta::{CmpOp, LitView, Literal};
use crate::plan::ast::{
    item_views, join_views, lex, name_views, pred_views, tok_views, tokens, AggFn, Ast,
    AstJoin, AstPred, AstView, ItemView, JoinView, NameView, PredView, SelectItem, Tok,
    TokView,
};
use crate::text::{dec_int, i64_text, join2, str_eq};
use vstd::prelude::*;

verus! {

/// A value read off the front of some tokens and the tokens that follow, or
/// an error in words.
pub type Parsed<T> = Result<(T, Seq<TokView>), Seq<char>>;

// ---------------------------------------------------------------------------
// Pieces
// ---------------------------------------------------------------------------

/// A token as `{:?}` shows it.
pub open spec fn debug_token(t: TokView) -> Seq<char> {
    match t {
        TokView::Ident(s) => "Ident("@ + debug_text(s) + ")"@,
        TokView::Num(n) => "Num("@ + dec_int(n as int) + ")"@,
        TokView::Str(s) => "Str("@ + debug_text(s) + ")"@,
        TokView::Sym(c) => "Sym("@ + debug_char(c) + ")"@,
        TokView::Op(s) => "Op("@ + debug_text(s) + ")"@,
    }
}

/// What stands at the front of some tokens, in words.
pub open spec fn debug_first(ts: Seq<TokView>) -> Seq<char> {
    if ts.len() == 0 { "None"@ } else { "Some("@ + debug_token(ts[0]) + ")"@ }
}

/// Whether a keyword stands at the front, in any case.
pub open spec fn at_kw(ts: Seq<TokView>, w: Seq<char>) -> bool {
    ts.len() > 0 && (ts[0] matches TokView::Ident(s) && same_word(s, w))
}

pub open spec fn at_sym(ts: Seq<TokView>, c: char) -> bool {
    ts.len() > 0 && ts[0] == TokView::Sym(c)
}

/// The tokens without a keyword at their front.
pub open spec fn skip_kw(ts: Seq<TokView>, w: Seq<char>) -> Seq<TokView> {
    if at_kw(ts, w) { ts.skip(1) } else { ts }
}

pub open spec fn g_ident(ts: Seq<TokView>) -> Parsed<Seq<char>> {
    if ts.len() > 0 && ts[0] is Ident {
        Ok((ts[0]->Ident_0, ts.skip(1)))
    } else {
        Err("expected identifier, got "@ + debug_first(ts))
    }
}

pub open spec fn g_sym(ts: Seq<TokView>, c: char) -> Parsed<()> {
    if at_sym(ts, c) {
        Ok(((), ts.skip(1)))
    } else {
        Err("expected '"@.push(c) + "', got "@ + debug_first(ts))
    }
}

/// A name, or two joined by a dot.
pub open spec fn g_qual(ts: Seq<TokView>) -> Parsed<NameView> {
    match g_ident(ts) {
        Err(e) => Err(e),
        Ok((a, ts)) => if at_sym(ts, '.') {
            match g_ident(ts.skip(1)) {
                Err(e) => Err(e),
                Ok((b, ts)) => Ok((NameView { qual: a, col: b }, ts)),
            }
        } else {
            Ok((NameView { qual: Seq::empty(), col: a }, ts))
        },
    }
}

/// The aggregate that a word in any case names.
pub open spec fn agg_of(word: Seq<char>) -> Option<AggFn> {
    let u = upper(word);
    if u == "SUM"@ {
        Some(AggFn::Sum)
    } else if u == "COUNT"@ {
        Some(AggFn::Count)
    } else if u == "MIN"@ {
        Some(AggFn::Min)
    } else if u == "MAX"@ {
        Some(AggFn::Max)
    } else if u == "AVG"@ {
        Some(AggFn::Avg)
    } else {
        None
    }
}

pub open spec fn at_agg(ts: Seq<TokView>) -> Option<AggFn> {
    if ts.len() > 0 && ts[0] is Ident { agg_of(ts[0]->Ident_0) } else { None }
}

/// An aggregate of a name in brackets, or a name.
pub open spec fn g_item(ts: Seq<TokView>) -> Parsed<ItemView> {
    match at_agg(ts) {
        Some(f) => match g_sym(ts.skip(1), '(') {
            Err(e) => Err(e),
            Ok((_, ts)) => match g_qual(ts) {
                Err(e) => Err(e),
                Ok((n, ts)) => match g_sym(ts, ')') {
                    Err(e) => Err(e),
                    Ok((_, ts)) => Ok((ItemView::Agg(f, n), ts)),
                },
            },
        },
        None => match g_qual(ts) {
            Err(e) => Err(e),
            Ok((n, ts)) => Ok((ItemView::Col(n), ts)),
        },
    }
}

/// Items with commas between them.
pub open spec fn g_items(ts: Seq<TokView>) -> Parsed<Seq<ItemView>>
    decreases ts.len(),
    via g_items_shrink
{
    match g_item(ts) {
        Err(e) => Err(e),
        Ok((it, ts)) => if at_sym(ts, ',') {
            match g_items(ts.skip(1)) {
                Err(e) => Err(e),
                Ok((more, ts)) => Ok((seq![it] + more, ts)),
            }
        } else {
            Ok((seq![it], ts))
        },
    }
}

#[via_fn]
proof fn g_items_shrink(ts: Seq<TokView>) {
}

/// Names with commas between them.
pub open spec fn g_names(ts: Seq<TokView>) -> Parsed<Seq<NameView>>
    decreases ts.len(),
    via g_names_shrink
{
    match g_qual(ts) {
        Err(e) => Err(e),
        Ok((n, ts)) => if at_sym(ts, ',') {
            match g_names(ts.skip(1)) {
                Err(e) => Err(e),
                Ok((more, ts)) => Ok((seq![n] + more, ts)),
            }
        } else {
            Ok((seq![n], ts))
        },
    }
}

#[via_fn]
proof fn g_names_shrink(ts: Seq<TokView>) {
}

/// The words that cannot be an alias.
pub open spec fn reserved_word(s: Seq<char>) -> bool {
    same_word(s, "FROM"@) || same_word(s, "JOIN"@) || same_word(s, "ON"@) || same_word(s, "WHERE"@)
        || same_word(s, "GROUP"@) || same_word(s, "ORDER"@) || same_word(s, "LIMIT"@) || same_word(
        s,
        "AND"@,
    ) || same_word(s, "BY"@) || same_word(s, "DESC"@) || same_word(s, "ASC"@) || same_word(s, "AS"@)
        || same_word(s, "SELECT"@) || same_word(s, "INNER"@)
}

/// A table and its alias, which is its name if none is given.
pub open spec fn g_table(ts: Seq<TokView>) -> Parsed<(Seq<char>, Seq<char>)> {
    match g_ident(ts) {
        Err(e) => Err(e),
        Ok((t, ts)) => if ts.len() > 0 && ts[0] is Ident && !reserved_word(ts[0]->Ident_0) {
            Ok(((t, ts[0]->Ident_0), ts.skip(1)))
        } else {
            Ok(((t, t), ts))
        },
    }
}

/// A joined table and the equality it is joined on.
pub open spec fn g_join(ts: Seq<TokView>) -> Parsed<JoinView> {
    match g_table(ts) {
        Err(e) => Err(e),
        Ok(((table, alias), ts)) => if !at_kw(ts, "ON"@) {
            Err("expected ON"@)
        } else {
            match g_qual(ts.skip(1)) {
                Err(e) => Err(e),
                Ok((left, ts)) => if ts.len() > 0 && ts[0] == TokView::Op("="@) {
                    match g_qual(ts.skip(1)) {
                        Err(e) => Err(e),
                        Ok((right, ts)) => Ok((JoinView { table, alias, left, right }, ts)),
                    }
                } else {
                    Err("expected '=' in join, got "@ + debug_first(ts))
                },
            }
        },
    }
}

/// Joins, each behind JOIN or INNER JOIN.
pub open spec fn g_joins(ts: Seq<TokView>) -> Parsed<Seq<JoinView>>
    decreases ts.len(),
    via g_joins_shrink
{
    let ts = skip_kw(ts, "INNER"@);
    if !at_kw(ts, "JOIN"@) {
        Ok((Seq::empty(), ts))
    } else {
        match g_join(ts.skip(1)) {
            Err(e) => Err(e),
            Ok((j, ts)) => match g_joins(ts) {
                Err(e) => Err(e),
                Ok((more, ts)) => Ok((seq![j] + more, ts)),
            },
        }
    }
}

#[via_fn]
proof fn g_joins_shrink(ts: Seq<TokView>) {
}

pub open spec fn g_op(ts: Seq<TokView>) -> Parsed<CmpOp> {
    if ts.len() > 0 && ts[0] is Op {
        let o = ts[0]->Op_0;
        if o == ">"@ {
            Ok((CmpOp::Gt, ts.skip(1)))
        } else if o == "<"@ {
            Ok((CmpOp::Lt, ts.skip(1)))
        } else if o == ">="@ {
            Ok((CmpOp::Ge, ts.skip(1)))
        } else if o == "<="@ {
            Ok((CmpOp::Le, ts.skip(1)))
        } else if o == "="@ || o == "=="@ {
            Ok((CmpOp::Eq, ts.skip(1)))
        } else {
            Err("bad op "@ + o)
        }
    } else {
        Err("expected op, got "@ + debug_first(ts))
    }
}

pub open spec fn g_lit(ts: Seq<TokView>) -> Parsed<LitView> {
    if ts.len() > 0 && ts[0] is Num {
        Ok((LitView::Int(ts[0]->Num_0), ts.skip(1)))
    } else if ts.len() > 0 && ts[0] is Str {
        Ok((LitView::Str(ts[0]->Str_0), ts.skip(1)))
    } else {
        Err("expected literal, got "@ + debug_first(ts))
    }
}

pub open spec fn g_pred(ts: Seq<TokView>) -> Parsed<PredView> {
    match g_qual(ts) {
        Err(e) => Err(e),
        Ok((name, ts)) => match g_op(ts) {
            Err(e) => Err(e),
            Ok((op, ts)) => match g_lit(ts) {
                Err(e) => Err(e),
                Ok((lit, ts)) => Ok((PredView { name, op, lit }, ts)),
            },
        },
    }
}

/// Predicates with AND between them.
pub open spec fn g_preds(ts: Seq<TokView>) -> Parsed<Seq<PredView>>
    decreases ts.len(),
    via g_preds_shrink
{
    match g_pred(ts) {
        Err(e) => Err(e),
        Ok((p, ts)) => if at_kw(ts, "AND"@) {
            match g_preds(ts.skip(1)) {
                Err(e) => Err(e),
                Ok((more, ts)) => Ok((seq![p] + more, ts)),
            }
        } else {
            Ok((seq![p], ts))
        },
    }
}

#[via_fn]
proof fn g_preds_shrink(ts: Seq<TokView>) {
}

/// The column of a select item.
pub open spec fn item_col(it: ItemView) -> Seq<char> {
    match it {
        ItemView::Col(n) => n.col,
        ItemView::Agg(_, n) => n.col,
    }
}

/// The position of the first select item with a column.
pub open spec fn item_position(select: Seq<ItemView>, name: Seq<char>) -> Option<nat>
    decreases select.len(),
{
    if select.len() == 0 {
        None
    } else if item_col(select[0]) == name {
        Some(0)
    } else {
        match item_position(select.skip(1), name) {
            Some(i) => Some(i + 1),
            None => None,
        }
    }
}

/// The select position that ORDER BY names: by number, counted from one, or
/// by column.
pub open spec fn g_order_pos(ts: Seq<TokView>, select: Seq<ItemView>) -> Parsed<usize> {
    if ts.len() > 0 && ts[0] is Num {
        let n = ts[0]->Num_0 as usize;
        Ok((if n == 0 { 0 } else { (n - 1) as usize }, ts.skip(1)))
    } else if ts.len() > 0 && ts[0] is Ident {
        match item_position(select, ts[0]->Ident_0) {
            Some(i) => Ok((i as usize, ts.skip(1))),
            None => Err("ORDER BY column "@ + ts[0]->Ident_0 + " not in select list"@),
        }
    } else {
        Err("bad ORDER BY "@ + debug_first(ts))
    }
}

pub open spec fn g_order(ts: Seq<TokView>, select: Seq<ItemView>) -> Parsed<
    Option<(usize, bool)>,
> {
    if !at_kw(ts, "ORDER"@) {
        Ok((None, ts))
    } else if !at_kw(ts.skip(1), "BY"@) {
        Err("expected BY"@)
    } else {
        match g_order_pos(ts.skip(2), select) {
            Err(e) => Err(e),
            Ok((pos, ts)) => if at_kw(ts, "DESC"@) {
                Ok((Some((pos, true)), ts.skip(1)))
            } else {
                Ok((Some((pos, false)), skip_kw(ts, "ASC"@)))
            },
        }
    }
}

pub open spec fn g_limit(ts: Seq<TokView>) -> Parsed<Option<usize>> {
    if !at_kw(ts, "LIMIT"@) {
        Ok((None, ts))
    } else if ts.len() > 1 && ts[1] is Num {
        Ok((Some(ts[1]->Num_0 as usize), ts.skip(2)))
    } else {
        Err("bad LIMIT "@ + debug_first(ts.skip(1)))
    }
}

pub open spec fn g_where(ts: Seq<TokView>) -> Parsed<Seq<PredView>> {
    if at_kw(ts, "WHERE"@) { g_preds(ts.skip(1)) } else { Ok((Seq::empty(), ts)) }
}

pub open spec fn g_group(ts: Seq<TokView>) -> Parsed<Seq<NameView>> {
    if !at_kw(ts, "GROUP"@) {
        Ok((Seq::empty(), ts))
    } else if !at_kw(ts.skip(1), "BY"@) {
        Err("expected BY"@)
    } else {
        g_names(ts.skip(2))
    }
}

/// The select list and the table.
pub open spec fn g_head(ts: Seq<TokView>) -> Parsed<(Seq<ItemView>, (Seq<char>, Seq<char>))> {
    if !at_kw(ts, "SELECT"@) {
        Err("expected SELECT"@)
    } else {
        match g_items(ts.skip(1)) {
            Err(e) => Err(e),
            Ok((select, ts)) => if !at_kw(ts, "FROM"@) {
                Err("expected FROM"@)
            } else {
                match g_table(ts.skip(1)) {
                    Err(e) => Err(e),
                    Ok((t, ts)) => Ok(((select, t), ts)),
                }
            },
        }
    }
}

/// Joins, predicates and groups.
pub open spec fn g_middle(ts: Seq<TokView>) -> Parsed<
    (Seq<JoinView>, Seq<PredView>, Seq<NameView>),
> {
    match g_joins(ts) {
        Err(e) => Err(e),
        Ok((joins, ts)) => match g_where(ts) {
            Err(e) => Err(e),
            Ok((preds, ts)) => match g_group(ts) {
                Err(e) => Err(e),
                Ok((group_by, ts)) => Ok(((joins, preds, group_by), ts)),
            },
        },
    }
}

/// A whole statement. What follows it is not looked at.
pub open spec fn g_statement(ts: Seq<TokView>) -> Result<AstView, Seq<char>> {
    match g_head(ts) {
        Err(e) => Err(e),
        Ok(((select, (table, alias)), ts)) => match g_middle(ts) {
            Err(e) => Err(e),
            Ok(((joins, preds, group_by), ts)) => match g_order(ts, select) {
                Err(e) => Err(e),
                Ok((order_by, ts)) => match g_limit(ts) {
                    Err(e) => Err(e),
                    Ok((limit, _)) => Ok(
                        AstView {
                            select,
                            table,
                            alias,
                            joins,
                            preds,
                            group_by,
                            order_by,
                            limit,
                        },
                    ),
                },
            },
        },
    }
}

/// What a text parses to; nothing where it holds a number that does not fit
/// 64 bits.
pub open spec fn parsed(sql: Seq<char>) -> Option<Result<AstView, Seq<char>>> {
    match tokens(statement(sql)) {
        None => None,
        Some(ts) => Some(g_statement(ts)),
    }
}

// ---------------------------------------------------------------------------
// The parser
// ---------------------------------------------------------------------------

/// Tokens and a position in them.
pub struct P {
    pub t: Vec<Tok>,
    pub i: usize,
}

impl P {
    pub open spec fn wf(self) -> bool {
        self.i <= self.t@.len()
    }

    pub open spec fn rest(self) -> Seq<TokView> {
        tok_views(self.t@).skip(self.i as int)
    }
}

/// Whether a step of the parser did what the grammar says.
pub open spec fn parses<T, V>(
    before: P,
    after: P,
    r: Result<T, String>,
    val: spec_fn(T) -> V,
    want: Parsed<V>,
) -> bool {
    &&& after.wf()
    &&& match want {
        Ok((v, rest)) => (r matches Ok(x) && val(x) == v) && after.rest() == rest,
        Err(m) => r matches Err(e) && e@ == m,
    }
}

/// Items read so far, followed by what `sub` reads, are what `want` reads.
pub open spec fn chains<T>(
    want: Parsed<Seq<T>>,
    got: Seq<T>,
    sub: Parsed<Seq<T>>,
) -> bool {
    match sub {
        Err(m) => want == Err::<(Seq<T>, Seq<TokView>), Seq<char>>(m),
        Ok((more, rest)) => want == Ok::<(Seq<T>, Seq<TokView>), Seq<char>>((got + more, rest)),
    }
}

fn debug_of(t: &Tok) -> (r: String)
    ensures
        r@ == debug_token(t@),
{
    let (name, body): (&str, String) = match t {
        Tok::Ident(s) => ("Ident(", debug_str(s.as_str())),
        Tok::Num(n) => ("Num(", i64_text(*n)),
        Tok::Str(s) => ("Str(", debug_str(s.as_str())),
        Tok::Sym(c) => ("Sym(", debug_chr(*c)),
        Tok::Op(s) => ("Op(", debug_str(s.as_str())),
    };
    let head: String = join2(name, body.as_str());
    join2(head.as_str(), ")")
}

fn reserved(s: &str) -> (r: bool)
    ensures
        r == reserved_word(s@),
{
    eq_word(s, "FROM") || eq_word(s, "JOIN") || eq_word(s, "ON") || eq_word(s, "WHERE")
        || eq_word(s, "GROUP") || eq_word(s, "ORDER") || eq_word(s, "LIMIT") || eq_word(s, "AND")
        || eq_word(s, "BY") || eq_word(s, "DESC") || eq_word(s, "ASC") || eq_word(s, "AS")
        || eq_word(s, "SELECT") || eq_word(s, "INNER")
}

fn agg_named(s: &str) -> (r: Option<AggFn>)
    ensures
        r == agg_of(s@),
{
    let u: String = to_upper(s);
    let w: &str = u.as_str();
    if str_eq(w, "SUM") {
        Some(AggFn::Sum)
    } else if str_eq(w, "COUNT") {
        Some(AggFn::Count)
    } else if str_eq(w, "MIN") {
        Some(AggFn::Min)
    } else if str_eq(w, "MAX") {
        Some(AggFn::Max)
    } else if str_eq(w, "AVG") {
        Some(AggFn::Avg)
    } else {
        None
    }
}

pub open spec fn pair_name() -> spec_fn((String, String)) -> NameView {
    |p: (String, String)| NameView { qual: p.0@, col: p.1@ }
}

pub open spec fn pair_texts() -> spec_fn((String, String)) -> (Seq<char>, Seq<char>) {
    |p: (String, String)| (p.0@, p.1@)
}

pub open spec fn as_is<T>() -> spec_fn(T) -> T {
    |x: T| x
}

fn position_of(select: &Vec<SelectItem>, name: &str) -> (r: Option<usize>)
    ensures
        match item_position(item_views(select@), name@) {
            None => r is None,
            Some(i) => r is Some && r->0 == i && i < select@.len(),
        },
{
    let ghost items = item_views(select@);
    let mut k: usize = 0;
    assert(items.skip(0) =~= items);
    while k < select.len()
        invariant
            k <= select@.len(),
            items == item_views(select@),
            match item_position(items.skip(k as int), name@) {
                None => item_position(items, name@) is None,
                Some(i) => item_position(items, name@) == Some((i + k) as nat),
            },
        decreases select@.len() - k,
    {
        assert(items.skip(k as int)[0] == select@[k as int]@);
        assert(items.skip(k as int).skip(1) =~= items.skip(k + 1));
        let hit: bool = match &select[k] {
            SelectItem::Col(_, c) => str_eq(c.as_str(), name),
            SelectItem::Agg(_, _, c) => str_eq(c.as_str(), name),
        };
        if hit {
            return Some(k);
        }
        k += 1;
    }
    None
}

impl P {
    /// Moves past the token at the front.
    fn step(&mut self)
        requires
            old(self).i < old(self).t@.len(),
        ensures
            final(self).t == old(self).t,
            final(self).wf(),
            final(self).i == old(self).i + 1,
            final(self).rest() == old(self).rest().skip(1),
    {
        let n: usize = self.t.len();
        assert(self.i < n);
        self.i = self.i + 1;
        assert(self.rest() =~= old(self).rest().skip(1));
    }

    fn got(&self, prefix: &str) -> (r: String)
        requires
            self.wf(),
        ensures
            r@ == prefix@ + debug_first(self.rest()),
    {
        if self.i < self.t.len() {
            assert(self.rest()[0] == self.t@[self.i as int]@);
            let d: String = debug_of(&self.t[self.i]);
            let a: String = join2("Some(", d.as_str());
            let b: String = join2(a.as_str(), ")");
            join2(prefix, b.as_str())
        } else {
            join2(prefix, "None")
        }
    }

    fn at(&self, c: char) -> (r: bool)
        requires
            self.wf(),
        ensures
            r == at_sym(self.rest(), c),
            r ==> self.i < self.t@.len(),
    {
        if self.i < self.t.len() {
            assert(self.rest()[0] == self.t@[self.i as int]@);
            match &self.t[self.i] {
                Tok::Sym(s) => *s == c,
                _ => false,
            }
        } else {
            false
        }
    }

    /// Takes a keyword if it stands at the front.
    fn kw(&mut self, w: &str) -> (r: bool)
        requires
            old(self).wf(),
        ensures
            final(self).wf(),
            r == at_kw(old(self).rest(), w@),
            final(self).rest() == skip_kw(old(self).rest(), w@),
    {
        if self.i < self.t.len() {
            assert(self.rest()[0] == self.t@[self.i as int]@);
            let hit: bool = match &self.t[self.i] {
                Tok::Ident(s) => eq_word(s.as_str(), w),
                _ => false,
            };
            if hit {
                self.step();
            }
            hit
        } else {
            false
        }
    }

    fn ident(&mut self) -> (r: Result<String, String>)
        requires
            old(self).wf(),
        ensures
            parses(*old(self), *final(self), r, |s: String| s@, g_ident(old(self).rest())),
    {
        if self.i < self.t.len() {
            assert(self.rest()[0] == self.t@[self.i as int]@);
            let found: Option<String> = match &self.t[self.i] {
                Tok::Ident(s) => Some(s.clone()),
                _ => None,
            };
            if let Some(s) = found {
                self.step();
                return Ok(s);
            }
        }
        Err(self.got("expected identifier, got "))
    }

    fn sym(&mut self, c: char) -> (r: Result<(), String>)
        requires
            old(self).wf(),
        ensures
            parses(*old(self), *final(self), r, as_is(), g_sym(old(self).rest(), c)),
    {
        if self.at(c) {
            self.step();
            Ok(())
        } else {
            let mut p: String = "expected '".to_owned();
            p.push(c);
            p.append("', got ");
            Err(self.got(p.as_str()))
        }
    }

    fn qual(&mut self) -> (r: Result<(String, String), String>)
        requires
            old(self).wf(),
        ensures
            parses(*old(self), *final(self), r, pair_name(), g_qual(old(self).rest())),
    {
        let a: String = match self.ident() {
            Ok(a) => a,
            Err(e) => return Err(e),
        };
        if self.at('.') {
            self.step();
            let b: String = match self.ident() {
                Ok(b) => b,
                Err(e) => return Err(e),
            };
            Ok((a, b))
        } else {
            Ok((String::new(), a))
        }
    }

    fn agg(&self) -> (r: Option<AggFn>)
        requires
            self.wf(),
        ensures
            r == at_agg(self.rest()),
            r is Some ==> self.i < self.t@.len(),
    {
        if self.i < self.t.len() {
            assert(self.rest()[0] == self.t@[self.i as int]@);
            match &self.t[self.i] {
                Tok::Ident(s) => agg_named(s.as_str()),
                _ => None,
            }
        } else {
            None
        }
    }

    fn item(&mut self) -> (r: Result<SelectItem, String>)
        requires
            old(self).wf(),
        ensures
            parses(*old(self), *final(self), r, |x: SelectItem| x@, g_item(old(self).rest())),
    {
        match self.agg() {
            Some(f) => {
                self.step();
                match self.sym('(') {
                    Ok(_) => {},
                    Err(e) => return Err(e),
                }
                let (q, c): (String, String) = match self.qual() {
                    Ok(n) => n,
                    Err(e) => return Err(e),
                };
                match self.sym(')') {
                    Ok(_) => {},
                    Err(e) => return Err(e),
                }
                Ok(SelectItem::Agg(f, q, c))
            },
            None => {
                let (q, c): (String, String) = match self.qual() {
                    Ok(n) => n,
                    Err(e) => return Err(e),
                };
                Ok(SelectItem::Col(q, c))
            },
        }
    }

    fn items(&mut self) -> (r: Result<Vec<SelectItem>, String>)
        requires
            old(self).wf(),
        ensures
            parses(
                *old(self),
                *final(self),
                r,
                |v: Vec<SelectItem>| item_views(v@),
                g_items(old(self).rest()),
            ),
    {
        let ghost want = g_items(self.rest());
        let mut out: Vec<SelectItem> = Vec::new();
        proof {
            if let Ok((more, rest)) = want {
                assert(item_views(out@) + more =~= more);
            }
        }
        loop
            invariant
                self.wf(),
                want == g_items(old(self).rest()),
                chains(want, item_views(out@), g_items(self.rest())),
            decreases self.rest().len(),
        {
            let ghost before = item_views(out@);
            let it: SelectItem = match self.item() {
                Ok(x) => x,
                Err(e) => return Err(e),
            };
            out.push(it);
            assert(item_views(out@) =~= before.push(it@));
            assert(before + seq![it@] =~= before.push(it@));
            if self.at(',') {
                let ghost more = g_items(self.rest().skip(1));
                self.step();
                proof {
                    if let Ok((m, rest)) = more {
                        assert(before + (seq![it@] + m) =~= before.push(it@) + m);
                    }
                }
            } else {
                return Ok(out);
            }
        }
    }

    fn names(&mut self) -> (r: Result<Vec<(String, String)>, String>)
        requires
            old(self).wf(),
        ensures
            parses(
                *old(self),
                *final(self),
                r,
                |v: Vec<(String, String)>| name_views(v@),
                g_names(old(self).rest()),
            ),
    {
        let ghost want = g_names(self.rest());
        let mut out: Vec<(String, String)> = Vec::new();
        proof {
            if let Ok((more, rest)) = want {
                assert(name_views(out@) + more =~= more);
            }
        }
        loop
            invariant
                self.wf(),
                want == g_names(old(self).rest()),
                chains(want, name_views(out@), g_names(self.rest())),
            decreases self.rest().len(),
        {
            let ghost before = name_views(out@);
            let it: (String, String) = match self.qual() {
                Ok(x) => x,
                Err(e) => return Err(e),
            };
            let ghost n = NameView { qual: it.0@, col: it.1@ };
            out.push(it);
            assert(name_views(out@) =~= before.push(n));
            assert(before + seq![n] =~= before.push(n));
            if self.at(',') {
                let ghost more = g_names(self.rest().skip(1));
                self.step();
                proof {
                    if let Ok((m, rest)) = more {
                        assert(before + (seq![n] + m) =~= before.push(n) + m);
                    }
                }
            } else {
                return Ok(out);
            }
        }
    }

    fn table(&mut self) -> (r: Result<(String, String), String>)
        requires
            old(self).wf(),
        ensures
            parses(*old(self), *final(self), r, pair_texts(), g_table(old(self).rest())),
    {
        let t: String = match self.ident() {
            Ok(t) => t,
            Err(e) => return Err(e),
        };
        if self.i < self.t.len() {
            assert(self.rest()[0] == self.t@[self.i as int]@);
            let found: Option<String> = match &self.t[self.i] {
                Tok::Ident(s) => if reserved(s.as_str()) {
                    None
                } else {
                    Some(s.clone())
                },
                _ => None,
            };
            if let Some(a) = found {
                self.step();
                return Ok((t, a));
            }
        }
        let a: String = t.clone();
        Ok((t, a))
    }

    fn join(&mut self) -> (r: Result<AstJoin, String>)
        requires
            old(self).wf(),
        ensures
            parses(*old(self), *final(self), r, |x: AstJoin| x@, g_join(old(self).rest())),
    {
        let (table, alias): (String, String) = match self.table() {
            Ok(x) => x,
            Err(e) => return Err(e),
        };
        if !self.kw("ON") {
            return Err("expected ON".to_owned());
        }
        let (lqual, lcol): (String, String) = match self.qual() {
            Ok(x) => x,
            Err(e) => return Err(e),
        };
        let eq: bool = if self.i < self.t.len() {
            assert(self.rest()[0] == self.t@[self.i as int]@);
            match &self.t[self.i] {
                Tok::Op(o) => str_eq(o.as_str(), "="),
                _ => false,
            }
        } else {
            false
        };
        if !eq {
            return Err(self.got("expected '=' in join, got "));
        }
        self.step();
        let (rqual, rcol): (String, String) = match self.qual() {
            Ok(x) => x,
            Err(e) => return Err(e),
        };
        Ok(AstJoin { table, alias, lqual, lcol, rqual, rcol })
    }

    fn joins(&mut self) -> (r: Result<Vec<AstJoin>, String>)
        requires
            old(self).wf(),
        ensures
            parses(
                *old(self),
                *final(self),
                r,
                |v: Vec<AstJoin>| join_views(v@),
                g_joins(old(self).rest()),
            ),
    {
        let ghost want = g_joins(self.rest());
        let mut out: Vec<AstJoin> = Vec::new();
        proof {
            if let Ok((more, rest)) = want {
                assert(join_views(out@) + more =~= more);
            }
        }
        loop
            invariant
                self.wf(),
                want == g_joins(old(self).rest()),
                chains(want, join_views(out@), g_joins(self.rest())),
            decreases self.rest().len(),
        {
            let ghost before = join_views(out@);
            let _ = self.kw("INNER");
            if !self.kw("JOIN") {
                assert(before + Seq::<JoinView>::empty() =~= before);
                return Ok(out);
            }
            let j: AstJoin = match self.join() {
                Ok(x) => x,
                Err(e) => return Err(e),
            };
            out.push(j);
            proof {
                assert(join_views(out@) =~= before.push(j@));
                if let Ok((m, rest)) = g_joins(self.rest()) {
                    assert(before + (seq![j@] + m) =~= before.push(j@) + m);
                }
            }
        }
    }

    fn op(&mut self) -> (r: Result<CmpOp, String>)
        requires
            old(self).wf(),
        ensures
            parses(*old(self), *final(self), r, as_is(), g_op(old(self).rest())),
    {
        if self.i < self.t.len() {
            assert(self.rest()[0] == self.t@[self.i as int]@);
            let found: Option<String> = match &self.t[self.i] {
                Tok::Op(s) => Some(s.clone()),
                _ => None,
            };
            if let Some(s) = found {
                let o: &str = s.as_str();
                let op: CmpOp = if str_eq(o, ">") {
                    CmpOp::Gt
                } else if str_eq(o, "<") {
                    CmpOp::Lt
                } else if str_eq(o, ">=") {
                    CmpOp::Ge
                } else if str_eq(o, "<=") {
                    CmpOp::Le
                } else if str_eq(o, "=") || str_eq(o, "==") {
                    CmpOp::Eq
                } else {
                    return Err(join2("bad op ", o));
                };
                self.step();
                return Ok(op);
            }
        }
        Err(self.got("expected op, got "))
    }

    fn lit(&mut self) -> (r: Result<Literal, String>)
        requires
            old(self).wf(),
        ensures
            parses(*old(self), *final(self), r, |l: Literal| l@, g_lit(old(self).rest())),
    {
        if self.i < self.t.len() {
            assert(self.rest()[0] == self.t@[self.i as int]@);
            let found: Option<Literal> = match &self.t[self.i] {
                Tok::Num(n) => Some(Literal::Int(*n)),
                Tok::Str(s) => Some(Literal::Str(s.clone())),
                _ => None,
            };
            if let Some(l) = found {
                self.step();
                return Ok(l);
            }
        }
        Err(self.got("expected literal, got "))
    }

    fn pred(&mut self) -> (r: Result<AstPred, String>)
        requires
            old(self).wf(),
        ensures
            parses(*old(self), *final(self), r, |x: AstPred| x@, g_pred(old(self).rest())),
    {
        let (qual, col): (String, String) = match self.qual() {
            Ok(x) => x,
            Err(e) => return Err(e),
        };
        let op: CmpOp = match self.op() {
            Ok(x) => x,
            Err(e) => return Err(e),
        };
        let lit: Literal = match self.lit() {
            Ok(x) => x,
            Err(e) => return Err(e),
        };
        Ok(AstPred { qual, col, op, lit })
    }

    fn preds(&mut self) -> (r: Result<Vec<AstPred>, String>)
        requires
            old(self).wf(),
        ensures
            parses(
                *old(self),
                *final(self),
                r,
                |v: Vec<AstPred>| pred_views(v@),
                g_preds(old(self).rest()),
            ),
    {
        let ghost want = g_preds(self.rest());
        let mut out: Vec<AstPred> = Vec::new();
        proof {
            if let Ok((more, rest)) = want {
                assert(pred_views(out@) + more =~= more);
            }
        }
        loop
            invariant
                self.wf(),
                want == g_preds(old(self).rest()),
                chains(want, pred_views(out@), g_preds(self.rest())),
            decreases self.rest().len(),
        {
            let ghost before = pred_views(out@);
            let p: AstPred = match self.pred() {
                Ok(x) => x,
                Err(e) => return Err(e),
            };
            let ghost after = self.rest();
            out.push(p);
            assert(pred_views(out@) =~= before.push(p@));
            assert(before + seq![p@] =~= before.push(p@));
            if self.kw("AND") {
                proof {
                    if let Ok((m, rest)) = g_preds(after.skip(1)) {
                        assert(before + (seq![p@] + m) =~= before.push(p@) + m);
                    }
                }
            } else {
                return Ok(out);
            }
        }
    }

    fn order(&mut self, select: &Vec<SelectItem>) -> (r: Result<Option<(usize, bool)>, String>)
        requires
            old(self).wf(),
        ensures
            parses(
                *old(self),
                *final(self),
                r,
                as_is(),
                g_order(old(self).rest(), item_views(select@)),
            ),
    {
        let ghost start = self.rest();
        if !self.kw("ORDER") {
            return Ok(None);
        }
        if !self.kw("BY") {
            return Err("expected BY".to_owned());
        }
        assert(start.skip(1).skip(1) =~= start.skip(2));
        let mut pos: Option<usize> = None;
        if self.i < self.t.len() {
            assert(self.rest()[0] == self.t@[self.i as int]@);
            match &self.t[self.i] {
                Tok::Num(n) => {
                    let n: usize = #[verifier::truncate] (*n as usize);
                    pos = Some(n.saturating_sub(1));
                },
                Tok::Ident(name) => match position_of(select, name.as_str()) {
                    Some(i) => {
                        pos = Some(i);
                    },
                    None => {
                        let a: String = join2("ORDER BY column ", name.as_str());
                        return Err(join2(a.as_str(), " not in select list"));
                    },
                },
                _ => {},
            }
        }
        match pos {
            None => Err(self.got("bad ORDER BY ")),
            Some(i) => {
                self.step();
                if self.kw("DESC") {
                    Ok(Some((i, true)))
                } else {
                    let _ = self.kw("ASC");
                    Ok(Some((i, false)))
                }
            },
        }
    }

    fn limit(&mut self) -> (r: Result<Option<usize>, String>)
        requires
            old(self).wf(),
        ensures
            parses(*old(self), *final(self), r, as_is(), g_limit(old(self).rest())),
    {
        let ghost start = self.rest();
        if !self.kw("LIMIT") {
            return Ok(None);
        }
        let mut n: Option<usize> = None;
        if self.i < self.t.len() {
            assert(self.rest()[0] == self.t@[self.i as int]@);
            assert(start.skip(1)[0] == start[1]);
            if let Tok::Num(v) = &self.t[self.i] {
                n = Some(#[verifier::truncate] (*v as usize));
            }
        }
        match n {
            Some(v) => {
                self.step();
                assert(start.skip(1).skip(1) =~= start.skip(2));
                Ok(Some(v))
            },
            None => Err(self.got("bad LIMIT ")),
        }
    }
}

fn parse_tokens(t: Vec<Tok>) -> (r: Result<Ast, String>)
    ensures
        match g_statement(tok_views(t@)) {
            Ok(a) => r matches Ok(x) && x@ == a,
            Err(m) => r matches Err(e) && e@ == m,
        },
{
    let mut p: P = P { t, i: 0 };
    assert(p.rest() =~= tok_views(t@));
    if !p.kw("SELECT") {
        return Err("expected SELECT".to_owned());
    }
    let select: Vec<SelectItem> = match p.items() {
        Ok(x) => x,
        Err(e) => return Err(e),
    };
    if !p.kw("FROM") {
        return Err("expected FROM".to_owned());
    }
    let (table, alias): (String, String) = match p.table() {
        Ok(x) => x,
        Err(e) => return Err(e),
    };
    let joins: Vec<AstJoin> = match p.joins() {
        Ok(x) => x,
        Err(e) => return Err(e),
    };
    let preds: Vec<AstPred> = if p.kw("WHERE") {
        match p.preds() {
            Ok(x) => x,
            Err(e) => return Err(e),
        }
    } else {
        Vec::new()
    };
    let ghost after_where = p.rest();
    let group_by: Vec<(String, String)> = if p.kw("GROUP") {
        if !p.kw("BY") {
            return Err("expected BY".to_owned());
        }
        assert(after_where.skip(1).skip(1) =~= after_where.skip(2));
        match p.names() {
            Ok(x) => x,
            Err(e) => return Err(e),
        }
    } else {
        Vec::new()
    };
    proof {
        assert(Seq::<PredView>::empty() =~= pred_views(Seq::<AstPred>::empty()));
        assert(Seq::<NameView>::empty() =~= name_views(Seq::<(String, String)>::empty()));
    }
    let order_by: Option<(usize, bool)> = match p.order(&select) {
        Ok(x) => x,
        Err(e) => return Err(e),
    };
    let limit: Option<usize> = match p.limit() {
        Ok(x) => x,
        Err(e) => return Err(e),
    };
    Ok(Ast { select, table, alias, joins, preds, group_by, order_by, limit })
}

/// Parses a statement, or returns nothing where it holds a number that does
/// not fit 64 bits.
pub fn parse_checked(sql: &str) -> (r: Option<Result<Ast, String>>)
    ensures
        match parsed(sql@) {
            None => r is None,
            Some(Ok(a)) => r matches Some(Ok(x)) && x@ == a,
            Some(Err(m)) => r matches Some(Err(e)) && e@ == m,
        },
{
    let chars: Vec<char> = statement_chars(sql);
    match lex(chars.as_slice()) {
        None => None,
        Some(_) => Some(parse(sql)),
    }
}

/// Parses a statement whose numbers fit 64 bits.
pub fn parse(sql: &str) -> (r: Result<Ast, String>)
    requires
        parsed(sql@) is Some,
    ensures
        match parsed(sql@) {
            Some(Ok(a)) => r matches Ok(x) && x@ == a,
            Some(Err(m)) => r matches Err(e) && e@ == m,
            None => false,
        },
{
    let chars: Vec<char> = statement_chars(sql);
    match lex(chars.as_slice()) {
        Some(t) => parse_tokens(t),
        None => Err(String::new()),
    }
}

} // verus!
