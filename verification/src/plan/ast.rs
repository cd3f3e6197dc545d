//! Statements: tokens, the grammar and the parser.
use crate::chars::{char_alphabetic, char_numeric, char_space, span, span_bound, span_is};
use crate::format::meta::{CmpOp, LitView, Literal};
use crate::text::{from_chars, is_digit, parse_i64, parsed_i64};
use vstd::prelude::*;

verus! {

#[derive(Clone, Copy, Debug, PartialEq, Eq, Structural)]
pub enum AggFn {
    Sum,
    Count,
    Min,
    Max,
    Avg,
}

/// A column with its qualifier, which may be empty, or an aggregate of one.
/// The column `*` stands for all rows.
#[derive(Clone, Debug)]
pub enum SelectItem {
    Col(String, String),
    Agg(AggFn, String, String),
}

#[derive(Clone, Debug)]
pub struct AstPred {
    pub qual: String,
    pub col: String,
    pub op: CmpOp,
    pub lit: Literal,
}

#[derive(Clone, Debug)]
pub struct AstJoin {
    pub table: String,
    pub alias: String,
    pub lqual: String,
    pub lcol: String,
    pub rqual: String,
    pub rcol: String,
}

#[derive(Clone, Debug)]
pub struct Ast {
    pub select: Vec<SelectItem>,
    pub table: String,
    pub alias: String,
    pub joins: Vec<AstJoin>,
    pub preds: Vec<AstPred>,
    pub group_by: Vec<(String, String)>,
    /// The select position to order by, and whether descending.
    pub order_by: Option<(usize, bool)>,
    pub limit: Option<usize>,
}

// ---------------------------------------------------------------------------
// Views
// ---------------------------------------------------------------------------

#[verifier::ext_equal]
pub struct NameView {
    pub qual: Seq<char>,
    pub col: Seq<char>,
}

pub enum ItemView {
    Col(NameView),
    Agg(AggFn, NameView),
}

impl View for SelectItem {
    type V = ItemView;

    open spec fn view(&self) -> ItemView {
        match self {
            SelectItem::Col(q, c) => ItemView::Col(NameView { qual: q@, col: c@ }),
            SelectItem::Agg(f, q, c) => ItemView::Agg(*f, NameView { qual: q@, col: c@ }),
        }
    }
}

#[verifier::ext_equal]
pub struct PredView {
    pub name: NameView,
    pub op: CmpOp,
    pub lit: LitView,
}

impl View for AstPred {
    type V = PredView;

    open spec fn view(&self) -> PredView {
        PredView {
            name: NameView { qual: self.qual@, col: self.col@ },
            op: self.op,
            lit: self.lit@,
        }
    }
}

#[verifier::ext_equal]
pub struct JoinView {
    pub table: Seq<char>,
    pub alias: Seq<char>,
    pub left: NameView,
    pub right: NameView,
}

impl View for AstJoin {
    type V = JoinView;

    open spec fn view(&self) -> JoinView {
        JoinView {
            table: self.table@,
            alias: self.alias@,
            left: NameView { qual: self.lqual@, col: self.lcol@ },
            right: NameView { qual: self.rqual@, col: self.rcol@ },
        }
    }
}

#[verifier::ext_equal]
pub struct AstView {
    pub select: Seq<ItemView>,
    pub table: Seq<char>,
    pub alias: Seq<char>,
    pub joins: Seq<JoinView>,
    pub preds: Seq<PredView>,
    pub group_by: Seq<NameView>,
    pub order_by: Option<(usize, bool)>,
    pub limit: Option<usize>,
}

pub open spec fn item_views(v: Seq<SelectItem>) -> Seq<ItemView> {
    Seq::new(v.len(), |i: int| v[i]@)
}

pub open spec fn join_views(v: Seq<AstJoin>) -> Seq<JoinView> {
    Seq::new(v.len(), |i: int| v[i]@)
}

pub open spec fn pred_views(v: Seq<AstPred>) -> Seq<PredView> {
    Seq::new(v.len(), |i: int| v[i]@)
}

pub open spec fn name_views(v: Seq<(String, String)>) -> Seq<NameView> {
    Seq::new(v.len(), |i: int| NameView { qual: v[i].0@, col: v[i].1@ })
}

impl View for Ast {
    type V = AstView;

    open spec fn view(&self) -> AstView {
        AstView {
            select: item_views(self.select@),
            table: self.table@,
            alias: self.alias@,
            joins: join_views(self.joins@),
            preds: pred_views(self.preds@),
            group_by: name_views(self.group_by@),
            order_by: self.order_by,
            limit: self.limit,
        }
    }
}

// ---------------------------------------------------------------------------
// Tokens
// ---------------------------------------------------------------------------

#[derive(Debug)]
pub enum Tok {
    Ident(String),
    Num(i64),
    Str(String),
    Sym(char),
    Op(String),
}

pub enum TokView {
    Ident(Seq<char>),
    Num(i64),
    Str(Seq<char>),
    Sym(char),
    Op(Seq<char>),
}

impl View for Tok {
    type V = TokView;

    open spec fn view(&self) -> TokView {
        match self {
            Tok::Ident(s) => TokView::Ident(s@),
            Tok::Num(n) => TokView::Num(*n),
            Tok::Str(s) => TokView::Str(s@),
            Tok::Sym(c) => TokView::Sym(*c),
            Tok::Op(s) => TokView::Op(s@),
        }
    }
}

pub open spec fn tok_views(v: Seq<Tok>) -> Seq<TokView> {
    Seq::new(v.len(), |i: int| v[i]@)
}

pub open spec fn not_quote() -> spec_fn(char) -> bool {
    |c: char| c != '\''
}

pub open spec fn decimal() -> spec_fn(char) -> bool {
    |c: char| is_digit(c)
}

pub open spec fn word_char() -> spec_fn(char) -> bool {
    |c: char| char_alphabetic(c) || char_numeric(c) || c == '_' || c == '*'
}

/// The first token of `s`, which does not start with White_Space, and what
/// follows it. Nothing where a number does not fit 64 bits.
pub open spec fn first_token(s: Seq<char>) -> Option<(TokView, Seq<char>)> {
    let c = s[0];
    if c == '\'' {
        let n = span(s.skip(1), not_quote()) as int;
        let end = if n + 2 <= s.len() { n + 2 } else { s.len() as int };
        Some((TokView::Str(s.subrange(1, 1 + n)), s.skip(end)))
    } else if is_digit(c) || (c == '-' && s.len() > 1 && is_digit(s[1])) {
        let n = 1 + span(s.skip(1), decimal()) as int;
        match parsed_i64(s.take(n)) {
            Some(v) => Some((TokView::Num(v), s.skip(n))),
            None => None,
        }
    } else if char_alphabetic(c) || c == '_' || c == '*' {
        let n = span(s, word_char()) as int;
        Some((TokView::Ident(s.take(n)), s.skip(n)))
    } else if c == '>' || c == '<' || c == '=' || c == '!' {
        let n = if s.len() > 1 && s[1] == '=' { 2int } else { 1 };
        Some((TokView::Op(s.take(n)), s.skip(n)))
    } else {
        Some((TokView::Sym(c), s.skip(1)))
    }
}

proof fn first_token_shrinks(s: Seq<char>)
    requires
        s.len() > 0,
    ensures
        first_token(s) matches Some((_, rest)) ==> rest.len() < s.len(),
{
    span_bound(s.skip(1), not_quote());
    span_bound(s.skip(1), decimal());
    span_bound(s, word_char());
}

/// The tokens of a statement.
pub open spec fn tokens(s: Seq<char>) -> Option<Seq<TokView>>
    decreases s.len(),
    via tokens_shrink
{
    if s.len() == 0 {
        Some(Seq::empty())
    } else if char_space(s[0]) {
        tokens(s.skip(1))
    } else {
        match first_token(s) {
            None => None,
            Some((t, rest)) => match tokens(rest) {
                None => None,
                Some(ts) => Some(seq![t] + ts),
            },
        }
    }
}

#[via_fn]
proof fn tokens_shrink(s: Seq<char>) {
    if s.len() > 0 {
        first_token_shrinks(s);
    }
}

/// Where the leading stretch of characters that pass ends.
fn span_end(v: &[char], from: usize, kind: u8, Ghost(f): Ghost<spec_fn(char) -> bool>) -> (end:
    usize)
    requires
        from <= v@.len(),
        kind == 0 ==> f == not_quote(),
        kind == 1 ==> f == decimal(),
        kind > 1 ==> f == word_char(),
    ensures
        from <= end <= v@.len(),
        end - from == span(v@.skip(from as int), f),
{
    let ghost s = v@.skip(from as int);
    let mut i: usize = from;
    while i < v.len()
        invariant
            from <= i <= v@.len(),
            s == v@.skip(from as int),
            kind == 0 ==> f == not_quote(),
            kind == 1 ==> f == decimal(),
            kind > 1 ==> f == word_char(),
            forall|j: int| 0 <= j < i - from ==> f(#[trigger] s[j]),
        decreases v@.len() - i,
    {
        let c: char = v[i];
        let pass: bool = if kind == 0 {
            c != '\''
        } else if kind == 1 {
            c >= '0' && c <= '9'
        } else {
            c.is_alphanumeric() || c == '_' || c == '*'
        };
        assert(s[i - from] == c);
        assert(pass == f(c));
        if !pass {
            proof {
                span_is(s, f, i - from);
            }
            return i;
        }
        i += 1;
    }
    proof {
        span_is(s, f, i - from);
    }
    i
}

/// Reads the token at `i`, where no White_Space stands.
fn next_token(b: &[char], i: usize) -> (r: Option<(Tok, usize)>)
    requires
        i < b@.len(),
    ensures
        match first_token(b@.skip(i as int)) {
            None => r is None,
            Some((t, rest)) => r matches Some((tok, j)) && tok@ == t && i < j <= b@.len()
                && b@.skip(j as int) == rest,
        },
{
    let ghost s = b@.skip(i as int);
    let n: usize = b.len();
    let c: char = b[i];
    proof {
        assert(s[0] == c);
        first_token_shrinks(s);
        assert(s.skip(1) =~= b@.skip(i + 1));
    }
    if c == '\'' {
        let end: usize = span_end(b, i + 1, 0, Ghost(not_quote()));
        let text: String = from_chars(b, i + 1, end);
        assert(s.subrange(1, end - i) =~= text@);
        let j: usize = if end < n {
            end + 1
        } else {
            end
        };
        assert(s.skip(j - i) =~= b@.skip(j as int));
        Some((Tok::Str(text), j))
    } else if (c >= '0' && c <= '9') || (c == '-' && n - i > 1 && b[i + 1] >= '0' && b[i + 1]
        <= '9') {
        let end: usize = span_end(b, i + 1, 1, Ghost(decimal()));
        let text: String = from_chars(b, i, end);
        assert(s.take(end - i) =~= text@);
        assert(s.skip(end - i) =~= b@.skip(end as int));
        match parse_i64(text.as_str()) {
            Some(v) => Some((Tok::Num(v), end)),
            None => None,
        }
    } else if c.is_alphabetic() || c == '_' || c == '*' {
        let end: usize = span_end(b, i, 2, Ghost(word_char()));
        let text: String = from_chars(b, i, end);
        assert(s.take(end - i) =~= text@);
        assert(s.skip(end - i) =~= b@.skip(end as int));
        Some((Tok::Ident(text), end))
    } else if c == '>' || c == '<' || c == '=' || c == '!' {
        let end: usize = if n - i > 1 && b[i + 1] == '=' {
            i + 2
        } else {
            i + 1
        };
        let text: String = from_chars(b, i, end);
        assert(s.take(end - i) =~= text@);
        assert(s.skip(end - i) =~= b@.skip(end as int));
        Some((Tok::Op(text), end))
    } else {
        Some((Tok::Sym(c), i + 1))
    }
}

/// Splits a statement into tokens, or returns nothing where a number does not
/// fit 64 bits.
pub fn lex(b: &[char]) -> (r: Option<Vec<Tok>>)
    ensures
        match tokens(b@) {
            None => r is None,
            Some(ts) => r is Some && tok_views(r->0@) == ts,
        },
{
    let ghost want = tokens(b@);
    let mut out: Vec<Tok> = Vec::new();
    let mut i: usize = 0;
    proof {
        assert(b@.skip(0) =~= b@);
        if let Some(ts) = want {
            assert(tok_views(out@) + ts =~= ts);
        }
    }
    while i < b.len()
        invariant
            i <= b@.len(),
            want == tokens(b@),
            match tokens(b@.skip(i as int)) {
                None => want is None,
                Some(ts) => want == Some(tok_views(out@) + ts),
            },
        decreases b@.len() - i,
    {
        let ghost s = b@.skip(i as int);
        let ghost before = out@;
        let c: char = b[i];
        assert(s[0] == c);
        if c.is_whitespace() {
            assert(s.skip(1) =~= b@.skip(i + 1));
            i += 1;
        } else {
            match next_token(b, i) {
                None => {
                    return None;
                },
                Some((t, j)) => {
                    i = j;
                    out.push(t);
                    proof {
                        assert(tok_views(out@) =~= tok_views(before).push(t@));
                        if let Some(ts) = tokens(b@.skip(i as int)) {
                            assert(tok_views(before) + (seq![t@] + ts) =~= tok_views(out@) + ts);
                        }
                    }
                },
            }
        }
    }
    assert(tok_views(out@) + Seq::<TokView>::empty() =~= tok_views(out@));
    Some(out)
}

} // verus!
