//! A small SQL front end: one aggregate over one table, optionally filtered,
//! grouped, ordered and limited.
use crate::chars::{char_space, debug_str, debug_text, span, span_bound, span_is, statement, statement_chars, to_upper, upper};
use crate::kernel::CmpOp;
use crate::text::{dec, from_chars, join2, parse_i64, parse_unsigned, parsed_i64, parsed_unsigned, str_eq, strs, strs_push, to_chars, u64_text};
use vstd::prelude::*;

verus! {

#[derive(Clone, Copy, Debug, PartialEq, Eq, Structural)]
pub enum AggFn {
    Sum,
    Count,
    Min,
    Max,
    Avg,
}

impl AggFn {
    pub open spec fn byte(self) -> u8 {
        match self {
            AggFn::Sum => 0,
            AggFn::Count => 1,
            AggFn::Min => 2,
            AggFn::Max => 3,
            AggFn::Avg => 4,
        }
    }

    /// The function a byte stands for; the mean for all that are not given.
    pub open spec fn of_byte(b: u8) -> AggFn {
        if b == 0 {
            AggFn::Sum
        } else if b == 1 {
            AggFn::Count
        } else if b == 2 {
            AggFn::Min
        } else if b == 3 {
            AggFn::Max
        } else {
            AggFn::Avg
        }
    }

    pub fn to_u8(self) -> (b: u8)
        ensures
            b == self.byte(),
    {
        match self {
            AggFn::Sum => 0,
            AggFn::Count => 1,
            AggFn::Min => 2,
            AggFn::Max => 3,
            AggFn::Avg => 4,
        }
    }

    pub fn from_u8(b: u8) -> (r: AggFn)
        ensures
            r == AggFn::of_byte(b),
    {
        match b {
            0 => AggFn::Sum,
            1 => AggFn::Count,
            2 => AggFn::Min,
            3 => AggFn::Max,
            _ => AggFn::Avg,
        }
    }
}

/// A function is read back from its byte.
pub proof fn agg_read_back(f: AggFn)
    ensures
        AggFn::of_byte(f.byte()) == f,
{
}

/// Where rows come from: a table, a subquery and its alias, or a common table
/// expression.
#[derive(Debug)]
pub enum TableSource {
    Table(String),
    Subquery(Box<Query>, String),
    CTE(String),
}

#[derive(Debug)]
pub struct Query {
    pub agg: AggFn,
    pub agg_col: usize,
    pub table: TableSource,
    pub filter: Option<(usize, CmpOp, i64)>,
    pub group_by: Option<usize>,
    pub ctes: Vec<(String, Box<Query>)>,
    /// The column to order by, and whether upwards.
    pub order_by: Option<(usize, bool)>,
    pub limit: Option<usize>,
}

#[verifier::ext_equal]
pub enum SourceView {
    Table(Seq<char>),
    Subquery(Box<QueryView>, Seq<char>),
    CTE(Seq<char>),
}

#[verifier::ext_equal]
pub struct QueryView {
    pub agg: AggFn,
    pub agg_col: usize,
    pub table: SourceView,
    pub filter: Option<(usize, CmpOp, i64)>,
    pub group_by: Option<usize>,
    pub ctes: Seq<(Seq<char>, QueryView)>,
    pub order_by: Option<(usize, bool)>,
    pub limit: Option<usize>,
}

impl Query {
    pub open spec fn model(self) -> QueryView
        decreases self,
    {
        QueryView {
            agg: self.agg,
            agg_col: self.agg_col,
            table: match self.table {
                TableSource::Table(s) => SourceView::Table(s@),
                TableSource::Subquery(q, s) => SourceView::Subquery(Box::new(q.model()), s@),
                TableSource::CTE(s) => SourceView::CTE(s@),
            },
            filter: self.filter,
            group_by: self.group_by,
            ctes: Seq::new(
                self.ctes@.len(),
                |i: int|
                    if 0 <= i < self.ctes@.len() {
                        (self.ctes@[i].0@, self.ctes@[i].1.model())
                    } else {
                        arbitrary()
                    },
            ),
            order_by: self.order_by,
            limit: self.limit,
        }
    }
}

impl Query {
    /// A copy of the query and of all that is nested in it.
    pub fn copy(&self) -> (r: Query)
        ensures
            r.model() == self.model(),
        decreases self,
    {
        let table: TableSource = match &self.table {
            TableSource::Table(s) => TableSource::Table(s.clone()),
            TableSource::Subquery(q, s) => TableSource::Subquery(Box::new(q.copy()), s.clone()),
            TableSource::CTE(s) => TableSource::CTE(s.clone()),
        };
        let mut ctes: Vec<(String, Box<Query>)> = Vec::new();
        let mut k: usize = 0;
        while k < self.ctes.len()
            invariant
                k <= self.ctes@.len(),
                ctes@.len() == k,
                forall|j: int|
                    #![trigger ctes@[j]]
                    0 <= j < k ==> ctes@[j].0@ == self.ctes@[j].0@ && ctes@[j].1.model()
                        == self.ctes@[j].1.model(),
            decreases self.ctes@.len() - k,
        {
            assert(decreases_to!(self => self.ctes@[k as int].1));
            let q: Query = self.ctes[k].1.copy();
            ctes.push((self.ctes[k].0.clone(), Box::new(q)));
            k += 1;
        }
        let r: Query = Query {
            agg: self.agg,
            agg_col: self.agg_col,
            table,
            filter: self.filter,
            group_by: self.group_by,
            ctes,
            order_by: self.order_by,
            limit: self.limit,
        };
        assert(r.model().ctes =~= self.model().ctes);
        r
    }
}

pub open spec fn source_model(s: TableSource) -> SourceView {
    match s {
        TableSource::Table(s) => SourceView::Table(s@),
        TableSource::Subquery(q, s) => SourceView::Subquery(Box::new(q.model()), s@),
        TableSource::CTE(s) => SourceView::CTE(s@),
    }
}

pub open spec fn ctes_model(c: Seq<(String, Box<Query>)>) -> Seq<(Seq<char>, QueryView)> {
    Seq::new(c.len(), |i: int| (c[i].0@, c[i].1.model()))
}

// ---------------------------------------------------------------------------
// Tokens
// ---------------------------------------------------------------------------

/// What parts words.
pub open spec fn parts(c: char) -> bool {
    char_space(c) || is_bracket(c)
}

/// What is a word of its own.
pub open spec fn is_bracket(c: char) -> bool {
    c == '(' || c == ')' || c == ','
}

/// The words of a text: each bracket and comma, and what stands between these
/// and the white space.
pub open spec fn words(s: Seq<char>) -> Seq<Seq<char>>
    decreases s.len(),
{
    if s.len() == 0 {
        Seq::empty()
    } else if is_bracket(s[0]) {
        seq![s.take(1)] + words(s.skip(1))
    } else if char_space(s[0]) {
        words(s.skip(1))
    } else {
        let n = span(s, |c: char| !parts(c)) as int;
        proof {
            span_bound(s, |c: char| !parts(c));
        }
        seq![s.take(n)] + words(s.skip(n))
    }
}

fn bracket(c: char) -> (r: bool)
    ensures
        r == is_bracket(c),
{
    c == '(' || c == ')' || c == ','
}

fn part(c: char) -> (r: bool)
    ensures
        r == parts(c),
{
    c.is_whitespace() || bracket(c)
}

/// Splits a text into its words.
pub fn split_words(text: &str) -> (out: Vec<String>)
    ensures
        strs(out@) == words(text@),
{
    let v: Vec<char> = to_chars(text);
    let n: usize = v.len();
    let mut out: Vec<String> = Vec::new();
    let mut k: usize = 0;
    assert(v@.skip(0) =~= v@);
    assert(strs(out@) + words(v@) =~= words(v@));
    while k < n
        invariant
            n == v@.len(),
            k <= n,
            strs(out@) + words(v@.skip(k as int)) == words(v@),
        decreases n - k,
    {
        let ghost rest = v@.skip(k as int);
        if bracket(v[k]) {
            let w: String = from_chars(v.as_slice(), k, k + 1);
            proof {
                assert(rest.skip(1) =~= v@.skip(k + 1));
                assert(rest.take(1) =~= w@);
                assert(strs(out@).push(w@) + words(v@.skip(k + 1)) =~= strs(out@) + (seq![w@]
                    + words(v@.skip(k + 1))));
                strs_push(out@, w);
            }
            out.push(w);
            k += 1;
        } else if v[k].is_whitespace() {
            assert(rest.skip(1) =~= v@.skip(k + 1));
            k += 1;
        } else {
            let from: usize = k;
            while k < n && !part(v[k])
                invariant
                    n == v@.len(),
                    from <= k <= n,
                    forall|i: int| from <= i < k ==> !parts(#[trigger] v@[i]),
                decreases n - k,
            {
                k += 1;
            }
            let w: String = from_chars(v.as_slice(), from, k);
            proof {
                let m = (k - from) as int;
                assert forall|i: int| 0 <= i < m implies (|c: char| !parts(c))(
                    #[trigger] rest[i],
                ) by {
                    assert(rest[i] == v@[from + i]);
                }
                span_is(rest, |c: char| !parts(c), m);
                if m == 0 {
                    assert(rest[0] == v@[from as int]);
                }
                assert(rest.take(m) =~= w@);
                assert(rest.skip(m) =~= v@.skip(k as int));
                assert(strs(out@).push(w@) + words(v@.skip(k as int)) =~= strs(out@) + (seq![
                    w@,
                ] + words(v@.skip(k as int))));
                strs_push(out@, w);
            }
            out.push(w);
        }
    }
    assert(words(v@.skip(k as int)) =~= Seq::<Seq<char>>::empty());
    assert(strs(out@) =~= words(v@));
    out
}

// ---------------------------------------------------------------------------
// The grammar
// ---------------------------------------------------------------------------

/// Whether a word is a bracket or a comma.
pub open spec fn is_mark(w: Seq<char>) -> bool {
    w == "("@ || w == ")"@ || w == ","@
}

/// Where the words stand that are neither brackets nor commas.
pub open spec fn spots(t: Seq<Seq<char>>) -> Seq<int>
    decreases t.len(),
{
    if t.len() == 0 {
        Seq::empty()
    } else if is_mark(t.last()) {
        spots(t.drop_last())
    } else {
        spots(t.drop_last()).push(t.len() - 1)
    }
}

/// Those words.
pub open spec fn bare(t: Seq<Seq<char>>) -> Seq<Seq<char>> {
    Seq::new(spots(t).len(), |k: int| t[spots(t)[k]])
}

/// How many of them stand before a place.
pub open spec fn before(t: Seq<Seq<char>>, i: int) -> int {
    spots(t.take(i)).len() as int
}

proof fn before_within(t: Seq<Seq<char>>, i: int)
    requires
        0 <= i <= t.len(),
    ensures
        before(t, i) <= bare(t).len(),
    decreases t.len(),
{
    if i < t.len() {
        before_within(t.drop_last(), i);
        assert(t.drop_last().take(i) =~= t.take(i));
    } else {
        assert(t.take(i) =~= t);
    }
}

/// Whether a word stands at a place.
pub open spec fn at(t: Seq<Seq<char>>, i: int, w: Seq<char>) -> bool {
    0 <= i < t.len() && t[i] == w
}

pub open spec fn expected(w: Seq<char>, i: int) -> Seq<char> {
    "expected "@ + w + " at token "@ + dec(i as nat)
}

/// `{:?}` of what stands at a place, if anything does.
pub open spec fn shown(t: Seq<Seq<char>>, i: int) -> Seq<char> {
    if 0 <= i < t.len() {
        "Some("@ + debug_text(t[i]) + ")"@
    } else {
        "None"@
    }
}

pub open spec fn agg_at(t: Seq<Seq<char>>, i: int) -> Result<AggFn, Seq<char>> {
    if at(t, i, "SUM"@) {
        Ok(AggFn::Sum)
    } else if at(t, i, "COUNT"@) {
        Ok(AggFn::Count)
    } else if at(t, i, "MIN"@) {
        Ok(AggFn::Min)
    } else if at(t, i, "MAX"@) {
        Ok(AggFn::Max)
    } else if at(t, i, "AVG"@) {
        Ok(AggFn::Avg)
    } else {
        Err("unknown agg "@ + shown(t, i))
    }
}

/// The column a word stands for: `C` and its number.
pub open spec fn col_at(t: Seq<Seq<char>>, i: int) -> Result<usize, Seq<char>> {
    if !(0 <= i < t.len()) {
        Err("missing column"@)
    } else if t[i].len() > 0 && t[i][0] == 'C' && parsed_unsigned(
        t[i].skip(1),
        usize::MAX as nat,
    ) is Some {
        Ok(parsed_unsigned(t[i].skip(1), usize::MAX as nat)->Some_0 as usize)
    } else {
        Err("bad column "@ + t[i])
    }
}

pub open spec fn op_at(t: Seq<Seq<char>>, i: int) -> Result<CmpOp, Seq<char>> {
    if at(t, i, ">"@) {
        Ok(CmpOp::Gt)
    } else if at(t, i, "<"@) {
        Ok(CmpOp::Lt)
    } else if at(t, i, ">="@) {
        Ok(CmpOp::Ge)
    } else if at(t, i, "<="@) {
        Ok(CmpOp::Le)
    } else if at(t, i, "="@) || at(t, i, "=="@) {
        Ok(CmpOp::Eq)
    } else {
        Err("bad op "@ + shown(t, i))
    }
}

pub open spec fn lit_at(t: Seq<Seq<char>>, i: int) -> Result<i64, Seq<char>> {
    if 0 <= i < t.len() && parsed_i64(t[i]) is Some {
        Ok(parsed_i64(t[i])->Some_0)
    } else {
        Err("bad lit"@)
    }
}

pub open spec fn limit_at(t: Seq<Seq<char>>, i: int) -> Result<usize, Seq<char>> {
    if 0 <= i < t.len() && parsed_unsigned(t[i], usize::MAX as nat) is Some {
        Ok(parsed_unsigned(t[i], usize::MAX as nat)->Some_0 as usize)
    } else {
        Err("bad LIMIT"@)
    }
}

/// The clauses behind the table.
#[derive(Clone, Copy, Debug)]
pub struct Clauses {
    pub filter: Option<(usize, CmpOp, i64)>,
    pub group_by: Option<usize>,
    pub order_by: Option<(usize, bool)>,
    pub limit: Option<usize>,
}

/// The clauses from a place on, up to the first word that begins none; a later
/// one replaces an earlier one of its kind.
pub open spec fn clauses(t: Seq<Seq<char>>, i: int, c: Clauses) -> Result<Clauses, Seq<char>>
    decreases t.len() - i,
{
    if at(t, i, "WHERE"@) {
        match (col_at(t, i + 1), op_at(t, i + 2), lit_at(t, i + 3)) {
            (Err(e), _, _) => Err(e),
            (_, Err(e), _) => Err(e),
            (_, _, Err(e)) => Err(e),
            (Ok(col), Ok(op), Ok(lit)) => clauses(
                t,
                i + 4,
                Clauses { filter: Some((col, op, lit)), ..c },
            ),
        }
    } else if at(t, i, "GROUP"@) {
        if !at(t, i + 1, "BY"@) {
            Err(expected("BY"@, i + 1))
        } else {
            match col_at(t, i + 2) {
                Err(e) => Err(e),
                Ok(col) => clauses(t, i + 3, Clauses { group_by: Some(col), ..c }),
            }
        }
    } else if at(t, i, "ORDER"@) {
        if !at(t, i + 1, "BY"@) {
            Err(expected("BY"@, i + 1))
        } else {
            match col_at(t, i + 2) {
                Err(e) => Err(e),
                Ok(col) => if at(t, i + 3, "DESC"@) {
                    clauses(t, i + 4, Clauses { order_by: Some((col, false)), ..c })
                } else if at(t, i + 3, "ASC"@) {
                    clauses(t, i + 4, Clauses { order_by: Some((col, true)), ..c })
                } else {
                    clauses(t, i + 3, Clauses { order_by: Some((col, true)), ..c })
                },
            }
        }
    } else if at(t, i, "LIMIT"@) {
        match limit_at(t, i + 1) {
            Err(e) => Err(e),
            Ok(n) => clauses(t, i + 2, Clauses { limit: Some(n), ..c }),
        }
    } else {
        Ok(c)
    }
}

/// Where the parenthesis closes that stands open `d` deep before place `i`:
/// the end of the words if it does not.
pub open spec fn close(t: Seq<Seq<char>>, i: int, d: int) -> int
    decreases t.len() - i,
{
    if i >= t.len() {
        i
    } else if t[i] == "("@ {
        close(t, i + 1, d + 1)
    } else if t[i] == ")"@ {
        if d <= 1 {
            i
        } else {
            close(t, i + 1, d - 1)
        }
    } else {
        close(t, i + 1, d)
    }
}

/// A closing bracket lies within the words.
pub proof fn close_bound(t: Seq<Seq<char>>, i: int, d: int)
    requires
        i <= t.len(),
    ensures
        i <= close(t, i, d) <= t.len(),
    decreases t.len() - i,
{
    if i < t.len() {
        if t[i] == "("@ {
            close_bound(t, i + 1, d + 1);
        } else if t[i] == ")"@ {
            if d > 1 {
                close_bound(t, i + 1, d - 1);
            }
        } else {
            close_bound(t, i + 1, d);
        }
    }
}

pub open spec fn has_cte(ctes: Seq<(Seq<char>, QueryView)>, name: Seq<char>) -> bool {
    exists|k: int| 0 <= k < ctes.len() && (#[trigger] ctes[k]).0 == name
}

/// Common table expressions from a place on, and the place behind them.
pub open spec fn ctes_from(t: Seq<Seq<char>>, i: int, acc: Seq<(Seq<char>, QueryView)>) -> Result<
    (Seq<(Seq<char>, QueryView)>, int),
    Seq<char>,
>
    decreases t.len(), 0int, t.len() - i,
{
    if i < 0 || i >= t.len() {
        Err("missing CTE name"@)
    } else if !at(t, i + 1, "AS"@) {
        Err("expected AS in CTE"@)
    } else if !at(t, i + 2, "("@) {
        Err("expected ( in CTE"@)
    } else {
        let end = close(t, i + 3, 1);
        proof {
            close_bound(t, i + 3, 1);
        }
        if end >= t.len() {
            Err("mismatched parens in CTE"@)
        } else {
            match query_of(t.subrange(i + 3, end)) {
                Err(e) => Err(e),
                Ok(q) => {
                    let all = acc.push((t[i], q));
                    if at(t, end + 1, ","@) {
                        ctes_from(t, end + 2, all)
                    } else {
                        Ok((all, end + 1))
                    }
                },
            }
        }
    }
}

/// Whether a clause begins at a place.
pub open spec fn clause_at(t: Seq<Seq<char>>, i: int) -> bool {
    at(t, i, "WHERE"@) || at(t, i, "GROUP"@) || at(t, i, "ORDER"@) || at(t, i, "LIMIT"@)
}

/// The table source behind a place, and the bare word where clauses go on. The
/// place is that of bare word `o`.
pub open spec fn source_at(
    t: Seq<Seq<char>>,
    i: int,
    o: int,
    ctes: Seq<(Seq<char>, QueryView)>,
) -> Result<(SourceView, int), Seq<char>>
    decreases t.len(), 1int, 0int,
{
    let b = bare(t);
    if at(t, i, "("@) {
        let end = close(t, i + 1, 1);
        proof {
            close_bound(t, i + 1, 1);
        }
        match query_of(t.subrange(i + 1, end)) {
            Err(e) => Err(e),
            Ok(q) => {
                let k = before(t, end);
                if at(b, k, "AS"@) {
                    if k + 1 < b.len() {
                        Ok((SourceView::Subquery(Box::new(q), b[k + 1]), k + 2))
                    } else {
                        Err("missing alias"@)
                    }
                } else if k < b.len() && !clause_at(b, k) {
                    Ok((SourceView::Subquery(Box::new(q), b[k]), k + 1))
                } else {
                    Ok((SourceView::Subquery(Box::new(q), "subq"@), k))
                }
            },
        }
    } else if o < 0 || o >= b.len() {
        Err("missing table"@)
    } else if has_cte(ctes, b[o]) {
        Ok((SourceView::CTE(b[o]), o + 1))
    } else {
        Ok((SourceView::Table(b[o]), o + 1))
    }
}

/// The expressions of a `WITH` clause, if there is one, and the place behind.
pub open spec fn with_of(t: Seq<Seq<char>>) -> Result<
    (Seq<(Seq<char>, QueryView)>, int),
    Seq<char>,
>
    decreases t.len(), 1int, 0int,
{
    if at(t, 0, "WITH"@) {
        ctes_from(t, 1, Seq::empty())
    } else {
        Ok((Seq::empty(), 0))
    }
}

/// The query some words make. Brackets count where they hold a named
/// expression or a subquery; elsewhere they and commas are passed over, and
/// words are counted without them.
pub open spec fn query_of(t: Seq<Seq<char>>) -> Result<QueryView, Seq<char>>
    decreases t.len(), 2int, 0int,
{
    match with_of(t) {
        Err(e) => Err(e),
        Ok((ctes, w)) => {
            let b = bare(t);
            let i = before(t, w);
            if !at(b, i, "SELECT"@) {
                Err(expected("SELECT"@, i))
            } else {
                match (agg_at(b, i + 1), col_at(b, i + 2)) {
                    (Err(e), _) => Err(e),
                    (_, Err(e)) => Err(e),
                    (Ok(agg), Ok(agg_col)) => if !at(b, i + 3, "FROM"@) {
                        Err(expected("FROM"@, i + 3))
                    } else {
                        match source_at(t, spots(t)[i + 3] + 1, i + 4, ctes) {
                            Err(e) => Err(e),
                            Ok((table, j)) => match clauses(b, j, no_clauses()) {
                                Err(e) => Err(e),
                                Ok(c) => Ok(
                                    QueryView {
                                        agg,
                                        agg_col,
                                        table,
                                        filter: c.filter,
                                        group_by: c.group_by,
                                        ctes,
                                        order_by: c.order_by,
                                        limit: c.limit,
                                    },
                                ),
                            },
                        }
                    },
                }
            }
        },
    }
}

pub open spec fn no_clauses() -> Clauses {
    Clauses { filter: None, group_by: None, order_by: None, limit: None }
}

// ---------------------------------------------------------------------------
// The parser
// ---------------------------------------------------------------------------

/// Whether an outcome is a text's reading.
pub open spec fn gives(r: Result<Query, String>, s: Result<QueryView, Seq<char>>) -> bool {
    match (r, s) {
        (Ok(q), Ok(v)) => q.model() == v,
        (Err(e), Err(m)) => e@ == m,
        _ => false,
    }
}

pub open spec fn tells<T>(r: Result<T, String>, s: Result<T, Seq<char>>) -> bool {
    match (r, s) {
        (Ok(q), Ok(v)) => q == v,
        (Err(e), Err(m)) => e@ == m,
        _ => false,
    }
}

/// Whether a word stands at a place.
fn is_at(t: &Vec<String>, i: usize, k: usize, w: &str) -> (r: bool)
    requires
        i <= t@.len(),
    ensures
        r == at(strs(t@), i + k, w@),
{
    let n: usize = t.len();
    k < n - i && str_eq(t[i + k].as_str(), w)
}

fn show(t: &Vec<String>, i: usize, k: usize) -> (r: String)
    requires
        i <= t@.len(),
    ensures
        r@ == shown(strs(t@), i + k),
{
    let n: usize = t.len();
    if k < n - i {
        let inner: String = debug_str(t[i + k].as_str());
        let head: String = join2("Some(", inner.as_str());
        join2(head.as_str(), ")")
    } else {
        "None".to_owned()
    }
}

fn expect_error(w: &str, i: usize) -> (r: String)
    ensures
        r@ == expected(w@, i as int),
{
    let a: String = join2("expected ", w);
    let b: String = join2(a.as_str(), " at token ");
    let n: String = u64_text(i as u64);
    join2(b.as_str(), n.as_str())
}

fn agg(t: &Vec<String>, i: usize, k: usize) -> (r: Result<AggFn, String>)
    requires
        i <= t@.len(),
    ensures
        tells(r, agg_at(strs(t@), i + k)),
{
    if is_at(t, i, k, "SUM") {
        Ok(AggFn::Sum)
    } else if is_at(t, i, k, "COUNT") {
        Ok(AggFn::Count)
    } else if is_at(t, i, k, "MIN") {
        Ok(AggFn::Min)
    } else if is_at(t, i, k, "MAX") {
        Ok(AggFn::Max)
    } else if is_at(t, i, k, "AVG") {
        Ok(AggFn::Avg)
    } else {
        let s: String = show(t, i, k);
        Err(join2("unknown agg ", s.as_str()))
    }
}

fn op(t: &Vec<String>, i: usize, k: usize) -> (r: Result<CmpOp, String>)
    requires
        i <= t@.len(),
    ensures
        tells(r, op_at(strs(t@), i + k)),
{
    if is_at(t, i, k, ">") {
        Ok(CmpOp::Gt)
    } else if is_at(t, i, k, "<") {
        Ok(CmpOp::Lt)
    } else if is_at(t, i, k, ">=") {
        Ok(CmpOp::Ge)
    } else if is_at(t, i, k, "<=") {
        Ok(CmpOp::Le)
    } else if is_at(t, i, k, "=") || is_at(t, i, k, "==") {
        Ok(CmpOp::Eq)
    } else {
        let s: String = show(t, i, k);
        Err(join2("bad op ", s.as_str()))
    }
}

fn col(t: &Vec<String>, i: usize, k: usize) -> (r: Result<usize, String>)
    requires
        i <= t@.len(),
    ensures
        tells(r, col_at(strs(t@), i + k)),
{
    let n: usize = t.len();
    if k >= n - i {
        return Err("missing column".to_owned());
    }
    let w: &String = &t[i + k];
    let v: Vec<char> = to_chars(w.as_str());
    if v.len() > 0 && v[0] == 'C' {
        let rest: String = from_chars(v.as_slice(), 1, v.len());
        assert(rest@ =~= w@.skip(1));
        if let Some(x) = parse_unsigned(rest.as_str(), usize::MAX as u64) {
            return Ok(x as usize);
        }
    }
    Err(join2("bad column ", w.as_str()))
}

fn lit(t: &Vec<String>, i: usize, k: usize) -> (r: Result<i64, String>)
    requires
        i <= t@.len(),
    ensures
        tells(r, lit_at(strs(t@), i + k)),
{
    let n: usize = t.len();
    if k < n - i {
        if let Some(x) = parse_i64(t[i + k].as_str()) {
            return Ok(x);
        }
    }
    Err("bad lit".to_owned())
}

fn limit(t: &Vec<String>, i: usize, k: usize) -> (r: Result<usize, String>)
    requires
        i <= t@.len(),
    ensures
        tells(r, limit_at(strs(t@), i + k)),
{
    let n: usize = t.len();
    if k < n - i {
        if let Some(x) = parse_unsigned(t[i + k].as_str(), usize::MAX as u64) {
            return Ok(x as usize);
        }
    }
    Err("bad LIMIT".to_owned())
}

fn parse_clauses(t: &Vec<String>, from: usize) -> (r: Result<Clauses, String>)
    requires
        from <= t@.len(),
    ensures
        tells(r, clauses(strs(t@), from as int, no_clauses())),
{
    let n: usize = t.len();
    let ghost s = strs(t@);
    let ghost whole = clauses(s, from as int, no_clauses());
    let mut c: Clauses = Clauses { filter: None, group_by: None, order_by: None, limit: None };
    let mut i: usize = from;
    while i < n
        invariant
            n == t@.len(),
            s == strs(t@),
            i <= n,
            whole == clauses(s, from as int, no_clauses()),
            clauses(s, i as int, c) == whole,
        decreases n - i,
    {
        if is_at(t, i, 0, "WHERE") {
            let at_col: usize = match col(t, i, 1) {
                Ok(x) => x,
                Err(e) => return Err(e),
            };
            let at_op: CmpOp = match op(t, i, 2) {
                Ok(x) => x,
                Err(e) => return Err(e),
            };
            let at_lit: i64 = match lit(t, i, 3) {
                Ok(x) => x,
                Err(e) => return Err(e),
            };
            c.filter = Some((at_col, at_op, at_lit));
            i += 4;
        } else if is_at(t, i, 0, "GROUP") {
            if !is_at(t, i, 1, "BY") {
                return Err(expect_error("BY", i + 1));
            }
            match col(t, i, 2) {
                Ok(x) => c.group_by = Some(x),
                Err(e) => return Err(e),
            }
            i += 3;
        } else if is_at(t, i, 0, "ORDER") {
            if !is_at(t, i, 1, "BY") {
                return Err(expect_error("BY", i + 1));
            }
            let at_col: usize = match col(t, i, 2) {
                Ok(x) => x,
                Err(e) => return Err(e),
            };
            if is_at(t, i, 3, "DESC") {
                c.order_by = Some((at_col, false));
                i += 4;
            } else if is_at(t, i, 3, "ASC") {
                c.order_by = Some((at_col, true));
                i += 4;
            } else {
                c.order_by = Some((at_col, true));
                i += 3;
            }
        } else if is_at(t, i, 0, "LIMIT") {
            match limit(t, i, 1) {
                Ok(x) => c.limit = Some(x),
                Err(e) => return Err(e),
            }
            i += 2;
        } else {
            return Ok(c);
        }
    }
    Ok(c)
}

/// Where the parenthesis closes that opened before a place.
fn close_paren(t: &Vec<String>, from: usize) -> (r: usize)
    requires
        0 < from <= t@.len(),
    ensures
        r == close(strs(t@), from as int, 1),
        from <= r <= t@.len(),
{
    let n: usize = t.len();
    let ghost s = strs(t@);
    let mut depth: usize = 1;
    let mut i: usize = from;
    while i < n
        invariant
            n == t@.len(),
            s == strs(t@),
            0 < from <= i <= n,
            1 <= depth <= i - from + 1,
            close(s, i as int, depth as int) == close(s, from as int, 1),
        decreases n - i,
    {
        if str_eq(t[i].as_str(), "(") {
            depth += 1;
        } else if str_eq(t[i].as_str(), ")") {
            if depth == 1 {
                return i;
            }
            depth -= 1;
        }
        i += 1;
    }
    i
}

fn words_between(t: &Vec<String>, from: usize, to: usize) -> (r: Vec<String>)
    requires
        from <= to <= t@.len(),
    ensures
        strs(r@) == strs(t@).subrange(from as int, to as int),
        r@.len() == to - from,
{
    let mut out: Vec<String> = Vec::new();
    let mut k: usize = from;
    while k < to
        invariant
            from <= k <= to <= t@.len(),
            out@.len() == k - from,
            strs(out@) == strs(t@).subrange(from as int, k as int),
        decreases to - k,
    {
        let w: String = t[k].clone();
        proof {
            strs_push(out@, w);
        }
        out.push(w);
        k += 1;
        assert(strs(out@) =~= strs(t@).subrange(from as int, k as int));
    }
    out
}

/// The words that are neither brackets nor commas, and where they stand.
fn bare_words(t: &Vec<String>) -> (r: (Vec<String>, Vec<usize>))
    ensures
        strs(r.0@) == bare(strs(t@)),
        r.1@.len() == r.0@.len(),
        r.0@.len() <= t@.len(),
        forall|k: int|
            0 <= k < r.1@.len() ==> (#[trigger] r.1@[k]) < t@.len() && r.1@[k] == spots(
                strs(t@),
            )[k],
{
    let ghost s = strs(t@);
    let mut out: Vec<String> = Vec::new();
    let mut places: Vec<usize> = Vec::new();
    let mut i: usize = 0;
    assert(s.take(0) =~= Seq::<Seq<char>>::empty());
    while i < t.len()
        invariant
            i <= t@.len(),
            s == strs(t@),
            out@.len() == places@.len(),
            out@.len() <= i,
            places@.len() == spots(s.take(i as int)).len(),
            forall|k: int|
                0 <= k < places@.len() ==> (#[trigger] places@[k]) < i && places@[k] == spots(
                    s.take(i as int),
                )[k] && strs(out@)[k] == s[places@[k] as int],
        decreases t@.len() - i,
    {
        assert(s.take(i + 1).drop_last() =~= s.take(i as int));
        assert(s.take(i + 1).last() == s[i as int]);
        if !mark(t[i].as_str()) {
            let w: String = t[i].clone();
            proof {
                strs_push(out@, w);
            }
            out.push(w);
            places.push(i);
        }
        i += 1;
    }
    proof {
        assert(s.take(i as int) =~= s);
        assert forall|k: int| 0 <= k < out@.len() implies strs(out@)[k] == bare(s)[k] by {
            assert(places@[k] == spots(s)[k]);
        }
        assert(strs(out@) =~= bare(s));
    }
    (out, places)
}

fn mark(w: &str) -> (r: bool)
    ensures
        r == is_mark(w@),
{
    str_eq(w, "(") || str_eq(w, ")") || str_eq(w, ",")
}

/// How many words before a place are neither brackets nor commas.
fn bare_before(t: &Vec<String>, to: usize) -> (n: usize)
    requires
        to <= t@.len(),
    ensures
        n == before(strs(t@), to as int),
{
    let ghost s = strs(t@);
    let mut n: usize = 0;
    let mut i: usize = 0;
    assert(s.take(0) =~= Seq::<Seq<char>>::empty());
    while i < to
        invariant
            i <= to <= t@.len(),
            s == strs(t@),
            n <= i,
            n == spots(s.take(i as int)).len(),
        decreases to - i,
    {
        assert(s.take(i + 1).drop_last() =~= s.take(i as int));
        assert(s.take(i + 1).last() == s[i as int]);
        if !mark(t[i].as_str()) {
            n += 1;
        }
        i += 1;
    }
    n
}

/// Reads a `WITH` clause, if there is one: its expressions and the place
/// behind them.
pub fn parse_with_clause(toks: &Vec<String>) -> (r: Result<(Vec<(String, Box<Query>)>, usize), String>)
    ensures
        match (r, with_of(strs(toks@))) {
            (Ok((c, i)), Ok((v, j))) => ctes_model(c@) == v && i == j && i <= toks@.len(),
            (Err(e), Err(m)) => e@ == m,
            _ => false,
        },
    decreases toks@.len(), 0int,
{
    let n: usize = toks.len();
    let ghost s = strs(toks@);
    let mut ctes: Vec<(String, Box<Query>)> = Vec::new();
    if !is_at(toks, 0, 0, "WITH") {
        assert(ctes_model(ctes@) =~= Seq::empty());
        return Ok((ctes, 0));
    }
    let ghost whole = ctes_from(s, 1, Seq::empty());
    let mut i: usize = 1;
    assert(ctes_model(ctes@) =~= Seq::empty());
    loop
        invariant
            n == toks@.len(),
            s == strs(toks@),
            1 <= i <= n,
            at(s, 0, "WITH"@),
            whole == ctes_from(s, 1, Seq::empty()),
            ctes_from(s, i as int, ctes_model(ctes@)) == whole,
        decreases n - i,
    {
        if i == n {
            return Err("missing CTE name".to_owned());
        }
        if !is_at(toks, i, 1, "AS") {
            return Err("expected AS in CTE".to_owned());
        }
        if !is_at(toks, i, 2, "(") {
            return Err("expected ( in CTE".to_owned());
        }
        let end: usize = close_paren(toks, i + 3);
        if end == n {
            return Err("mismatched parens in CTE".to_owned());
        }
        let inner: Vec<String> = words_between(toks, i + 3, end);
        match parse_subquery_tokens(&inner) {
            Err(e) => return Err(e),
            Ok(q) => {
                let name: String = toks[i].clone();
                let ghost before = ctes@;
                ctes.push((name, Box::new(q)));
                assert(ctes_model(ctes@) =~= ctes_model(before).push((s[i as int], q.model())));
                if is_at(toks, end, 1, ",") {
                    i = end + 2;
                } else {
                    return Ok((ctes, end + 1));
                }
            },
        }
    }
}

/// Reads a subquery from its words.
pub fn parse_subquery_tokens(toks: &Vec<String>) -> (r: Result<Query, String>)
    ensures
        gives(r, query_of(strs(toks@))),
    decreases toks@.len(), 3int,
{
    parse_inner_query(toks)
}

fn find_cte(ctes: &Vec<(String, Box<Query>)>, name: &str) -> (r: bool)
    ensures
        r == has_cte(ctes_model(ctes@), name@),
{
    let ghost m = ctes_model(ctes@);
    let mut k: usize = 0;
    while k < ctes.len()
        invariant
            k <= ctes@.len(),
            m == ctes_model(ctes@),
            forall|j: int| 0 <= j < k ==> (#[trigger] m[j]).0 != name@,
        decreases ctes@.len() - k,
    {
        if str_eq(ctes[k].0.as_str(), name) {
            assert(m[k as int].0 == name@);
            return true;
        }
        k += 1;
    }
    false
}

fn is_clause(b: &Vec<String>, p: usize) -> (r: bool)
    requires
        p <= b@.len(),
    ensures
        r == clause_at(strs(b@), p as int),
{
    is_at(b, p, 0, "WHERE") || is_at(b, p, 0, "GROUP") || is_at(b, p, 0, "ORDER") || is_at(
        b,
        p,
        0,
        "LIMIT",
    )
}

fn parse_source(
    toks: &Vec<String>,
    b: &Vec<String>,
    i: usize,
    o: usize,
    ctes: &Vec<(String, Box<Query>)>,
) -> (r: Result<(TableSource, usize), String>)
    requires
        i <= toks@.len(),
        o <= b@.len(),
        strs(b@) == bare(strs(toks@)),
    ensures
        match (r, source_at(strs(toks@), i as int, o as int, ctes_model(ctes@))) {
            (Ok((s, p)), Ok((v, q))) => source_model(s) == v && p == q && p <= b@.len(),
            (Err(e), Err(m)) => e@ == m,
            _ => false,
        },
    decreases toks@.len(), 1int,
{
    let n: usize = b.len();
    let m: usize = toks.len();
    if is_at(toks, i, 0, "(") {
        assert(i < m);
        let end: usize = close_paren(toks, i + 1);
        let inner: Vec<String> = words_between(toks, i + 1, end);
        let q: Query = match parse_subquery_tokens(&inner) {
            Ok(q) => q,
            Err(e) => return Err(e),
        };
        let p: usize = bare_before(toks, end);
        proof {
            before_within(strs(toks@), end as int);
        }
        if is_at(b, p, 0, "AS") {
            if p + 1 < n {
                Ok((TableSource::Subquery(Box::new(q), b[p + 1].clone()), p + 2))
            } else {
                Err("missing alias".to_owned())
            }
        } else if p < n && !is_clause(b, p) {
            Ok((TableSource::Subquery(Box::new(q), b[p].clone()), p + 1))
        } else {
            Ok((TableSource::Subquery(Box::new(q), "subq".to_owned()), p))
        }
    } else if o >= n {
        Err("missing table".to_owned())
    } else if find_cte(ctes, b[o].as_str()) {
        Ok((TableSource::CTE(b[o].clone()), o + 1))
    } else {
        Ok((TableSource::Table(b[o].clone()), o + 1))
    }
}

/// Reads a query from its words.
pub fn parse_inner_query(toks: &Vec<String>) -> (r: Result<Query, String>)
    ensures
        gives(r, query_of(strs(toks@))),
    decreases toks@.len(), 2int,
{
    let (ctes, w): (Vec<(String, Box<Query>)>, usize) = match parse_with_clause(toks) {
        Ok(w) => w,
        Err(e) => return Err(e),
    };
    let (b, places): (Vec<String>, Vec<usize>) = bare_words(toks);
    let i: usize = bare_before(toks, w);
    proof {
        before_within(strs(toks@), w as int);
    }
    if !is_at(&b, i, 0, "SELECT") {
        return Err(expect_error("SELECT", i));
    }
    let agg: AggFn = match agg(&b, i, 1) {
        Ok(a) => a,
        Err(e) => return Err(e),
    };
    let agg_col: usize = match col(&b, i, 2) {
        Ok(c) => c,
        Err(e) => return Err(e),
    };
    let n: usize = b.len();
    assert(i + 2 < n);
    if !is_at(&b, i, 3, "FROM") {
        return Err(expect_error("FROM", i + 3));
    }
    assert(i + 3 < n);
    let m: usize = toks.len();
    assert(places@[i + 3] < m);
    let (table, p): (TableSource, usize) = match parse_source(
        toks,
        &b,
        places[i + 3] + 1,
        i + 4,
        &ctes,
    ) {
        Ok(s) => s,
        Err(e) => return Err(e),
    };
    let c: Clauses = match parse_clauses(&b, p) {
        Ok(c) => c,
        Err(e) => return Err(e),
    };
    let q: Query = Query {
        agg,
        agg_col,
        table,
        filter: c.filter,
        group_by: c.group_by,
        ctes,
        order_by: c.order_by,
        limit: c.limit,
    };
    assert(q.model().ctes =~= ctes_model(ctes@));
    assert(q.model().table == source_model(table));
    Ok(q)
}

/// Reads a query from a statement's text in upper case.
pub fn parse_upper(up: &str) -> (r: Result<Query, String>)
    ensures
        gives(r, query_of(words(up@))),
{
    let toks: Vec<String> = split_words(up);
    parse_inner_query(&toks)
}

/// Reads a query: a statement without its closing semicolons, in any case.
pub fn parse(sql: &str) -> (r: Result<Query, String>)
    ensures
        gives(r, query_of(words(upper(statement(sql@))))),
{
    let v: Vec<char> = statement_chars(sql);
    let text: String = from_chars(v.as_slice(), 0, v.len());
    assert(text@ =~= statement(sql@));
    let up: String = to_upper(text.as_str());
    parse_upper(up.as_str())
}

} // verus!
