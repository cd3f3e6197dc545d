//! The query daemon of a host: what it makes of the requests it gets, and how
//! it answers them.
use crate::chars::{
    ascii_lower, from_utf8_lossy, lossy_text, lower, same_word, skip_spaces, trim, trim_start, trimmed,
};
use crate::text::{
    dec, from_chars, has_prefix, is_digit, parse_unsigned, parsed_unsigned, push_dec,
    starts_with, str_eq, to_chars,
};
use vstd::prelude::*;
use vstd::utf8::encode_utf8;

verus! {

// ---------------------------------------------------------------------------
// Texts
// ---------------------------------------------------------------------------

/// Where a pattern first stands from `i` on.
pub open spec fn first_at(s: Seq<char>, pat: Seq<char>, i: int) -> Option<int>
    decreases s.len() + 1 - i,
{
    if i < 0 || i + pat.len() > s.len() {
        None
    } else if s.subrange(i, i + pat.len()) == pat {
        Some(i)
    } else {
        first_at(s, pat, i + 1)
    }
}

fn stands_at(v: &Vec<char>, pat: &Vec<char>, i: usize) -> (r: bool)
    requires
        i + pat@.len() <= v@.len(),
    ensures
        r == (v@.subrange(i as int, i + pat@.len()) == pat@),
{
    let n: usize = v.len();
    let mut k: usize = 0;
    while k < pat.len()
        invariant
            k <= pat@.len(),
            i + pat@.len() <= v@.len() == n,
            forall|j: int| 0 <= j < k ==> v@[i + j] == #[trigger] pat@[j],
        decreases pat@.len() - k,
    {
        if v[i + k] != pat[k] {
            assert(v@.subrange(i as int, i + pat@.len())[k as int] != pat@[k as int]);
            return false;
        }
        k += 1;
    }
    assert(v@.subrange(i as int, i + pat@.len()) =~= pat@);
    true
}

fn find(v: &Vec<char>, pat: &str, from: usize) -> (r: Option<usize>)
    requires
        from <= v@.len(),
        pat@.len() > 0,
    ensures
        match r {
            Some(i) => first_at(v@, pat@, from as int) == Some(i as int) && from <= i && i
                + pat@.len() <= v@.len(),
            None => first_at(v@, pat@, from as int) is None,
        },
{
    let p: Vec<char> = to_chars(pat);
    let n: usize = v.len();
    let m: usize = p.len();
    let mut i: usize = from;
    while i < n && m <= n - i
        invariant
            from <= i <= n,
            n == v@.len(),
            m == p@.len(),
            m > 0,
            p@ == pat@,
            first_at(v@, pat@, i as int) == first_at(v@, pat@, from as int),
        decreases n - i,
    {
        if stands_at(v, &p, i) {
            return Some(i);
        }
        i += 1;
    }
    None
}

// ---------------------------------------------------------------------------
// Requests
// ---------------------------------------------------------------------------

/// What a quoted text stands for, up to its closing quote or its end. Behind a
/// backslash any character stands for itself.
pub open spec fn unquoted(s: Seq<char>, escaped: bool) -> Seq<char>
    decreases s.len(),
{
    if s.len() == 0 {
        Seq::empty()
    } else if escaped {
        seq![s[0]] + unquoted(s.skip(1), false)
    } else if s[0] == '\\' {
        unquoted(s.skip(1), true)
    } else if s[0] == '"' {
        Seq::empty()
    } else {
        seq![s[0]] + unquoted(s.skip(1), false)
    }
}

/// The query in a body.
pub open spec fn sql_in(body: Seq<char>) -> Option<Seq<char>> {
    match first_at(body, "\"sql\""@, 0) {
        None => None,
        Some(k) => {
            let a = trim_start(body.skip(k + "\"sql\""@.len()));
            if a.len() == 0 || a[0] != ':' {
                None
            } else {
                let b = trim_start(a.skip(1));
                if b.len() == 0 || b[0] != '"' {
                    None
                } else {
                    Some(unquoted(b.skip(1), false))
                }
            }
        },
    }
}

/// How many digits a text starts with.
pub open spec fn digit_run(s: Seq<char>) -> nat
    decreases s.len(),
{
    if s.len() > 0 && is_digit(s[0]) {
        1 + digit_run(s.skip(1))
    } else {
        0
    }
}

/// The number of workers a body asks for: the digits right behind the first
/// colon that follows the word.
pub open spec fn workers_in(body: Seq<char>) -> Option<usize> {
    match first_at(body, "\"workers\""@, 0) {
        None => None,
        Some(i) => match first_at(body, ":"@, i) {
            None => None,
            Some(j) => {
                let t = body.skip(j + 1);
                match parsed_unsigned(t.take(digit_run(t) as int), usize::MAX as nat) {
                    Some(n) => Some(n as usize),
                    None => None,
                }
            },
        },
    }
}

fn unquote(v: &Vec<char>, from: usize) -> (r: String)
    requires
        from <= v@.len(),
    ensures
        r@ == unquoted(v@.skip(from as int), false),
{
    let ghost want = unquoted(v@.skip(from as int), false);
    let mut out: String = String::new();
    let mut esc: bool = false;
    let mut i: usize = from;
    assert(out@ + want =~= want);
    while i < v.len()
        invariant
            from <= i <= v@.len(),
            want == unquoted(v@.skip(from as int), false),
            out@ + unquoted(v@.skip(i as int), esc) == want,
        decreases v@.len() - i,
    {
        let c: char = v[i];
        let ghost rest = v@.skip(i as int);
        let ghost before = out@;
        assert(rest[0] == c);
        assert(rest.skip(1) =~= v@.skip(i + 1));
        if esc {
            out.push(c);
            esc = false;
            assert(before.push(c) + unquoted(rest.skip(1), false) =~= before + (seq![c] + unquoted(
                rest.skip(1),
                false,
            )));
        } else if c == '\\' {
            esc = true;
        } else if c == '"' {
            assert(before + Seq::<char>::empty() =~= before);
            return out;
        } else {
            out.push(c);
            assert(before.push(c) + unquoted(rest.skip(1), false) =~= before + (seq![c] + unquoted(
                rest.skip(1),
                false,
            )));
        }
        i += 1;
    }
    assert(out@ + Seq::<char>::empty() =~= out@);
    out
}

proof fn run_is(s: Seq<char>, n: int)
    requires
        0 <= n <= s.len(),
        forall|i: int| 0 <= i < n ==> is_digit(#[trigger] s[i]),
        n < s.len() ==> !is_digit(s[n]),
    ensures
        digit_run(s) == n,
    decreases s.len(),
{
    if n > 0 {
        assert(is_digit(s[0]));
        let t = s.skip(1);
        assert forall|i: int| 0 <= i < n - 1 implies is_digit(#[trigger] t[i]) by {
            assert(t[i] == s[i + 1]);
        }
        run_is(t, n - 1);
    }
}

fn find_workers(v: &Vec<char>) -> (r: Option<usize>)
    ensures
        r == workers_in(v@),
{
    proof {
        reveal_strlit("\"workers\"");
        reveal_strlit(":");
    }
    let n: usize = v.len();
    let i: usize = match find(v, "\"workers\"", 0) {
        Some(i) => i,
        None => return None,
    };
    let j: usize = match find(v, ":", i) {
        Some(j) => j,
        None => return None,
    };
    let from: usize = j + 1;
    let mut e: usize = from;
    while e < n && v[e] >= '0' && v[e] <= '9'
        invariant
            n == v@.len(),
            from <= e <= n,
            forall|k: int| from <= k < e ==> is_digit(#[trigger] v@[k]),
        decreases n - e,
    {
        e += 1;
    }
    let digits: String = from_chars(v.as_slice(), from, e);
    proof {
        let t = v@.skip(from as int);
        let c = e - from;
        assert forall|k: int| 0 <= k < c implies is_digit(#[trigger] t[k]) by {
            assert(t[k] == v@[from + k]);
        }
        if c < t.len() {
            assert(t[c] == v@[e as int]);
        }
        run_is(t, c);
        assert(t.take(c) =~= digits@);
    }
    match parse_unsigned(digits.as_str(), usize::MAX as u64) {
        Some(n) => Some(n as usize),
        None => None,
    }
}

/// Reads the query of a body, and the number of workers if it names one.
pub fn parse_json_sql(body: &str) -> (r: Option<(String, Option<usize>)>)
    ensures
        match (r, sql_in(body@)) {
            (Some((sql, workers)), Some(s)) => sql@ == s && workers == workers_in(body@),
            (None, None) => true,
            _ => false,
        },
{
    proof {
        reveal_strlit("\"sql\"");
    }
    let v: Vec<char> = to_chars(body);
    let n: usize = v.len();
    let k: usize = match find(&v, "\"sql\"", 0) {
        Some(k) => k,
        None => return None,
    };
    let a: usize = skip_spaces(&v, k + 5);
    if a >= n || v[a] != ':' {
        return None;
    }
    assert(v@.skip(a as int).skip(1) =~= v@.skip(a + 1));
    let b: usize = skip_spaces(&v, a + 1);
    if b >= n || v[b] != '"' {
        return None;
    }
    assert(v@.skip(b as int).skip(1) =~= v@.skip(b + 1));
    let sql: String = unquote(&v, b + 1);
    Some((sql, find_workers(&v)))
}

/// Whether a text starts with a word, but for the case of ASCII letters.
pub open spec fn starts_word(s: Seq<char>, w: Seq<char>) -> bool {
    s.len() >= w.len() && same_word(s.take(w.len() as int), w)
}

fn word_at_start(v: &Vec<char>, w: &str) -> (r: bool)
    ensures
        r == starts_word(v@, w@),
{
    let p: Vec<char> = to_chars(w);
    if v.len() < p.len() {
        return false;
    }
    let ghost t = v@.take(p@.len() as int);
    let mut k: usize = 0;
    while k < p.len()
        invariant
            k <= p@.len() <= v@.len(),
            p@ == w@,
            t == v@.take(p@.len() as int),
            forall|i: int| 0 <= i < k ==> ascii_lower(#[trigger] t[i]) == ascii_lower(p@[i]),
        decreases p@.len() - k,
    {
        if lower(v[k]) != lower(p[k]) {
            assert(ascii_lower(t[k as int]) != ascii_lower(p@[k as int]));
            return false;
        }
        assert(t[k as int] == v@[k as int]);
        k += 1;
    }
    true
}

/// The token that a line of a request bears.
pub open spec fn bearer(line: Seq<char>) -> Option<Seq<char>> {
    if starts_word(line, "authorization:"@) {
        let rest = trim(line.skip("authorization:"@.len() as int));
        if starts_word(rest, "bearer "@) {
            Some(trim(rest.skip("bearer "@.len() as int)))
        } else {
            None
        }
    } else {
        None
    }
}

/// The length of the first line.
pub open spec fn line_len(s: Seq<char>) -> nat
    decreases s.len(),
{
    if s.len() > 0 && s[0] != '\n' {
        1 + line_len(s.skip(1))
    } else {
        0
    }
}

proof fn line_is(s: Seq<char>, n: int)
    requires
        0 <= n <= s.len(),
        forall|i: int| 0 <= i < n ==> #[trigger] s[i] != '\n',
        n < s.len() ==> s[n] == '\n',
    ensures
        line_len(s) == n,
    decreases s.len(),
{
    if n > 0 {
        assert(s[0] != '\n');
        let t = s.skip(1);
        assert forall|i: int| 0 <= i < n - 1 implies #[trigger] t[i] != '\n' by {
            assert(t[i] == s[i + 1]);
        }
        line_is(t, n - 1);
    }
}

/// The token of the first line that bears one.
pub open spec fn token_in(s: Seq<char>) -> Option<Seq<char>>
    decreases s.len(),
{
    let n = line_len(s) as int;
    match bearer(s.take(n)) {
        Some(t) => Some(t),
        None => if n < s.len() {
            token_in(s.skip(n + 1))
        } else {
            None
        },
    }
}

/// Whether a request may query: no token is asked for, or it bears that one.
pub open spec fn allowed(req: Seq<char>, token: Option<Seq<char>>) -> bool {
    match token {
        None => true,
        Some(t) => token_in(req) == Some(t),
    }
}

pub open spec fn opt_view(s: Option<String>) -> Option<Seq<char>> {
    match s {
        Some(t) => Some(t@),
        None => None,
    }
}

fn read_bearer(line: &Vec<char>) -> (r: Option<String>)
    ensures
        opt_view(r) == bearer(line@),
{
    proof {
        reveal_strlit("authorization:");
        reveal_strlit("bearer ");
    }
    if !word_at_start(line, "authorization:") {
        return None;
    }
    let rest: String = trimmed(line, 14);
    let r: Vec<char> = to_chars(rest.as_str());
    if !word_at_start(&r, "bearer ") {
        return None;
    }
    Some(trimmed(&r, 7))
}

/// Whether a request may query.
pub fn authorized(req: &str, token: &Option<String>) -> (r: bool)
    ensures
        r == allowed(req@, opt_view(*token)),
{
    let expected: &String = match token {
        None => return true,
        Some(t) => t,
    };
    let v: Vec<char> = to_chars(req);
    let n: usize = v.len();
    let mut i: usize = 0;
    assert(v@.skip(0) =~= v@);
    loop
        invariant
            n == v@.len(),
            i <= n,
            v@ == req@,
            *token == Some(*expected),
            token_in(v@.skip(i as int)) == token_in(v@),
        decreases n - i,
    {
        let ghost s = v@.skip(i as int);
        let mut e: usize = i;
        let mut line: Vec<char> = Vec::new();
        while e < n && v[e] != '\n'
            invariant
                i <= e <= n,
                n == v@.len(),
                line@ == v@.subrange(i as int, e as int),
                forall|k: int| i <= k < e ==> #[trigger] v@[k] != '\n',
            decreases n - e,
        {
            line.push(v[e]);
            e += 1;
            assert(line@ =~= v@.subrange(i as int, e as int));
        }
        proof {
            assert forall|k: int| 0 <= k < e - i implies #[trigger] s[k] != '\n' by {
                assert(s[k] == v@[i + k]);
            }
            if e < n {
                assert(s[e - i] == v@[e as int]);
            }
            line_is(s, e - i);
            assert(s.take(e - i) =~= line@);
        }
        if let Some(t) = read_bearer(&line) {
            return str_eq(t.as_str(), expected.as_str());
        }
        if e >= n {
            return false;
        }
        assert(s.skip(e - i + 1) =~= v@.skip(e + 1));
        i = e + 1;
    }
}

/// The body of a request: what stands behind the first empty line, up to the
/// next.
pub open spec fn body_of(req: Seq<char>) -> Seq<char> {
    match first_at(req, "\r\n\r\n"@, 0) {
        None => Seq::empty(),
        Some(i) => match first_at(req, "\r\n\r\n"@, i + 4) {
            None => req.skip(i + 4),
            Some(j) => req.subrange(i + 4, j),
        },
    }
}

fn read_body(req: &str) -> (r: String)
    ensures
        r@ == body_of(req@),
{
    proof {
        reveal_strlit("\r\n\r\n");
    }
    let v: Vec<char> = to_chars(req);
    let n: usize = v.len();
    let r: String = match find(&v, "\r\n\r\n", 0) {
        None => String::new(),
        Some(i) => match find(&v, "\r\n\r\n", i + 4) {
            None => {
                let t: String = from_chars(v.as_slice(), i + 4, n);
                assert(t@ =~= v@.skip(i + 4));
                t
            },
            Some(j) => from_chars(v.as_slice(), i + 4, j),
        },
    };
    assert(r@ =~= body_of(req@));
    r
}

// ---------------------------------------------------------------------------
// Answers
// ---------------------------------------------------------------------------

/// A character inside a JSON string.
pub open spec fn escape(c: char) -> Seq<char> {
    if c == '\\' {
        seq!['\\', '\\']
    } else if c == '"' {
        seq!['\\', '"']
    } else if c == '\n' {
        seq!['\\', 'n']
    } else {
        seq![c]
    }
}

/// The first `k` characters inside a JSON string.
pub open spec fn escaped(s: Seq<char>, k: int) -> Seq<char>
    decreases k,
{
    if k <= 0 {
        Seq::empty()
    } else {
        escaped(s, k - 1) + escape(s[k - 1])
    }
}

/// A text as a JSON string.
pub open spec fn json_text(s: Seq<char>) -> Seq<char> {
    seq!['"'] + escaped(s, s.len() as int) + seq!['"']
}

pub fn json_escape(s: &str) -> (r: String)
    ensures
        r@ == json_text(s@),
{
    let v: Vec<char> = to_chars(s);
    let mut out: String = String::new();
    out.push('"');
    let mut k: usize = 0;
    assert(out@ =~= seq!['"'] + escaped(v@, 0));
    while k < v.len()
        invariant
            k <= v@.len(),
            out@ == seq!['"'] + escaped(v@, k as int),
        decreases v@.len() - k,
    {
        let c: char = v[k];
        if c == '\\' {
            out.push('\\');
            out.push('\\');
        } else if c == '"' {
            out.push('\\');
            out.push('"');
        } else if c == '\n' {
            out.push('\\');
            out.push('n');
        } else {
            out.push(c);
        }
        assert(out@ =~= seq!['"'] + (escaped(v@, k as int) + escape(c)));
        k += 1;
    }
    out.push('"');
    assert(out@ =~= json_text(s@));
    out
}

/// A response with a JSON body; the length it names is that of its body.
pub open spec fn json_response(code: Seq<char>, body: Seq<char>) -> Seq<char> {
    "HTTP/1.1 "@ + code + "\r\nContent-Type: application/json\r\nContent-Length: "@ + dec(
        encode_utf8(body).len(),
    ) + "\r\n\r\n"@ + body
}

pub fn http_json(code: &str, body: &str) -> (r: String)
    ensures
        r@ == json_response(code@, body@),
{
    let mut r: String = "HTTP/1.1 ".to_owned();
    r.append(code);
    r.append("\r\nContent-Type: application/json\r\nContent-Length: ");
    push_dec(&mut r, body.as_bytes().len() as u64);
    r.append("\r\n\r\n");
    r.append(body);
    r
}

/// What the daemon counts, each modulo 2^64.
#[derive(Clone, Copy, Debug, PartialEq, Eq, Structural)]
pub struct Metrics {
    pub queries_total: u64,
    pub queries_ok: u64,
    pub queries_err: u64,
    pub queries_unauthorized: u64,
    pub bytes_out: u64,
}

/// One counter as Prometheus reads it.
pub open spec fn counter(name: Seq<char>, help: Seq<char>, n: u64) -> Seq<char> {
    "# HELP "@ + name + " "@ + help + "\n# TYPE "@ + name + " counter\n"@ + name + " "@ + dec(
        n as nat,
    ) + "\n"@
}

pub open spec fn metrics_text(m: Metrics) -> Seq<char> {
    counter("blitz_queries_total"@, "Total query attempts"@, m.queries_total) + counter(
        "blitz_queries_ok"@,
        "Successful queries"@,
        m.queries_ok,
    ) + counter("blitz_queries_err"@, "Failed queries"@, m.queries_err) + counter(
        "blitz_queries_unauthorized"@,
        "Auth failures"@,
        m.queries_unauthorized,
    ) + counter("blitz_bytes_out"@, "Response body bytes"@, m.bytes_out)
}

fn push_counter(out: &mut String, name: &str, help: &str, n: u64)
    ensures
        final(out)@ == old(out)@ + counter(name@, help@, n),
{
    out.append("# HELP ");
    out.append(name);
    out.append(" ");
    out.append(help);
    out.append("\n# TYPE ");
    out.append(name);
    out.append(" counter\n");
    out.append(name);
    out.append(" ");
    push_dec(out, n);
    out.append("\n");
    assert(out@ =~= old(out)@ + counter(name@, help@, n));
}

impl Metrics {
    pub fn new() -> (m: Metrics)
        ensures
            m == (Metrics {
                queries_total: 0,
                queries_ok: 0,
                queries_err: 0,
                queries_unauthorized: 0,
                bytes_out: 0,
            }),
    {
        Metrics {
            queries_total: 0,
            queries_ok: 0,
            queries_err: 0,
            queries_unauthorized: 0,
            bytes_out: 0,
        }
    }

    pub fn prometheus(&self) -> (r: String)
        ensures
            r@ == metrics_text(*self),
    {
        let mut r: String = String::new();
        push_counter(&mut r, "blitz_queries_total", "Total query attempts", self.queries_total);
        push_counter(&mut r, "blitz_queries_ok", "Successful queries", self.queries_ok);
        push_counter(&mut r, "blitz_queries_err", "Failed queries", self.queries_err);
        push_counter(
            &mut r,
            "blitz_queries_unauthorized",
            "Auth failures",
            self.queries_unauthorized,
        );
        push_counter(&mut r, "blitz_bytes_out", "Response body bytes", self.bytes_out);
        assert(r@ =~= metrics_text(*self));
        r
    }
}

// ---------------------------------------------------------------------------
// The daemon
// ---------------------------------------------------------------------------

/// What is done about a request.
pub enum Reaction {
    /// It is answered at once.
    Reply(String),
    /// A query is run, and then answered.
    Run(String, usize),
    /// The connection is dropped: the body holds no query.
    Drop,
}

#[verifier::ext_equal]
pub enum ReactionView {
    Reply(Seq<char>),
    Run(Seq<char>, usize),
    Drop,
}

impl View for Reaction {
    type V = ReactionView;

    open spec fn view(&self) -> ReactionView {
        match self {
            Reaction::Reply(t) => ReactionView::Reply(t@),
            Reaction::Run(sql, n) => ReactionView::Run(sql@, *n),
            Reaction::Drop => ReactionView::Drop,
        }
    }
}

pub struct Daemon {
    pub default_workers: usize,
    pub api_token: Option<String>,
    pub warehouse: String,
    pub metrics: Metrics,
}

pub open spec fn health_text(warehouse: Seq<char>) -> Seq<char> {
    json_response(
        "200 OK"@,
        "{\"status\":\"ok\",\"warehouse\":"@ + json_text(warehouse) + "}"@,
    )
}

pub open spec fn metrics_response(m: Metrics) -> Seq<char> {
    "HTTP/1.1 200 OK\r\nContent-Type: text/plain; version=0.0.4\r\nContent-Length: "@ + dec(
        encode_utf8(metrics_text(m)).len(),
    ) + "\r\n\r\n"@ + metrics_text(m)
}

pub open spec fn unauthorized_text() -> Seq<char> {
    json_response(
        "401 Unauthorized"@,
        "{\"status\":\"error\",\"message\":\"unauthorized\"}"@,
    )
}

/// What a daemon does about a request.
pub open spec fn reacts(d: Daemon, req: Seq<char>) -> ReactionView {
    if has_prefix(req, "GET /health"@) {
        ReactionView::Reply(health_text(d.warehouse@))
    } else if has_prefix(req, "GET /metrics"@) {
        ReactionView::Reply(metrics_response(d.metrics))
    } else if !has_prefix(req, "POST /v1/query"@) {
        ReactionView::Reply("HTTP/1.1 404 Not Found\r\nContent-Length: 0\r\n\r\n"@)
    } else if !allowed(req, opt_view(d.api_token)) {
        ReactionView::Reply(unauthorized_text())
    } else {
        match sql_in(body_of(req)) {
            None => ReactionView::Drop,
            Some(sql) => ReactionView::Run(
                sql,
                match workers_in(body_of(req)) {
                    Some(n) => n,
                    None => d.default_workers,
                },
            ),
        }
    }
}

/// What a daemon has counted after a request came in.
pub open spec fn counted(d: Daemon, req: Seq<char>) -> Metrics {
    if has_prefix(req, "GET /health"@) || has_prefix(req, "GET /metrics"@) || !has_prefix(
        req,
        "POST /v1/query"@,
    ) {
        d.metrics
    } else if allowed(req, opt_view(d.api_token)) {
        Metrics { queries_total: d.metrics.queries_total.wrapping_add(1), ..d.metrics }
    } else {
        Metrics {
            queries_total: d.metrics.queries_total.wrapping_add(1),
            queries_unauthorized: d.metrics.queries_unauthorized.wrapping_add(1),
            ..d.metrics
        }
    }
}

pub open spec fn done_body(log: Seq<char>) -> Seq<char> {
    "{\"status\":\"ok\",\"log\":"@ + json_text(log) + "}"@
}

pub open spec fn failed_body(message: Seq<char>) -> Seq<char> {
    "{\"status\":\"error\",\"message\":"@ + json_text(message) + "}"@
}

impl Daemon {
    pub fn new(default_workers: usize, api_token: Option<String>, warehouse: String) -> (d: Daemon)
        ensures
            d.default_workers == default_workers,
            d.api_token == api_token,
            d.warehouse == warehouse,
            d.metrics == (Metrics {
                queries_total: 0,
                queries_ok: 0,
                queries_err: 0,
                queries_unauthorized: 0,
                bytes_out: 0,
            }),
    {
        Daemon { default_workers, api_token, warehouse, metrics: Metrics::new() }
    }

    /// Decides what is done about the text of a request.
    pub fn react(&mut self, req: &str) -> (r: Reaction)
        ensures
            r@ == reacts(*old(self), req@),
            *final(self) == (Daemon { metrics: counted(*old(self), req@), ..*old(self) }),
    {
        if starts_with(req, "GET /health") {
            let mut body: String = "{\"status\":\"ok\",\"warehouse\":".to_owned();
            let w: String = json_escape(self.warehouse.as_str());
            body.append(w.as_str());
            body.append("}");
            return Reaction::Reply(http_json("200 OK", body.as_str()));
        }
        if starts_with(req, "GET /metrics") {
            let body: String = self.metrics.prometheus();
            let mut r: String =
                "HTTP/1.1 200 OK\r\nContent-Type: text/plain; version=0.0.4\r\nContent-Length: ".to_owned();
            push_dec(&mut r, body.as_str().as_bytes().len() as u64);
            r.append("\r\n\r\n");
            r.append(body.as_str());
            return Reaction::Reply(r);
        }
        if !starts_with(req, "POST /v1/query") {
            return Reaction::Reply(
                "HTTP/1.1 404 Not Found\r\nContent-Length: 0\r\n\r\n".to_owned(),
            );
        }
        self.metrics.queries_total = self.metrics.queries_total.wrapping_add(1);
        if !authorized(req, &self.api_token) {
            self.metrics.queries_unauthorized = self.metrics.queries_unauthorized.wrapping_add(1);
            return Reaction::Reply(
                http_json(
                    "401 Unauthorized",
                    "{\"status\":\"error\",\"message\":\"unauthorized\"}",
                ),
            );
        }
        let body: String = read_body(req);
        match parse_json_sql(body.as_str()) {
            None => Reaction::Drop,
            Some((sql, workers)) => {
                let n: usize = match workers {
                    Some(n) => n,
                    None => self.default_workers,
                };
                Reaction::Run(sql, n)
            },
        }
    }

    /// Decides what is done about the bytes of a request.
    pub fn handle_client(&mut self, buf: &[u8]) -> (r: Reaction)
        ensures
            r@ == reacts(*old(self), lossy_text(buf@)),
            *final(self) == (Daemon {
                metrics: counted(*old(self), lossy_text(buf@)),
                ..*old(self)
            }),
    {
        let req: String = from_utf8_lossy(buf);
        self.react(req.as_str())
    }

    /// The answer to a query that ran.
    pub fn done(&mut self, log: &str) -> (r: String)
        ensures
            r@ == json_response("200 OK"@, done_body(log@)),
            *final(self) == (Daemon {
                metrics: Metrics {
                    queries_ok: old(self).metrics.queries_ok.wrapping_add(1),
                    bytes_out: old(self).metrics.bytes_out.wrapping_add(
                        encode_utf8(done_body(log@)).len() as u64,
                    ),
                    ..old(self).metrics
                },
                ..*old(self)
            }),
    {
        let mut body: String = "{\"status\":\"ok\",\"log\":".to_owned();
        let t: String = json_escape(log);
        body.append(t.as_str());
        body.append("}");
        self.metrics.queries_ok = self.metrics.queries_ok.wrapping_add(1);
        self.metrics.bytes_out = self.metrics.bytes_out.wrapping_add(
            body.as_str().as_bytes().len() as u64,
        );
        http_json("200 OK", body.as_str())
    }

    /// The answer to a query that failed.
    pub fn failed(&mut self, message: &str) -> (r: String)
        ensures
            r@ == json_response("500 Internal Server Error"@, failed_body(message@)),
            *final(self) == (Daemon {
                metrics: Metrics {
                    queries_err: old(self).metrics.queries_err.wrapping_add(1),
                    ..old(self).metrics
                },
                ..*old(self)
            }),
    {
        let mut body: String = "{\"status\":\"error\",\"message\":".to_owned();
        let t: String = json_escape(message);
        body.append(t.as_str());
        body.append("}");
        self.metrics.queries_err = self.metrics.queries_err.wrapping_add(1);
        http_json("500 Internal Server Error", body.as_str())
    }
}

/// A query is run only for a request that bears the token asked for.
pub proof fn no_query_without_token(d: Daemon, req: Seq<char>)
    requires
        reacts(d, req) is Run,
    ensures
        d.api_token matches Some(t) ==> token_in(req) == Some(t@),
{
}

} // verus!
