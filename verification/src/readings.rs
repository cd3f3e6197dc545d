//! What is read out of texts: requests, responses, addresses and settings.
use crate::boot::{setting, status_of, trouble, RequestView};
use crate::chars::{
    ascii_lower, char_space, same_word, spaced, span_is, statement, trim, trim_end, trim_end_char,
    trim_start,
};
use crate::meta::config::{before_comma, peers_in};
use crate::plan::print::spelled;
use crate::queryd::{
    allowed, bearer, body_of, counted, digit_run, escape, escaped, first_at, json_text, line_len,
    opt_view, reacts, sql_in, token_in, unquoted, workers_in, Daemon, ReactionView,
};
use crate::store::{before_slash, unended, unrooted, warehouse_of, WarehouseView};
use crate::text::{dec, dec_value, has_prefix, is_digit, path_join};
use vstd::prelude::*;

verus! {

// ---------------------------------------------------------------------------
// Ends of texts
// ---------------------------------------------------------------------------

/// A text without white space at its start is what follows all of it.
pub proof fn a_start_is_trimmed(s: Seq<char>)
    ensures
        exists|n: int|
            0 <= n <= s.len() && trim_start(s) == #[trigger] s.skip(n) && (forall|i: int|
                0 <= i < n ==> char_space(#[trigger] s[i])) && (n < s.len() ==> !char_space(s[n])),
    decreases s.len(),
{
    if s.len() > 0 && char_space(s[0]) {
        let t = s.skip(1);
        a_start_is_trimmed(t);
        let n = choose|n: int|
            0 <= n <= t.len() && trim_start(t) == #[trigger] t.skip(n) && (forall|i: int|
                0 <= i < n ==> char_space(#[trigger] t[i])) && (n < t.len() ==> !char_space(t[n]));
        assert(t.skip(n) =~= s.skip(n + 1));
        assert forall|i: int| 0 <= i < n + 1 implies char_space(#[trigger] s[i]) by {
            if i > 0 {
                assert(s[i] == t[i - 1]);
            }
        }
    } else {
        assert(s.skip(0) =~= s);
    }
}

/// A text without white space at its end is what stands before all of it.
pub proof fn an_end_is_trimmed(s: Seq<char>)
    ensures
        exists|n: int|
            0 <= n <= s.len() && trim_end(s) == #[trigger] s.take(n) && (forall|i: int|
                n <= i < s.len() ==> char_space(#[trigger] s[i])) && (n > 0 ==> !char_space(
                s[n - 1],
            )),
    decreases s.len(),
{
    if s.len() > 0 && char_space(s.last()) {
        let t = s.drop_last();
        an_end_is_trimmed(t);
        let n = choose|n: int|
            0 <= n <= t.len() && trim_end(t) == #[trigger] t.take(n) && (forall|i: int|
                n <= i < t.len() ==> char_space(#[trigger] t[i])) && (n > 0 ==> !char_space(
                t[n - 1],
            ));
        assert(t.take(n) =~= s.take(n));
        assert forall|i: int| n <= i < s.len() implies char_space(#[trigger] s[i]) by {
            if i < t.len() {
                assert(s[i] == t[i]);
            }
        }
    } else {
        assert(s.take(s.len() as int) =~= s);
    }
}

/// A text that neither starts nor ends with white space is trimmed already.
pub proof fn a_trimmed_text_stays(s: Seq<char>)
    requires
        s.len() > 0 ==> !char_space(s[0]) && !char_space(s[s.len() - 1]),
    ensures
        trim(s) == s,
{
}

/// A statement has no semicolon at its end, and one that neither starts nor
/// ends with white space or a semicolon is read as it stands.
pub proof fn a_statement_ends_without_semicolons(s: Seq<char>)
    ensures
        statement(s).len() > 0 ==> statement(s).last() != ';',
        s.len() > 0 && !char_space(s[0]) && !char_space(s.last()) && s.last() != ';' ==> statement(s)
            == s,
{
    no_last(trim(s), ';');
}

proof fn no_last(s: Seq<char>, c: char)
    ensures
        trim_end_char(s, c).len() > 0 ==> trim_end_char(s, c).last() != c,
    decreases s.len(),
{
    if s.len() > 0 && s.last() == c {
        no_last(s.drop_last(), c);
    }
}

/// Slashes at the start of a text are left away, all of them and nothing else.
pub proof fn slashes_before_are_left_away(s: Seq<char>)
    ensures
        exists|n: int|
            0 <= n <= s.len() && unrooted(s) == #[trigger] s.skip(n) && (forall|i: int|
                0 <= i < n ==> #[trigger] s[i] == '/') && (n < s.len() ==> s[n] != '/'),
    decreases s.len(),
{
    if s.len() > 0 && s[0] == '/' {
        let t = s.skip(1);
        slashes_before_are_left_away(t);
        let n = choose|n: int|
            0 <= n <= t.len() && unrooted(t) == #[trigger] t.skip(n) && (forall|i: int|
                0 <= i < n ==> #[trigger] t[i] == '/') && (n < t.len() ==> t[n] != '/');
        assert(t.skip(n) =~= s.skip(n + 1));
        assert forall|i: int| 0 <= i < n + 1 implies #[trigger] s[i] == '/' by {
            if i > 0 {
                assert(s[i] == t[i - 1]);
            }
        }
    } else {
        assert(s.skip(0) =~= s);
    }
}

/// Slashes at the end of a text are left away, all of them and nothing else.
pub proof fn slashes_behind_are_left_away(s: Seq<char>)
    ensures
        exists|n: int|
            0 <= n <= s.len() && unended(s) == #[trigger] s.take(n) && (forall|i: int|
                n <= i < s.len() ==> #[trigger] s[i] == '/') && (n > 0 ==> s[n - 1] != '/'),
    decreases s.len(),
{
    if s.len() > 0 && s.last() == '/' {
        let t = s.drop_last();
        slashes_behind_are_left_away(t);
        let n = choose|n: int|
            0 <= n <= t.len() && unended(t) == #[trigger] t.take(n) && (forall|i: int|
                n <= i < t.len() ==> #[trigger] t[i] == '/') && (n > 0 ==> t[n - 1] != '/');
        assert(t.take(n) =~= s.take(n));
        assert forall|i: int| n <= i < s.len() implies #[trigger] s[i] == '/' by {
            if i < t.len() {
                assert(s[i] == t[i]);
            }
        }
    } else {
        assert(s.take(s.len() as int) =~= s);
    }
}

/// A path of a directory and a name ends in the name, starts with the
/// directory, and has one slash where they meet.
pub proof fn a_path_joins_with_one_slash(dir: Seq<char>, name: Seq<char>)
    ensures
        dir.len() == 0 ==> path_join(dir, name) == name,
        dir.len() > 0 && dir[dir.len() - 1] != '/' ==> path_join(dir, name) == dir + seq!['/'] + name,
        dir.len() > 0 && dir[dir.len() - 1] == '/' ==> path_join(dir, name) == dir + name,
{
    assert(dir.push('/') =~= dir + seq!['/']);
}

// ---------------------------------------------------------------------------
// Addresses
// ---------------------------------------------------------------------------

proof fn slash_first(s: Seq<char>, n: int)
    requires
        0 <= n <= s.len(),
        forall|i: int| 0 <= i < n ==> #[trigger] s[i] != '/',
        n < s.len() ==> s[n] == '/',
    ensures
        before_slash(s) == n,
    decreases s.len(),
{
    if n > 0 {
        assert(s[0] != '/');
        let t = s.skip(1);
        assert forall|i: int| 0 <= i < n - 1 implies #[trigger] t[i] != '/' by {
            assert(t[i] == s[i + 1]);
        }
        slash_first(t, n - 1);
    }
}

/// `s3://`, a bucket, a slash and a prefix name that bucket and that prefix;
/// without a slash the prefix is empty. `file://` and a path name the path,
/// and anything else is a path as it stands.
pub proof fn an_address_names_its_warehouse(bucket: Seq<char>, prefix: Seq<char>, path: Seq<char>)
    requires
        forall|i: int| 0 <= i < bucket.len() ==> #[trigger] bucket[i] != '/',
        prefix.len() > 0 ==> prefix[0] != '/' && prefix[prefix.len() - 1] != '/',
    ensures
        warehouse_of("s3://"@ + (bucket + (seq!['/'] + prefix))) == WarehouseView::S3(
            bucket,
            prefix,
        ),
        warehouse_of("s3://"@ + bucket) == WarehouseView::S3(bucket, Seq::empty()),
        warehouse_of("file://"@ + path) == WarehouseView::Local(path),
        !has_prefix(path, "s3://"@) && !has_prefix(path, "file://"@) ==> warehouse_of(path)
            == WarehouseView::Local(path),
{
    reveal_strlit("s3://");
    reveal_strlit("file://");
    let rest = bucket + (seq!['/'] + prefix);
    let u = "s3://"@ + rest;
    assert(u.take(5) =~= "s3://"@);
    assert(u.skip(5) =~= rest);
    let n = bucket.len() as int;
    assert forall|i: int| 0 <= i < n implies #[trigger] rest[i] != '/' by {
        assert(rest[i] == bucket[i]);
    }
    slash_first(rest, n);
    assert(rest.take(n) =~= bucket);
    assert(rest.skip(n + 1) =~= prefix);
    assert(unrooted(prefix) == prefix);
    assert(unended(prefix) == prefix);
    let v = "s3://"@ + bucket;
    assert(v.take(5) =~= "s3://"@);
    assert(v.skip(5) =~= bucket);
    slash_first(bucket, n);
    let f = "file://"@ + path;
    assert(f.take(7) =~= "file://"@);
    assert(f.skip(7) =~= path);
    assert(f[0] == 'f');
    if has_prefix(f, "s3://"@) {
        assert(f.take(5)[0] == 's');
    }
}

proof fn comma_first(s: Seq<char>, n: int)
    requires
        0 <= n <= s.len(),
        forall|i: int| 0 <= i < n ==> #[trigger] s[i] != ',',
        n < s.len() ==> s[n] == ',',
    ensures
        before_comma(s) == n,
    decreases s.len(),
{
    if n > 0 {
        assert(s[0] != ',');
        let t = s.skip(1);
        assert forall|i: int| 0 <= i < n - 1 implies #[trigger] t[i] != ',' by {
            assert(t[i] == s[i + 1]);
        }
        comma_first(t, n - 1);
    }
}

/// A list of peers starts with the text before its first comma, unless that is
/// empty but for white space or the node itself, and goes on behind it.
pub proof fn a_peer_list_is_read_entry_by_entry(
    p: Seq<char>,
    rest: Seq<char>,
    own: Option<Seq<char>>,
)
    requires
        forall|i: int| 0 <= i < p.len() ==> #[trigger] p[i] != ',',
    ensures
        trim(p).len() > 0 && own != Some(trim(p)) ==> peers_in(p + (seq![','] + rest), own) == seq![
            trim(p),
        ] + peers_in(rest, own) && peers_in(p, own) == seq![trim(p)],
        trim(p).len() == 0 || own == Some(trim(p)) ==> peers_in(p + (seq![','] + rest), own)
            == peers_in(rest, own) && peers_in(p, own) == Seq::<Seq<char>>::empty(),
{
    let s = p + (seq![','] + rest);
    let n = p.len() as int;
    assert forall|i: int| 0 <= i < n implies #[trigger] s[i] != ',' by {
        assert(s[i] == p[i]);
    }
    comma_first(s, n);
    comma_first(p, n);
    assert(s.take(n) =~= p);
    assert(s.skip(n + 1) =~= rest);
    assert(p.take(n) =~= p);
    assert(Seq::<Seq<char>>::empty() + peers_in(rest, own) =~= peers_in(rest, own));
}

// ---------------------------------------------------------------------------
// Settings and statuses
// ---------------------------------------------------------------------------

/// A setting is what follows the key and an equals sign in the first word that
/// starts so.
pub proof fn a_setting_is_the_first_of_its_key(words: Seq<Seq<char>>, key: Seq<char>, from: int)
    requires
        0 <= from <= words.len(),
    ensures
        setting(words, key, from) matches Some(v) ==> exists|i: int|
            from <= i < words.len() && #[trigger] words[i] == key + seq!['='] + v && forall|j: int|
                from <= j < i ==> !has_prefix(#[trigger] words[j], key.push('=')),
        setting(words, key, from) is None ==> forall|j: int|
            from <= j < words.len() ==> !has_prefix(#[trigger] words[j], key.push('=')),
    decreases words.len() - from,
{
    if from < words.len() {
        a_setting_is_the_first_of_its_key(words, key, from + 1);
        if has_prefix(words[from], key.push('=')) {
            let w = words[from];
            let v = w.skip(key.len() as int + 1);
            assert(w.take(key.len() as int + 1) == key.push('='));
            assert(key + seq!['='] + v =~= w) by {
                assert forall|i: int| 0 <= i < w.len() implies (key + seq!['='] + v)[i] == w[i] by {
                    if i <= key.len() {
                        assert(w.take(key.len() as int + 1)[i] == key.push('=')[i]);
                    }
                }
            }
        }
    }
}

/// Words with single spaces between them: the first one is taken off whole.
proof fn first_of_spaced(w: Seq<char>, rest: Seq<char>)
    requires
        w.len() > 0,
        forall|i: int| 0 <= i < w.len() ==> !char_space(#[trigger] w[i]),
    ensures
        spaced(w + (seq![' '] + rest)) == seq![w] + spaced(rest),
{
    let s = w + (seq![' '] + rest);
    let f = |c: char| !char_space(c);
    let n = w.len() as int;
    assert forall|i: int| 0 <= i < n implies f(#[trigger] s[i]) by {
        assert(s[i] == w[i]);
    }
    assert(s[n] == ' ');
    span_is(s, f, n);
    assert(s.take(n) =~= w);
    let t = s.skip(n);
    assert(t =~= seq![' '] + rest);
    assert(t[0] == ' ');
    assert(t.skip(1) =~= rest);
    assert(spaced(t) == spaced(rest));
    assert(s[0] == w[0]);
    assert(spaced(s) == seq![s.take(n)] + spaced(s.skip(n)));
}

/// The status of a response is the number in its second word.
pub proof fn a_status_is_the_second_word(proto: Seq<char>, n: u16, rest: Seq<char>)
    requires
        proto.len() > 0,
        forall|i: int| 0 <= i < proto.len() ==> !char_space(#[trigger] proto[i]),
    ensures
        status_of(proto + (seq![' '] + (dec(n as nat) + (seq![' '] + rest)))) == n,
{
    let d = dec(n as nat);
    dec_value(n as nat);
    assert forall|i: int| 0 <= i < d.len() implies !char_space(#[trigger] d[i]) by {
        assert(is_digit(d[i]));
    }
    first_of_spaced(proto, d + (seq![' '] + rest));
    first_of_spaced(d, rest);
    let w = spaced(proto + (seq![' '] + (d + (seq![' '] + rest))));
    assert(w[1] == d);
    assert(is_digit(d[0]));
}

/// A reply is in order exactly where it came and its status is below 300.
pub proof fn trouble_is_a_status_from_300(r: RequestView, reply: Result<Seq<char>, Seq<char>>)
    ensures
        trouble(r, reply) is None <==> reply is Ok && status_of(reply->Ok_0) < 300,
        reply is Err ==> trouble(r, reply) == Some(reply->Err_0),
{
}

// ---------------------------------------------------------------------------
// Requests
// ---------------------------------------------------------------------------

/// A pattern's place is the first at which it stands.
pub proof fn a_pattern_is_found_where_it_first_stands(s: Seq<char>, pat: Seq<char>, from: int)
    requires
        0 <= from,
    ensures
        first_at(s, pat, from) matches Some(i) ==> from <= i && i + pat.len() <= s.len()
            && s.subrange(i, i + pat.len()) == pat && forall|j: int|
            from <= j < i ==> #[trigger] s.subrange(j, j + pat.len()) != pat,
        first_at(s, pat, from) is None ==> forall|j: int|
            from <= j && j + pat.len() <= s.len() ==> #[trigger] s.subrange(j, j + pat.len()) != pat,
    decreases s.len() + 1 - from,
{
    if from + pat.len() <= s.len() && s.subrange(from, from + pat.len()) != pat {
        a_pattern_is_found_where_it_first_stands(s, pat, from + 1);
    }
}

proof fn unquoted_goes_on(s: Seq<char>, k: int, x: Seq<char>)
    requires
        0 <= k <= s.len(),
        forall|i: int| 0 <= i < k ==> #[trigger] s[i] != '\n',
    ensures
        unquoted(escaped(s, k) + x, false) == s.take(k) + unquoted(x, false),
    decreases k,
{
    if k == 0 {
        assert(escaped(s, 0) + x =~= x);
        assert(s.take(0) + unquoted(x, false) =~= unquoted(x, false));
    } else {
        let c = s[k - 1];
        let e = escape(c);
        let y = e + x;
        assert(escaped(s, k) + x =~= escaped(s, k - 1) + y);
        unquoted_goes_on(s, k - 1, y);
        if c == '\\' || c == '"' {
            assert(y[0] == '\\');
            assert(y.skip(1)[0] == c);
            assert(y.skip(1).skip(1) =~= x);
            assert(unquoted(y, false) == unquoted(y.skip(1), true));
            assert(unquoted(y.skip(1), true) == seq![c] + unquoted(x, false));
        } else {
            assert(y[0] == c);
            assert(y.skip(1) =~= x);
        }
        assert(unquoted(y, false) == seq![c] + unquoted(x, false));
        assert(s.take(k) =~= s.take(k - 1).push(c));
        assert(s.take(k - 1) + (seq![c] + unquoted(x, false)) =~= s.take(k) + unquoted(x, false));
    }
}

/// A text without line ends that was written as a JSON string is read back, up
/// to its closing quote.
pub proof fn a_quoted_text_is_read_back(s: Seq<char>, rest: Seq<char>)
    requires
        forall|i: int| 0 <= i < s.len() ==> #[trigger] s[i] != '\n',
    ensures
        json_text(s)[0] == '"',
        unquoted(json_text(s).skip(1) + rest, false) == s,
{
    let n = s.len() as int;
    let x = seq!['"'] + rest;
    assert(json_text(s).skip(1) + rest =~= escaped(s, n) + x);
    unquoted_goes_on(s, n, x);
    assert(s.take(n) + unquoted(x, false) =~= s);
}

/// The query in a body is the text behind the member of that name.
pub proof fn a_body_holds_its_query(s: Seq<char>, rest: Seq<char>)
    requires
        forall|i: int| 0 <= i < s.len() ==> #[trigger] s[i] != '\n',
    ensures
        sql_in("{\"sql\":"@ + (json_text(s) + rest)) == Some(s),
{
    reveal_strlit("{\"sql\":");
    reveal_strlit("\"sql\"");
    let pat = "\"sql\""@;
    let b = "{\"sql\":"@ + (json_text(s) + rest);
    assert(b.subrange(0, 5)[0] == '{');
    assert(b.subrange(0, 5) != pat);
    assert(b.subrange(1, 6) =~= pat);
    assert(first_at(b, pat, 1) == Some(1int));
    assert(first_at(b, pat, 0) == Some(1int));
    let a = b.skip(6);
    assert(a[0] == ':');
    assert(trim_start(a) == a);
    let c = a.skip(1);
    assert(c =~= json_text(s) + rest);
    assert(c[0] == '"');
    assert(trim_start(c) == c);
    a_quoted_text_is_read_back(s, rest);
    assert(c.skip(1) =~= json_text(s).skip(1) + rest);
}

/// The body of a request is what stands behind its first empty line, up to the
/// next if there is one.
pub proof fn a_body_is_behind_the_empty_line(req: Seq<char>, i: int)
    requires
        0 <= i,
        i + 4 <= req.len(),
        req.subrange(i, i + 4) == "\r\n\r\n"@,
        forall|j: int| 0 <= j < i ==> #[trigger] req.subrange(j, j + 4) != "\r\n\r\n"@,
        forall|j: int|
            i + 4 <= j && j + 4 <= req.len() ==> #[trigger] req.subrange(j, j + 4) != "\r\n\r\n"@,
    ensures
        body_of(req) == req.skip(i + 4),
{
    reveal_strlit("\r\n\r\n");
    let p = "\r\n\r\n"@;
    a_pattern_is_found_where_it_first_stands(req, p, 0);
    a_pattern_is_found_where_it_first_stands(req, p, i + 4);
    let f = first_at(req, p, 0);
    if f is None {
        assert(req.subrange(i, i + 4) != p);
    } else if f->0 < i {
        assert(req.subrange(f->0, f->0 + 4) != p);
    } else if f->0 > i {
        assert(req.subrange(i, i + 4) != p);
    }
    let g = first_at(req, p, i + 4);
    if g is Some {
        assert(req.subrange(g->0, g->0 + 4) != p);
    }
}

proof fn line_first(s: Seq<char>, n: int)
    requires
        0 <= n <= s.len(),
        forall|i: int| 0 <= i < n ==> #[trigger] s[i] != '\n',
        n < s.len() ==> s[n] == '\n',
    ensures
        line_len(s) == n,
    decreases s.len(),
{
    if n > 0 {
        assert(s[0] != '\n');
        let t = s.skip(1);
        assert forall|i: int| 0 <= i < n - 1 implies #[trigger] t[i] != '\n' by {
            assert(t[i] == s[i + 1]);
        }
        line_first(t, n - 1);
    }
}

/// A request's token is that of its first line that bears one.
pub proof fn a_token_is_on_the_first_line_that_bears_one(line: Seq<char>, rest: Seq<char>)
    requires
        forall|i: int| 0 <= i < line.len() ==> #[trigger] line[i] != '\n',
    ensures
        bearer(line) is Some ==> token_in(line + (seq!['\n'] + rest)) == bearer(line),
        bearer(line) is None ==> token_in(line + (seq!['\n'] + rest)) == token_in(rest),
        token_in(line) == bearer(line),
{
    let s = line + (seq!['\n'] + rest);
    let n = line.len() as int;
    assert forall|i: int| 0 <= i < n implies #[trigger] s[i] != '\n' by {
        assert(s[i] == line[i]);
    }
    line_first(s, n);
    line_first(line, n);
    assert(s.take(n) =~= line);
    assert(line.take(n) =~= line);
    assert(s.skip(n + 1) =~= rest);
}

/// A header `Authorization: Bearer` in any case bears the token behind it.
pub proof fn a_header_bears_its_token(a: Seq<char>, b: Seq<char>, t: Seq<char>)
    requires
        spelled(a, "AUTHORIZATION:"@),
        spelled(b, "BEARER "@),
        t.len() > 0,
        !char_space(t[0]),
        !char_space(t[t.len() - 1]),
    ensures
        bearer(a + (seq![' '] + (b + t))) == Some(t),
{
    reveal_strlit("AUTHORIZATION:");
    reveal_strlit("BEARER ");
    reveal_strlit("authorization:");
    reveal_strlit("bearer ");
    let line = a + (seq![' '] + (b + t));
    assert(line.take(14) =~= a);
    assert(same_word(a, "authorization:"@)) by {
        assert forall|i: int| 0 <= i < a.len() implies ascii_lower(#[trigger] a[i]) == ascii_lower(
            "authorization:"@[i],
        ) by {
            assert(a[i] == "AUTHORIZATION:"@[i] || a[i] as int == "AUTHORIZATION:"@[i] as int + 32);
        }
    }
    let r = line.skip(14);
    assert(r =~= seq![' '] + (b + t));
    let m = b + t;
    assert(r.skip(1) =~= m);
    assert(b[0] == 'B' || b[0] == 'b');
    assert(m[0] == b[0]);
    assert(trim_start(r) == trim_start(m));
    assert(trim_start(m) == m);
    assert(m.last() == t.last());
    assert(trim(r) == m);
    assert(m.take(7) =~= b);
    assert(same_word(b, "bearer "@)) by {
        assert forall|i: int| 0 <= i < b.len() implies ascii_lower(#[trigger] b[i]) == ascii_lower(
            "bearer "@[i],
        ) by {
            assert(b[i] == "BEARER "@[i] || b[i] as int == "BEARER "@[i] as int + 32);
        }
    }
    assert(m.skip(7) =~= t);
    a_trimmed_text_stays(t);
}

/// A request may query exactly where no token is asked for or it bears the one
/// that is; every attempt is counted once, and a refused one as refused.
pub proof fn an_attempt_is_counted_once(d: Daemon, req: Seq<char>)
    ensures
        d.api_token is None ==> allowed(req, opt_view(d.api_token)),
        d.api_token matches Some(t) ==> (allowed(req, opt_view(d.api_token)) <==> token_in(req)
            == Some(t@)),
        ({
            let m = counted(d, req);
            let query = has_prefix(req, "POST /v1/query"@);
            let ok = allowed(req, opt_view(d.api_token));
            &&& !query ==> m == d.metrics
            &&& query ==> m.queries_total == if d.metrics.queries_total == u64::MAX {
                0
            } else {
                d.metrics.queries_total + 1
            }
            &&& query && ok ==> m.queries_unauthorized == d.metrics.queries_unauthorized
            &&& query && !ok ==> m.queries_unauthorized == if d.metrics.queries_unauthorized
                == u64::MAX {
                0
            } else {
                d.metrics.queries_unauthorized + 1
            }
            &&& m.queries_ok == d.metrics.queries_ok && m.queries_err == d.metrics.queries_err
                && m.bytes_out == d.metrics.bytes_out
        }),
{
    reveal_strlit("POST /v1/query");
    reveal_strlit("GET /health");
    reveal_strlit("GET /metrics");
    if has_prefix(req, "POST /v1/query"@) {
        assert(req.take(14)[0] == 'P');
        assert(req[0] == 'P');
        if has_prefix(req, "GET /health"@) {
            assert(req.take(11)[0] == 'G');
        }
        if has_prefix(req, "GET /metrics"@) {
            assert(req.take(12)[0] == 'G');
        }
    }
}

/// A query request that may query and holds a query is run, with the workers
/// that it asks for or else the usual number; one that may not is refused.
pub proof fn a_query_request_is_run_or_refused(d: Daemon, req: Seq<char>)
    requires
        has_prefix(req, "POST /v1/query"@),
    ensures
        !allowed(req, opt_view(d.api_token)) ==> reacts(d, req) is Reply,
        allowed(req, opt_view(d.api_token)) ==> match sql_in(body_of(req)) {
            None => reacts(d, req) is Drop,
            Some(sql) => reacts(d, req) matches ReactionView::Run(s, n) && s == sql && (
            crate::queryd::workers_in(body_of(req)) is None ==> n == d.default_workers) && (
            crate::queryd::workers_in(body_of(req)) matches Some(k) ==> n == k),
        },
{
    reveal_strlit("POST /v1/query");
    reveal_strlit("GET /health");
    reveal_strlit("GET /metrics");
    assert(req.take(14)[0] == 'P');
    assert(req[0] == 'P');
    if has_prefix(req, "GET /health"@) {
        assert(req.take(11)[0] == 'G');
    }
    if has_prefix(req, "GET /metrics"@) {
        assert(req.take(12)[0] == 'G');
    }
}

/// The number of workers in a body is the digits behind the member of that
/// name.
pub proof fn a_body_holds_its_workers(n: usize, rest: Seq<char>)
    requires
        rest.len() > 0 ==> !is_digit(rest[0]),
    ensures
        workers_in("{\"workers\":"@ + (dec(n as nat) + rest)) == Some(n),
{
    reveal_strlit("{\"workers\":");
    reveal_strlit("\"workers\"");
    reveal_strlit(":");
    let pat = "\"workers\""@;
    let d = dec(n as nat);
    let b = "{\"workers\":"@ + (d + rest);
    dec_value(n as nat);
    assert(b.subrange(0, 9)[0] == '{');
    assert(b.subrange(0, 9) != pat);
    assert(b.subrange(1, 10) =~= pat);
    assert(first_at(b, pat, 1) == Some(1int));
    assert(first_at(b, pat, 0) == Some(1int));
    a_pattern_is_found_where_it_first_stands(b, ":"@, 1);
    let j = first_at(b, ":"@, 1);
    let one = ":"@.len() as int;
    assert(b[10] == ':');
    assert(b.subrange(10, 10 + one) =~= ":"@);
    if j is Some && j->0 < 10 {
        assert(b.subrange(j->0, j->0 + one)[0] == ':');
        assert(b[j->0] == ':');
    }
    assert(j == Some(10int));
    let t = b.skip(11);
    assert(t =~= d + rest);
    digits_run(d, rest);
    assert(t.take(d.len() as int) =~= d);
    assert(is_digit(d[0]));
}

proof fn digits_run(d: Seq<char>, rest: Seq<char>)
    requires
        forall|i: int| 0 <= i < d.len() ==> is_digit(#[trigger] d[i]),
        rest.len() > 0 ==> !is_digit(rest[0]),
    ensures
        digit_run(d + rest) == d.len(),
    decreases d.len(),
{
    if d.len() == 0 {
        assert(d + rest =~= rest);
    } else {
        assert(is_digit(d[0]));
        assert((d + rest)[0] == d[0]);
        let t = d.skip(1);
        assert((d + rest).skip(1) =~= t + rest);
        assert forall|i: int| 0 <= i < t.len() implies is_digit(#[trigger] t[i]) by {
            assert(t[i] == d[i + 1]);
        }
        digits_run(t, rest);
    }
}

} // verus!
