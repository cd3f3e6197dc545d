//! Tokens written out as text, and that they are read back.
use crate::chars::{char_alphabetic, char_numeric, char_space, span_is};
use crate::plan::ast::{decimal, first_token, not_quote, tokens, word_char, TokView};
use crate::text::{dec, dec_int, dec_read_back, dec_value, is_digit};
use vstd::prelude::*;

verus! {

pub open spec fn tok_text(t: TokView) -> Seq<char> {
    match t {
        TokView::Ident(s) => s,
        TokView::Num(n) => dec_int(n as int),
        TokView::Str(s) => seq!['\''] + (s + seq!['\'']),
        TokView::Sym(c) => seq![c],
        TokView::Op(o) => o,
    }
}

/// Whether a character begins an operator.
pub open spec fn op_char(c: char) -> bool {
    c == '>' || c == '<' || c == '=' || c == '!'
}

/// Whether a token can be written so that it is told from others: a name of
/// word characters that does not start with a digit, a text without quotes, an
/// operator of one character or two, or any other single character.
pub open spec fn plain_tok(t: TokView) -> bool {
    match t {
        TokView::Ident(s) => {
            &&& s.len() > 0
            &&& char_alphabetic(s[0]) || s[0] == '_' || s[0] == '*'
            &&& !is_digit(s[0]) && s[0] != '\'' && s[0] != '-' && !char_space(s[0])
            &&& forall|i: int|
                0 <= i < s.len() ==> char_alphabetic(#[trigger] s[i]) || char_numeric(s[i]) || s[i]
                    == '_' || s[i] == '*'
        },
        TokView::Num(n) => true,
        TokView::Str(s) => forall|i: int| 0 <= i < s.len() ==> #[trigger] s[i] != '\'',
        TokView::Sym(c) => !char_alphabetic(c) && c != '_' && c != '*' && !is_digit(c) && c != '\''
            && !op_char(c) && !char_space(c),
        TokView::Op(o) => (o.len() == 1 || o.len() == 2 && o[1] == '=') && op_char(o[0])
            && !char_alphabetic(o[0]),
    }
}

/// Tokens with a space behind each.
pub open spec fn toks_text(ts: Seq<TokView>) -> Seq<char>
    decreases ts.len(),
{
    if ts.len() == 0 {
        Seq::empty()
    } else {
        tok_text(ts[0]) + (seq![' '] + toks_text(ts.skip(1)))
    }
}

proof fn one_token(t: TokView, rest: Seq<char>)
    ensures
        plain_tok(t) && !char_alphabetic(' ') && !char_numeric(' ') ==> first_token(
            tok_text(t) + (seq![' '] + rest),
        ) == Some((t, seq![' '] + rest)) && tok_text(t).len() > 0 && !char_space(tok_text(t)[0]),
{
    if plain_tok(t) && !char_alphabetic(' ') && !char_numeric(' ') {
        let x = seq![' '] + rest;
        let s = tok_text(t) + x;
        match t {
            TokView::Ident(w) => {
                let n = w.len() as int;
                let f = word_char();
                assert forall|i: int| 0 <= i < n implies f(#[trigger] s[i]) by {
                    assert(s[i] == w[i]);
                }
                assert(s[n] == ' ');
                assert(s[0] == w[0]);
                span_is(s, f, n);
                assert(s.take(n) =~= w);
                assert(s.skip(n) =~= x);
            },
            TokView::Num(v) => {
                let d = dec_int(v as int);
                let n = d.len() as int;
                dec_read_back(v);
                let f = decimal();
                if v < 0 {
                    dec_value((-v) as nat);
                    let e = dec((-v) as nat);
                    assert(d[0] == '-');
                    assert(s[0] == '-');
                    assert forall|i: int| 0 <= i < n - 1 implies f(#[trigger] s.skip(1)[i]) by {
                        assert(s.skip(1)[i] == e[i]);
                        assert(is_digit(e[i]));
                    }
                    assert(e.len() > 0);
                    assert(s[1] == e[0]);
                    assert(is_digit(e[0]));
                } else {
                    dec_value(v as nat);
                    assert(is_digit(d[0]));
                    assert(s[0] == d[0]);
                    assert forall|i: int| 0 <= i < n - 1 implies f(#[trigger] s.skip(1)[i]) by {
                        assert(s.skip(1)[i] == d[i + 1]);
                        assert(is_digit(d[i + 1]));
                    }
                }
                assert(s.skip(1)[n - 1] == ' ');
                span_is(s.skip(1), f, n - 1);
                assert(s.take(n) =~= d);
                assert(s.skip(n) =~= x);
            },
            TokView::Str(w) => {
                let n = w.len() as int;
                let f = not_quote();
                let u = s.skip(1);
                assert(s[0] == '\'');
                assert forall|i: int| 0 <= i < n implies f(#[trigger] u[i]) by {
                    assert(u[i] == w[i]);
                }
                assert(u[n] == '\'');
                span_is(u, f, n);
                assert(s.subrange(1, 1 + n) =~= w);
                assert(s.skip(n + 2) =~= x);
            },
            TokView::Sym(c) => {
                assert(s[0] == c);
                assert(s[1] == ' ');
                assert(s.skip(1) =~= x);
            },
            TokView::Op(o) => {
                let n = o.len() as int;
                assert(s[0] == o[0]);
                assert(n == 2 ==> s[1] == '=');
                assert(n == 1 ==> s[1] == ' ');
                assert(s.take(n) =~= o);
                assert(s.skip(n) =~= x);
            },
        }
    }
}

/// Tokens with spaces between them are read back, all of them and in order.
pub proof fn tokens_are_read_as_written(ts: Seq<TokView>)
    ensures
        !char_alphabetic(' ') && !char_numeric(' ') && (forall|i: int|
            0 <= i < ts.len() ==> plain_tok(#[trigger] ts[i])) ==> tokens(toks_text(ts)) == Some(ts),
    decreases ts.len(),
{
    if !char_alphabetic(' ') && !char_numeric(' ') && (forall|i: int|
        0 <= i < ts.len() ==> plain_tok(#[trigger] ts[i])) {
        if ts.len() == 0 {
            assert(ts =~= Seq::empty());
        } else {
            let rest = ts.skip(1);
            assert forall|i: int| 0 <= i < rest.len() implies plain_tok(#[trigger] rest[i]) by {
                assert(rest[i] == ts[i + 1]);
            }
            tokens_are_read_as_written(rest);
            assert(plain_tok(ts[0]));
            one_token(ts[0], toks_text(rest));
            let x = seq![' '] + toks_text(rest);
            let s = toks_text(ts);
            assert(s[0] == tok_text(ts[0])[0]);
            assert(x[0] == ' ');
            assert(x.skip(1) =~= toks_text(rest));
            assert(tokens(x) == Some(rest));
            assert(tokens(s) == Some(seq![ts[0]] + rest));
            assert(seq![ts[0]] + rest =~= ts);
        }
    }
}

} // verus!
