//! A writer of values as JSON text, given as ghost definitions, and the proof
//! that reading what it writes gives back the value.
use vstd::prelude::*;

use crate::error::ParseError;
use crate::parser::{
    elements_tokens, member_tokens, members_tokens, parse_chars, value_tokens,
    value_tokens_round_trip,
};
use crate::token::{
    TokenModel, all_digits, count_dots, digits_value, integer_value, is_decimal_text, is_digit,
    is_numeral_char, lex, lex_numeral_text, lex_prefix_then, numeral, string_end, unsigned_part,
    word_false, word_null, word_true,
};
use crate::value::{Json, Number, Value};

verus! {

broadcast use vstd::std_specs::vec::group_vec_axioms;

pub open spec fn digit_char(d: int) -> char {
    seq!['0', '1', '2', '3', '4', '5', '6', '7', '8', '9'][d]
}

/// The decimal digits of a natural number, without leading zeros.
pub open spec fn nat_text(n: nat) -> Seq<char>
    decreases n,
{
    if n < 10 {
        seq![digit_char(n as int)]
    } else {
        nat_text(n / 10) + seq![digit_char((n % 10) as int)]
    }
}

/// An integer in decimal, with a `-` when it is negative.
pub open spec fn int_text(i: int) -> Seq<char> {
    if i < 0 {
        seq!['-'] + nat_text((-i) as nat)
    } else {
        nat_text(i as nat)
    }
}

/// Text that a quoted string can hold as it is.
pub open spec fn plain_text(s: Seq<char>) -> bool {
    forall|k: int| 0 <= k < s.len() ==> #[trigger] s[k] != '"' && s[k] != '\0'
}

/// A value that the writer can write so that it reads back: its strings and
/// keys are plain text, and its decimals are decimal numerals that start
/// with a digit or `-`.
pub open spec fn writable(v: Value) -> bool
    decreases v,
{
    match v {
        Value::String(s) => plain_text(s@),
        Value::Number(Number::Float(f)) => is_decimal_text(f@) && f@[0] != '.',
        Value::Array(a) => elements_writable(a@),
        Value::Object(m) => members_writable(m@),
        _ => true,
    }
}

pub open spec fn elements_writable(s: Seq<Value>) -> bool
    decreases s,
{
    s.len() > 0 ==> writable(s[0]) && elements_writable(s.drop_first())
}

pub open spec fn members_writable(s: Seq<(String, Value)>) -> bool
    decreases s,
{
    s.len() > 0 ==> plain_text(s[0].0@) && writable(s[0].1) && members_writable(s.drop_first())
}

/// A string in quotes, then a space.
pub open spec fn quoted(s: Seq<char>) -> Seq<char> {
    seq!['"'] + s + seq!['"', ' ']
}

/// A value as JSON text; every lexeme is followed by a space.
pub open spec fn write_value(v: Value) -> Seq<char>
    decreases v,
{
    match v {
        Value::String(s) => quoted(s@),
        Value::Number(Number::Integer(i)) => int_text(i as int) + seq![' '],
        Value::Number(Number::Float(f)) => f@ + seq![' '],
        Value::Boolean(b) => if b {
            word_true() + seq![' ']
        } else {
            word_false() + seq![' ']
        },
        Value::Null => word_null() + seq![' '],
        Value::Array(a) => if a@.len() == 0 {
            seq!['[', ' ', ']', ' ']
        } else {
            seq!['[', ' '] + write_elements(a@) + seq![']', ' ']
        },
        Value::Object(m) => if m@.len() == 0 {
            seq!['{', ' ', '}', ' ']
        } else {
            seq!['{', ' '] + write_members(m@) + seq!['}', ' ']
        },
    }
}

pub open spec fn write_elements(s: Seq<Value>) -> Seq<char>
    decreases s,
{
    if s.len() == 0 {
        Seq::empty()
    } else if s.len() == 1 {
        write_value(s[0])
    } else {
        write_value(s[0]) + seq![',', ' '] + write_elements(s.drop_first())
    }
}

pub open spec fn write_member(m: (String, Value)) -> Seq<char>
    decreases m,
{
    quoted(m.0@) + seq![':', ' '] + write_value(m.1)
}

pub open spec fn write_members(s: Seq<(String, Value)>) -> Seq<char>
    decreases s,
{
    if s.len() == 0 {
        Seq::empty()
    } else if s.len() == 1 {
        write_member(s[0])
    } else {
        write_member(s[0]) + seq![',', ' '] + write_members(s.drop_first())
    }
}

/// `p` lexes to `ts`, is not empty, holds no NUL and ends in a space.
pub open spec fn lexes_to(p: Seq<char>, ts: Seq<TokenModel>) -> bool {
    &&& lex(p) == Ok::<Seq<TokenModel>, ParseError>(ts)
    &&& p.len() > 0
    &&& p.last() == ' '
    &&& forall|m: int| 0 <= m < p.len() ==> #[trigger] p[m] != '\0'
}

proof fn lemma_lexes_to_concat(p: Seq<char>, ps: Seq<TokenModel>, q: Seq<char>, qs: Seq<TokenModel>)
    requires
        lexes_to(p, ps),
        lexes_to(q, qs),
    ensures
        lexes_to(p + q, ps + qs),
{
    lex_prefix_then(p, q);
    let pq = p + q;
    assert forall|m: int| 0 <= m < pq.len() implies #[trigger] pq[m] != '\0' by {
        if m < p.len() {
            assert(pq[m] == p[m]);
        } else {
            assert(pq[m] == q[m - p.len()]);
        }
    }
    assert(pq.last() == q.last());
}

proof fn lemma_digit_char(d: int)
    requires
        0 <= d < 10,
    ensures
        is_digit(digit_char(d)),
        digit_char(d) as int - '0' as int == d,
{
    let t = seq!['0', '1', '2', '3', '4', '5', '6', '7', '8', '9'];
    assert(digit_char(d) == t[d]);
    if d == 0 {
        assert(t[0] == '0');
    } else if d == 1 {
        assert(t[1] == '1');
    } else if d == 2 {
        assert(t[2] == '2');
    } else if d == 3 {
        assert(t[3] == '3');
    } else if d == 4 {
        assert(t[4] == '4');
    } else if d == 5 {
        assert(t[5] == '5');
    } else if d == 6 {
        assert(t[6] == '6');
    } else if d == 7 {
        assert(t[7] == '7');
    } else if d == 8 {
        assert(t[8] == '8');
    } else {
        assert(t[9] == '9');
    }
}

proof fn lemma_nat_text(n: nat)
    ensures
        nat_text(n).len() > 0,
        all_digits(nat_text(n)),
        digits_value(nat_text(n)) == n,
    decreases n,
{
    let t = nat_text(n);
    if n < 10 {
        lemma_digit_char(n as int);
        assert(t.drop_last() == Seq::<char>::empty());
        assert(t.last() == digit_char(n as int));
        assert(digits_value(Seq::<char>::empty()) == 0);
        assert(digits_value(t) == digits_value(t.drop_last()) * 10 + (t.last() as int - '0' as int));
    } else {
        lemma_nat_text(n / 10);
        lemma_digit_char((n % 10) as int);
        let h = nat_text(n / 10);
        assert(t.drop_last() == h);
        assert(t.last() == digit_char((n % 10) as int));
        assert forall|k: int| 0 <= k < t.len() implies is_digit(#[trigger] t[k]) by {
            if k < h.len() {
                assert(t[k] == h[k]);
            }
        }
        assert(n == (n / 10) * 10 + n % 10);
        assert(digits_value(t) == digits_value(h) * 10 + (t.last() as int - '0' as int));
    }
}

proof fn lemma_numeral_lexes(s: Seq<char>, n: crate::value::NumberModel)
    requires
        s.len() > 0,
        s[0] == '-' || is_digit(s[0]),
        forall|m: int| 0 <= m < s.len() ==> is_numeral_char(#[trigger] s[m]),
        numeral(s) == Ok::<crate::value::NumberModel, ParseError>(n),
    ensures
        lexes_to(s + seq![' '], seq![TokenModel::Number(n)]),
{
    lex_numeral_text(s);
    let sp = seq![' '];
    assert(!crate::token::numerals_meet(s, sp)) by {
        assert(sp[0] == ' ');
    }
    crate::token::lemma_lex_prefix(s, sp, 0);
    let cs = s + sp;
    assert(cs[s.len() as int] == ' ');
    assert(crate::token::lex_from(cs, s.len() as int + 1) == Ok::<Seq<TokenModel>, ParseError>(
        Seq::empty(),
    ));
    assert(crate::token::lex_from(cs, s.len() as int) == Ok::<Seq<TokenModel>, ParseError>(
        Seq::empty(),
    ));
    assert(seq![TokenModel::Number(n)] + Seq::<TokenModel>::empty() == seq![TokenModel::Number(n)]);
    assert forall|m: int| 0 <= m < cs.len() implies #[trigger] cs[m] != '\0' by {
        if m < s.len() {
            assert(cs[m] == s[m]);
            assert(is_numeral_char(s[m]));
        }
    }
}

proof fn lemma_integer_lexes(i: i64)
    ensures
        lexes_to(
            int_text(i as int) + seq![' '],
            seq![TokenModel::Number(crate::value::NumberModel::Integer(i as int))],
        ),
{
    let s = int_text(i as int);
    if i < 0 {
        lemma_nat_text((-i) as nat);
        let d = nat_text((-i) as nat);
        assert(s.drop_first() == d);
        assert(unsigned_part(s) == d);
        assert(integer_value(s) == -(-i));
        assert forall|m: int| 0 <= m < s.len() implies is_numeral_char(#[trigger] s[m]) by {
            if m > 0 {
                assert(s[m] == d[m - 1]);
                assert(is_digit(d[m - 1]));
            }
        }
    } else {
        lemma_nat_text(i as nat);
        assert(unsigned_part(s) == s) by {
            assert(is_digit(s[0]));
        }
        assert forall|m: int| 0 <= m < s.len() implies is_numeral_char(#[trigger] s[m]) by {
            assert(is_digit(s[m]));
        }
        assert(is_digit(s[0]));
    }
    lex_numeral_text(s);
    lemma_numeral_lexes(s, crate::value::NumberModel::Integer(i as int));
}

proof fn lemma_punct_lexes(c: char, t: TokenModel)
    requires
        (c == '[' && t == TokenModel::ArrayOpen) || (c == ']' && t == TokenModel::ArrayClose) || (c
            == '{' && t == TokenModel::CurlyOpen) || (c == '}' && t == TokenModel::CurlyClose) || (c
            == ',' && t == TokenModel::Comma) || (c == ':' && t == TokenModel::Colon),
    ensures
        lexes_to(seq![c, ' '], seq![t]),
{
    let cs = seq![c, ' '];
    assert(crate::token::lex_from(cs, 2) == Ok::<Seq<TokenModel>, ParseError>(Seq::empty()));
    assert(crate::token::lex_from(cs, 1) == Ok::<Seq<TokenModel>, ParseError>(Seq::empty()));
    assert(seq![t] + Seq::<TokenModel>::empty() == seq![t]);
}

proof fn lemma_word_lexes(w: Seq<char>, t: TokenModel)
    requires
        (w == word_true() && t == TokenModel::Boolean(true)) || (w == word_false() && t
            == TokenModel::Boolean(false)) || (w == word_null() && t == TokenModel::Null),
    ensures
        lexes_to(w + seq![' '], seq![t]),
{
    reveal_with_fuel(crate::token::word_error, 6);
    let cs = w + seq![' '];
    let n = w.len() as int;
    assert(cs[n] == ' ');
    assert forall|k: int| 0 <= k < n implies cs[k] == w[k] by {}
    assert(crate::token::word_error(cs, 0, w, 0) is None);
    assert(crate::token::lex_from(cs, n + 1) == Ok::<Seq<TokenModel>, ParseError>(Seq::empty()));
    assert(crate::token::lex_from(cs, n) == Ok::<Seq<TokenModel>, ParseError>(Seq::empty()));
    assert(crate::token::lex_from(cs, 0) == crate::token::lex_word(cs, 0, w, t));
    assert(seq![t] + Seq::<TokenModel>::empty() == seq![t]);
}

proof fn lemma_string_end_plain(cs: Seq<char>, j: int, e: int)
    requires
        0 <= j <= e < cs.len(),
        cs[e] == '"',
        forall|k: int| j <= k < e ==> #[trigger] cs[k] != '"',
    ensures
        string_end(cs, j) == e,
    decreases e - j,
{
    if j < e {
        lemma_string_end_plain(cs, j + 1, e);
    }
}

proof fn lemma_quoted_lexes(s: Seq<char>)
    requires
        plain_text(s),
    ensures
        lexes_to(
            quoted(s),
            seq![TokenModel::Quotes, TokenModel::String(s), TokenModel::Quotes],
        ),
{
    let cs = quoted(s);
    let n = s.len() as int;
    assert(cs[0] == '"');
    assert(cs[n + 1] == '"');
    assert(cs[n + 2] == ' ');
    assert forall|k: int| 1 <= k < n + 1 implies #[trigger] cs[k] != '"' by {
        assert(cs[k] == s[k - 1]);
    }
    lemma_string_end_plain(cs, 1, n + 1);
    assert(cs.subrange(1, n + 1) == s);
    assert(crate::token::lex_from(cs, n + 3) == Ok::<Seq<TokenModel>, ParseError>(Seq::empty()));
    assert(crate::token::lex_from(cs, n + 2) == Ok::<Seq<TokenModel>, ParseError>(Seq::empty()));
    let toks = seq![TokenModel::Quotes, TokenModel::String(s), TokenModel::Quotes];
    assert(toks + Seq::<TokenModel>::empty() == toks);
    assert forall|m: int| 0 <= m < cs.len() implies #[trigger] cs[m] != '\0' by {
        if 1 <= m < n + 1 {
            assert(cs[m] == s[m - 1]);
        }
    }
}

proof fn lemma_decimal_lexes(f: Seq<char>)
    requires
        is_decimal_text(f),
        f[0] != '.',
    ensures
        lexes_to(f + seq![' '], seq![TokenModel::Number(crate::value::NumberModel::Float(f))]),
{
    let u = unsigned_part(f);
    assert forall|m: int| 0 <= m < f.len() implies is_numeral_char(#[trigger] f[m]) by {
        if f[0] == '-' && m > 0 {
            assert(f[m] == u[m - 1]);
        } else if f[0] != '-' {
            assert(f[m] == u[m]);
        }
    }
    if f[0] != '-' {
        assert(is_digit(u[0]) || u[0] == '.');
    }
    assert(count_dots(u) != 0);
    lemma_numeral_lexes(f, crate::value::NumberModel::Float(f));
}

proof fn lemma_write_value(v: Value)
    requires
        writable(v),
    ensures
        lexes_to(write_value(v), value_tokens(v)),
    decreases v, 1int,
{
    match v {
        Value::String(s) => {
            lemma_quoted_lexes(s@);
        },
        Value::Number(Number::Integer(i)) => {
            lemma_integer_lexes(i);
        },
        Value::Number(Number::Float(f)) => {
            lemma_decimal_lexes(f@);
        },
        Value::Boolean(b) => {
            if b {
                lemma_word_lexes(word_true(), TokenModel::Boolean(true));
            } else {
                lemma_word_lexes(word_false(), TokenModel::Boolean(false));
            }
        },
        Value::Null => {
            lemma_word_lexes(word_null(), TokenModel::Null);
        },
        Value::Array(a) => {
            lemma_punct_lexes('[', TokenModel::ArrayOpen);
            lemma_punct_lexes(']', TokenModel::ArrayClose);
            if a@.len() == 0 {
                lemma_lexes_to_concat(
                    seq!['[', ' '],
                    seq![TokenModel::ArrayOpen],
                    seq![']', ' '],
                    seq![TokenModel::ArrayClose],
                );
                assert(seq!['[', ' '] + seq![']', ' '] == seq!['[', ' ', ']', ' ']);
                assert(seq![TokenModel::ArrayOpen] + seq![TokenModel::ArrayClose] == seq![
                    TokenModel::ArrayOpen,
                    TokenModel::ArrayClose,
                ]);
            } else {
                lemma_write_elements(a@);
                lemma_lexes_to_concat(
                    seq!['[', ' '],
                    seq![TokenModel::ArrayOpen],
                    write_elements(a@),
                    elements_tokens(a@),
                );
                lemma_lexes_to_concat(
                    seq!['[', ' '] + write_elements(a@),
                    seq![TokenModel::ArrayOpen] + elements_tokens(a@),
                    seq![']', ' '],
                    seq![TokenModel::ArrayClose],
                );
            }
        },
        Value::Object(m) => {
            lemma_punct_lexes('{', TokenModel::CurlyOpen);
            lemma_punct_lexes('}', TokenModel::CurlyClose);
            if m@.len() == 0 {
                lemma_lexes_to_concat(
                    seq!['{', ' '],
                    seq![TokenModel::CurlyOpen],
                    seq!['}', ' '],
                    seq![TokenModel::CurlyClose],
                );
                assert(seq!['{', ' '] + seq!['}', ' '] == seq!['{', ' ', '}', ' ']);
                assert(seq![TokenModel::CurlyOpen] + seq![TokenModel::CurlyClose] == seq![
                    TokenModel::CurlyOpen,
                    TokenModel::CurlyClose,
                ]);
            } else {
                lemma_write_members(m@);
                lemma_lexes_to_concat(
                    seq!['{', ' '],
                    seq![TokenModel::CurlyOpen],
                    write_members(m@),
                    members_tokens(m@),
                );
                lemma_lexes_to_concat(
                    seq!['{', ' '] + write_members(m@),
                    seq![TokenModel::CurlyOpen] + members_tokens(m@),
                    seq!['}', ' '],
                    seq![TokenModel::CurlyClose],
                );
            }
        },
    }
}

proof fn lemma_write_elements(s: Seq<Value>)
    requires
        s.len() > 0,
        elements_writable(s),
    ensures
        lexes_to(write_elements(s), elements_tokens(s)),
    decreases s, 0int,
{
    lemma_write_value(s[0]);
    if s.len() > 1 {
        lemma_write_elements(s.drop_first());
        lemma_punct_lexes(',', TokenModel::Comma);
        lemma_lexes_to_concat(
            write_value(s[0]),
            value_tokens(s[0]),
            seq![',', ' '],
            seq![TokenModel::Comma],
        );
        lemma_lexes_to_concat(
            write_value(s[0]) + seq![',', ' '],
            value_tokens(s[0]) + seq![TokenModel::Comma],
            write_elements(s.drop_first()),
            elements_tokens(s.drop_first()),
        );
    }
}

proof fn lemma_write_member(m: (String, Value))
    requires
        plain_text(m.0@),
        writable(m.1),
    ensures
        lexes_to(write_member(m), member_tokens(m)),
    decreases m, 1int,
{
    lemma_quoted_lexes(m.0@);
    lemma_punct_lexes(':', TokenModel::Colon);
    lemma_write_value(m.1);
    let kt = seq![TokenModel::Quotes, TokenModel::String(m.0@), TokenModel::Quotes];
    lemma_lexes_to_concat(quoted(m.0@), kt, seq![':', ' '], seq![TokenModel::Colon]);
    lemma_lexes_to_concat(
        quoted(m.0@) + seq![':', ' '],
        kt + seq![TokenModel::Colon],
        write_value(m.1),
        value_tokens(m.1),
    );
    assert(kt + seq![TokenModel::Colon] == seq![
        TokenModel::Quotes,
        TokenModel::String(m.0@),
        TokenModel::Quotes,
        TokenModel::Colon,
    ]);
}

proof fn lemma_write_members(s: Seq<(String, Value)>)
    requires
        s.len() > 0,
        members_writable(s),
    ensures
        lexes_to(write_members(s), members_tokens(s)),
    decreases s, 0int,
{
    lemma_write_member(s[0]);
    if s.len() > 1 {
        lemma_write_members(s.drop_first());
        lemma_punct_lexes(',', TokenModel::Comma);
        lemma_lexes_to_concat(
            write_member(s[0]),
            member_tokens(s[0]),
            seq![',', ' '],
            seq![TokenModel::Comma],
        );
        lemma_lexes_to_concat(
            write_member(s[0]) + seq![',', ' '],
            member_tokens(s[0]) + seq![TokenModel::Comma],
            write_members(s.drop_first()),
            members_tokens(s.drop_first()),
        );
    }
}

/// Writing a value as JSON text and reading the text back gives the same tree.
pub proof fn text_round_trip(v: Value)
    requires
        writable(v),
    ensures
        parse_chars(write_value(v)) == Ok::<Json, ParseError>(v.model()),
{
    lemma_write_value(v);
    value_tokens_round_trip(v);
}

} // verus!
