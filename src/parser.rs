use vstd::prelude::*;

use crate::error::ParseError;
use crate::reader::{JsonReader, decoded_chars};
use crate::token::{
    JsonTokenizer, Token, TokenModel, copy_number, count_dots, integer_value, is_decimal_text,
    is_digit, is_integer_text, is_numeral_char, is_whitespace, lex, lex_from, lex_numeral_text, prepend,
    numerals_meet, tokens_model, unsigned_part, whitespace_between_tokens,
};
use crate::value::{
    Json, NumberModel, Value, keys_unique, members_model, members_well_formed, values_model,
    values_well_formed,
};

verus! {

broadcast use vstd::std_specs::vec::group_vec_axioms;

/// The value that starts at token `i`, with the index just past it.
pub open spec fn parse_value(ts: Seq<TokenModel>, i: int) -> Result<(Json, int), ParseError>
    decreases ts.len() - i, 0int,
{
    if i < 0 || i >= ts.len() {
        Err(ParseError::UnexpectedEndOfInput)
    } else {
        match ts[i] {
            TokenModel::CurlyOpen => match parse_object(ts, i + 1) {
                Ok((m, j)) => Ok((Json::Object(m), j)),
                Err(e) => Err(e),
            },
            TokenModel::ArrayOpen => match parse_array(ts, i + 1) {
                Ok((vs, j)) => Ok((Json::Array(vs), j)),
                Err(e) => Err(e),
            },
            TokenModel::Quotes => match parse_string(ts, i + 1) {
                Ok(s) => Ok((Json::String(s), i + 3)),
                Err(e) => Err(e),
            },
            TokenModel::Number(n) => Ok((Json::Number(n), i + 1)),
            TokenModel::Boolean(b) => Ok((Json::Boolean(b), i + 1)),
            TokenModel::Null => Ok((Json::Null, i + 1)),
            _ => Err(ParseError::UnexpectedToken),
        }
    }
}

/// The text of a quoted string whose opening quote stands just before token
/// `i`: a `String` token, then the closing `Quotes`.
pub open spec fn parse_string(ts: Seq<TokenModel>, i: int) -> Result<Seq<char>, ParseError> {
    if i < 0 || i >= ts.len() {
        Err(ParseError::UnexpectedEndOfInput)
    } else if !(ts[i] is String) {
        Err(ParseError::UnexpectedToken)
    } else if i + 1 >= ts.len() {
        Err(ParseError::UnexpectedEndOfInput)
    } else if !(ts[i + 1] is Quotes) {
        Err(ParseError::UnexpectedToken)
    } else {
        Ok(ts[i]->String_0)
    }
}

/// The elements of an array whose `[` stands just before token `i`.
pub open spec fn parse_array(ts: Seq<TokenModel>, i: int) -> Result<(Seq<Json>, int), ParseError>
    decreases ts.len() - i, 2int,
{
    if 0 <= i < ts.len() && ts[i] is ArrayClose {
        Ok((Seq::empty(), i + 1))
    } else {
        parse_elements(ts, i, Seq::empty())
    }
}

/// Elements from token `i` on, after the elements `acc` already read.
pub open spec fn parse_elements(ts: Seq<TokenModel>, i: int, acc: Seq<Json>) -> Result<
    (Seq<Json>, int),
    ParseError,
>
    decreases ts.len() - i, 1int,
{
    match parse_value(ts, i) {
        Err(e) => Err(e),
        Ok((v, j)) => if j <= i || j >= ts.len() {
            Err(ParseError::UnexpectedEndOfInput)
        } else if ts[j] is Comma {
            parse_elements(ts, j + 1, acc.push(v))
        } else if ts[j] is ArrayClose {
            Ok((acc.push(v), j + 1))
        } else {
            Err(ParseError::UnexpectedToken)
        },
    }
}

/// The members of an object whose `{` stands just before token `i`.
pub open spec fn parse_object(ts: Seq<TokenModel>, i: int) -> Result<
    (Map<Seq<char>, Json>, int),
    ParseError,
>
    decreases ts.len() - i, 2int,
{
    if 0 <= i < ts.len() && ts[i] is CurlyClose {
        Ok((Map::empty(), i + 1))
    } else {
        parse_members(ts, i, Map::empty())
    }
}

/// Members from token `i` on, added to the map `acc`: a later member
/// replaces an earlier one with the same key.
pub open spec fn parse_members(ts: Seq<TokenModel>, i: int, acc: Map<Seq<char>, Json>) -> Result<
    (Map<Seq<char>, Json>, int),
    ParseError,
>
    decreases ts.len() - i, 1int,
{
    if i < 0 || i >= ts.len() {
        Err(ParseError::UnexpectedEndOfInput)
    } else if !(ts[i] is Quotes) {
        Err(ParseError::UnexpectedToken)
    } else {
        match parse_string(ts, i + 1) {
            Err(e) => Err(e),
            Ok(key) => if i + 3 >= ts.len() {
                Err(ParseError::UnexpectedEndOfInput)
            } else if !(ts[i + 3] is Colon) {
                Err(ParseError::UnexpectedToken)
            } else {
                match parse_value(ts, i + 4) {
                    Err(e) => Err(e),
                    Ok((v, j)) => if j <= i || j >= ts.len() {
                        Err(ParseError::UnexpectedEndOfInput)
                    } else if ts[j] is Comma {
                        parse_members(ts, j + 1, acc.insert(key, v))
                    } else if ts[j] is CurlyClose {
                        Ok((acc.insert(key, v), j + 1))
                    } else {
                        Err(ParseError::UnexpectedToken)
                    },
                }
            },
        }
    }
}

/// The value that a token sequence starts with; tokens after it are ignored.
pub open spec fn parse_tokens(ts: Seq<TokenModel>) -> Result<Json, ParseError> {
    match parse_value(ts, 0) {
        Ok((v, _)) => Ok(v),
        Err(e) => Err(e),
    }
}

/// The value of a text.
pub open spec fn parse_chars(cs: Seq<char>) -> Result<Json, ParseError> {
    match lex(cs) {
        Ok(ts) => parse_tokens(ts),
        Err(e) => Err(e),
    }
}

/// The value of a UTF-8 document.
pub open spec fn parse_json(bytes: Seq<u8>) -> Result<Json, ParseError> {
    parse_chars(decoded_chars(bytes))
}


proof fn lemma_values_push(s: Seq<Value>, v: Value)
    ensures
        values_model(s.push(v)) == values_model(s).push(v.model()),
{
    assert(s.push(v).drop_last() == s);
}

proof fn lemma_members_push(s: Seq<(String, Value)>, x: (String, Value))
    ensures
        members_model(s.push(x)) == members_model(s).insert(x.0@, x.1.model()),
{
    assert(s.push(x).drop_last() == s);
}

proof fn lemma_members_well_formed_update(s: Seq<(String, Value)>, idx: int, x: (String, Value))
    requires
        members_well_formed(s),
        x.1.well_formed(),
        0 <= idx < s.len(),
    ensures
        members_well_formed(s.update(idx, x)),
    decreases s.len(),
{
    let t = s.update(idx, x);
    if idx == s.len() - 1 {
        assert(t.drop_last() == s.drop_last());
    } else {
        lemma_members_well_formed_update(s.drop_last(), idx, x);
        assert(t.drop_last() == s.drop_last().update(idx, x));
    }
}

/// Replacing the member with a given key in a list of unique keys is an
/// insert into the map that the list stands for.
proof fn lemma_members_update(s: Seq<(String, Value)>, idx: int, x: (String, Value))
    requires
        keys_unique(s),
        0 <= idx < s.len(),
        s[idx].0@ == x.0@,
    ensures
        members_model(s.update(idx, x)) == members_model(s).insert(x.0@, x.1.model()),
    decreases s.len(),
{
    let t = s.update(idx, x);
    if idx == s.len() - 1 {
        assert(t.drop_last() == s.drop_last());
        assert(members_model(t) == members_model(s).insert(x.0@, x.1.model()));
    } else {
        let d = s.drop_last();
        assert(t.drop_last() == d.update(idx, x));
        assert(keys_unique(d));
        lemma_members_update(d, idx, x);
        assert(s.last().0@ != x.0@);
        assert(members_model(t) == members_model(s).insert(x.0@, x.1.model()));
    }
}

/// `n` arrays, each the only element of the one around it.
pub open spec fn nested_arrays(n: nat) -> Json
    decreases n,
{
    if n <= 1 {
        Json::Array(Seq::empty())
    } else {
        Json::Array(seq![nested_arrays((n - 1) as nat)])
    }
}

/// How deeply arrays nest in a value: an array is one deeper than its
/// deepest element.
pub open spec fn array_depth(j: Json) -> nat
    decreases j,
{
    match j {
        Json::Array(vs) => 1 + max_array_depth(vs),
        _ => 0,
    }
}

pub open spec fn max_array_depth(vs: Seq<Json>) -> nat
    decreases vs,
{
    if vs.len() == 0 {
        0
    } else {
        let d = array_depth(vs.last());
        let e = max_array_depth(vs.drop_last());
        if d > e {
            d
        } else {
            e
        }
    }
}

/// `n` opening brackets followed by `n` closing ones.
pub open spec fn brackets(n: nat) -> Seq<char> {
    Seq::new(n, |k: int| '[') + Seq::new(n, |k: int| ']')
}

proof fn lemma_parse_nested(ts: Seq<TokenModel>, i: int, n: nat)
    requires
        n >= 1,
        0 <= i,
        i + 2 * n <= ts.len(),
        forall|k: int| i <= k < i + n ==> ts[k] is ArrayOpen,
        forall|k: int| i + n <= k < i + 2 * n ==> ts[k] is ArrayClose,
    ensures
        parse_value(ts, i) == Ok::<(Json, int), ParseError>((nested_arrays(n), i + 2 * n)),
    decreases n,
{
    assert(ts[i] is ArrayOpen);
    if n == 1 {
        assert(ts[i + 1] is ArrayClose);
        assert(parse_array(ts, i + 1) == Ok::<(Seq<Json>, int), ParseError>(
            (Seq::empty(), i + 2),
        ));
    } else {
        lemma_parse_nested(ts, i + 1, (n - 1) as nat);
        assert(ts[i + 1] is ArrayOpen);
        let j = i + 2 * n - 1;
        assert(ts[j] is ArrayClose);
        assert(Seq::<Json>::empty().push(nested_arrays((n - 1) as nat)) == seq![
            nested_arrays((n - 1) as nat),
        ]);
        assert(parse_elements(ts, i + 1, Seq::empty()) == Ok::<(Seq<Json>, int), ParseError>(
            (seq![nested_arrays((n - 1) as nat)], i + 2 * n),
        ));
    }
}

proof fn lemma_lex_brackets(cs: Seq<char>, k: int)
    requires
        0 <= k <= cs.len(),
        forall|m: int| 0 <= m < cs.len() ==> #[trigger] cs[m] == '[' || cs[m] == ']',
    ensures
        lex_from(cs, k) == Ok::<Seq<TokenModel>, ParseError>(
            Seq::new(
                (cs.len() - k) as nat,
                |m: int|
                    if cs[k + m] == '[' {
                        TokenModel::ArrayOpen
                    } else {
                        TokenModel::ArrayClose
                    },
            ),
        ),
    decreases cs.len() - k,
{
    if k < cs.len() {
        lemma_lex_brackets(cs, k + 1);
        let t = if cs[k] == '[' {
            TokenModel::ArrayOpen
        } else {
            TokenModel::ArrayClose
        };
        assert(lex_from(cs, k) == prepend(seq![t], lex_from(cs, k + 1)));
        assert(Seq::new(
            (cs.len() - k) as nat,
            |m: int|
                if cs[k + m] == '[' {
                    TokenModel::ArrayOpen
                } else {
                    TokenModel::ArrayClose
                },
        ) == seq![t] + Seq::new(
            (cs.len() - (k + 1)) as nat,
            |m: int|
                if cs[k + 1 + m] == '[' {
                    TokenModel::ArrayOpen
                } else {
                    TokenModel::ArrayClose
                },
        ));
    } else {
        assert(Seq::new(
            0,
            |m: int|
                if cs[k + m] == '[' {
                    TokenModel::ArrayOpen
                } else {
                    TokenModel::ArrayClose
                },
        ) == Seq::<TokenModel>::empty());
    }
}

proof fn lemma_nested_depth(n: nat)
    requires
        n >= 1,
    ensures
        array_depth(nested_arrays(n)) == n,
    decreases n,
{
    if n > 1 {
        lemma_nested_depth((n - 1) as nat);
        let inner = seq![nested_arrays((n - 1) as nat)];
        assert(inner.drop_last() == Seq::<Json>::empty());
        assert(inner.last() == nested_arrays((n - 1) as nat));
        assert(max_array_depth(Seq::<Json>::empty()) == 0);
        assert(max_array_depth(inner) == n - 1);
        assert(nested_arrays(n) == Json::Array(inner));
    } else {
        assert(nested_arrays(n) == Json::Array(Seq::empty()));
        assert(max_array_depth(Seq::<Json>::empty()) == 0);
    }
}

/// Arrays nested `n` deep read back as exactly that tree, whose depth is `n`.
pub proof fn nested_arrays_parse(n: nat)
    requires
        n >= 1,
    ensures
        parse_chars(brackets(n)) == Ok::<Json, ParseError>(nested_arrays(n)),
        array_depth(nested_arrays(n)) == n,
{
    let cs = brackets(n);
    assert forall|m: int| 0 <= m < cs.len() implies #[trigger] cs[m] == '[' || cs[m] == ']' by {
        if m < n {
            assert(cs[m] == '[');
        } else {
            assert(cs[m] == ']');
        }
    }
    lemma_lex_brackets(cs, 0);
    let ts = Seq::new(
        (cs.len() - 0) as nat,
        |m: int|
            if cs[0 + m] == '[' {
                TokenModel::ArrayOpen
            } else {
                TokenModel::ArrayClose
            },
    );
    assert forall|k: int| 0 <= k < n implies #[trigger] ts[k] is ArrayOpen by {
        assert(cs[k] == '[');
    }
    assert forall|k: int| n <= k < 2 * n implies #[trigger] ts[k] is ArrayClose by {
        assert(cs[k] == ']');
    }
    lemma_parse_nested(ts, 0, n);
    lemma_nested_depth(n);
}

/// An integer numeral alone, in the range of `i64`, reads as the integer that
/// its digits denote, negated after a leading `-`.
pub proof fn integer_numeral_parse(s: Seq<char>)
    requires
        is_integer_text(s),
        i64::MIN <= integer_value(s) <= i64::MAX,
    ensures
        parse_chars(s) == Ok::<Json, ParseError>(
            Json::Number(NumberModel::Integer(integer_value(s))),
        ),
{
    let u = unsigned_part(s);
    assert forall|m: int| 0 <= m < s.len() implies is_numeral_char(#[trigger] s[m]) by {
        if s[0] == '-' && m > 0 {
            assert(s[m] == u[m - 1]);
        } else if s[0] != '-' {
            assert(s[m] == u[m]);
        }
    }
    if s[0] != '-' {
        assert(is_digit(u[0]));
    }
    lex_numeral_text(s);
}

/// A decimal numeral alone that starts with a digit or `-` reads as a
/// decimal that keeps its text.
pub proof fn decimal_numeral_parse(s: Seq<char>)
    requires
        is_decimal_text(s),
        s[0] != '.',
    ensures
        parse_chars(s) == Ok::<Json, ParseError>(Json::Number(NumberModel::Float(s))),
{
    let u = unsigned_part(s);
    assert forall|m: int| 0 <= m < s.len() implies is_numeral_char(#[trigger] s[m]) by {
        if s[0] == '-' && m > 0 {
            assert(s[m] == u[m - 1]);
        } else if s[0] != '-' {
            assert(s[m] == u[m]);
        }
    }
    if s[0] != '-' {
        assert(is_digit(u[0]) || u[0] == '.');
    }
    assert(count_dots(u) != 0);
    lex_numeral_text(s);
}

/// Whitespace between two texts, where the first lexes on its own and no two
/// numerals meet, does not change the value read.
pub proof fn whitespace_keeps_value(a: Seq<char>, w: Seq<char>, b: Seq<char>)
    requires
        lex(a) is Ok,
        forall|m: int| 0 <= m < a.len() ==> #[trigger] a[m] != '\0',
        forall|m: int| 0 <= m < w.len() ==> is_whitespace(#[trigger] w[m]),
        !numerals_meet(a, b),
    ensures
        parse_chars(a + w + b) == parse_chars(a + b),
{
    whitespace_between_tokens(a, w, b);
}

/// The value that a token for a number, a boolean or null stands for.
pub open spec fn scalar_model(t: TokenModel) -> Json {
    match t {
        TokenModel::Number(n) => Json::Number(n),
        TokenModel::Boolean(b) => Json::Boolean(b),
        _ => Json::Null,
    }
}

pub open spec fn is_scalar_token(t: TokenModel) -> bool {
    t is Number || t is Boolean || t is Null
}

/// The tokens of an object with two members.
pub open spec fn two_member_object(k1: Seq<char>, t1: TokenModel, k2: Seq<char>, t2: TokenModel) -> Seq<
    TokenModel,
> {
    seq![
        TokenModel::CurlyOpen,
        TokenModel::Quotes,
        TokenModel::String(k1),
        TokenModel::Quotes,
        TokenModel::Colon,
        t1,
        TokenModel::Comma,
        TokenModel::Quotes,
        TokenModel::String(k2),
        TokenModel::Quotes,
        TokenModel::Colon,
        t2,
        TokenModel::CurlyClose,
    ]
}

/// Of two members with the same key, the later one is kept.
pub proof fn duplicate_key_last_wins(k: Seq<char>, t1: TokenModel, t2: TokenModel)
    requires
        is_scalar_token(t1),
        is_scalar_token(t2),
    ensures
        parse_tokens(two_member_object(k, t1, k, t2)) == Ok::<Json, ParseError>(
            Json::Object(map![k => scalar_model(t2)]),
        ),
{
    let ts = two_member_object(k, t1, k, t2);
    assert(parse_value(ts, 5) == Ok::<(Json, int), ParseError>((scalar_model(t1), 6)));
    assert(parse_value(ts, 11) == Ok::<(Json, int), ParseError>((scalar_model(t2), 12)));
    assert(parse_string(ts, 2) == Ok::<Seq<char>, ParseError>(k));
    assert(parse_string(ts, 8) == Ok::<Seq<char>, ParseError>(k));
    let m1 = Map::<Seq<char>, Json>::empty().insert(k, scalar_model(t1));
    assert(parse_members(ts, 7, m1) == Ok::<(Map<Seq<char>, Json>, int), ParseError>(
        (m1.insert(k, scalar_model(t2)), 13),
    ));
    assert(parse_members(ts, 1, Map::empty()) == parse_members(ts, 7, m1));
    assert(m1.insert(k, scalar_model(t2)) == map![k => scalar_model(t2)]);
}

/// The tokens that write out a value, elements and members in their order.
pub open spec fn value_tokens(v: Value) -> Seq<TokenModel>
    decreases v,
{
    match v {
        Value::String(s) => seq![TokenModel::Quotes, TokenModel::String(s@), TokenModel::Quotes],
        Value::Number(n) => seq![TokenModel::Number(n@)],
        Value::Boolean(b) => seq![TokenModel::Boolean(b)],
        Value::Null => seq![TokenModel::Null],
        Value::Array(a) => if a@.len() == 0 {
            seq![TokenModel::ArrayOpen, TokenModel::ArrayClose]
        } else {
            seq![TokenModel::ArrayOpen] + elements_tokens(a@) + seq![TokenModel::ArrayClose]
        },
        Value::Object(m) => if m@.len() == 0 {
            seq![TokenModel::CurlyOpen, TokenModel::CurlyClose]
        } else {
            seq![TokenModel::CurlyOpen] + members_tokens(m@) + seq![TokenModel::CurlyClose]
        },
    }
}

/// The tokens of a list of elements, separated by commas.
pub open spec fn elements_tokens(s: Seq<Value>) -> Seq<TokenModel>
    decreases s,
{
    if s.len() == 0 {
        Seq::empty()
    } else if s.len() == 1 {
        value_tokens(s[0])
    } else {
        value_tokens(s[0]) + seq![TokenModel::Comma] + elements_tokens(s.drop_first())
    }
}

/// The tokens of one member: its quoted key, a colon and its value.
pub open spec fn member_tokens(m: (String, Value)) -> Seq<TokenModel>
    decreases m,
{
    seq![TokenModel::Quotes, TokenModel::String(m.0@), TokenModel::Quotes, TokenModel::Colon]
        + value_tokens(m.1)
}

/// The tokens of a list of members, separated by commas.
pub open spec fn members_tokens(s: Seq<(String, Value)>) -> Seq<TokenModel>
    decreases s,
{
    if s.len() == 0 {
        Seq::empty()
    } else if s.len() == 1 {
        member_tokens(s[0])
    } else {
        member_tokens(s[0]) + seq![TokenModel::Comma] + members_tokens(s.drop_first())
    }
}

/// The members of `s` added in order to the map `acc`.
pub open spec fn insert_members(acc: Map<Seq<char>, Json>, s: Seq<(String, Value)>) -> Map<
    Seq<char>,
    Json,
>
    decreases s.len(),
{
    if s.len() == 0 {
        acc
    } else {
        insert_members(acc.insert(s[0].0@, s[0].1.model()), s.drop_first())
    }
}

proof fn lemma_value_tokens_nonempty(v: Value)
    ensures
        value_tokens(v).len() >= 1,
{
}

proof fn lemma_values_model_first(s: Seq<Value>)
    requires
        s.len() > 0,
    ensures
        values_model(s) == seq![s[0].model()] + values_model(s.drop_first()),
    decreases s.len(),
{
    if s.len() == 1 {
        assert(s.drop_last() == Seq::<Value>::empty());
        assert(s.drop_first() == Seq::<Value>::empty());
        assert(values_model(Seq::<Value>::empty()) == Seq::<Json>::empty());
        assert(values_model(s) == Seq::<Json>::empty().push(s[0].model()));
    } else {
        lemma_values_model_first(s.drop_last());
        assert(s.drop_last().drop_first() == s.drop_first().drop_last());
        assert(s.drop_first().last() == s.last());
        assert(s.drop_last()[0] == s[0]);
    }
}

proof fn lemma_insert_members_last(acc: Map<Seq<char>, Json>, s: Seq<(String, Value)>)
    requires
        s.len() > 0,
    ensures
        insert_members(acc, s) == insert_members(acc, s.drop_last()).insert(
            s.last().0@,
            s.last().1.model(),
        ),
    decreases s.len(),
{
    if s.len() > 1 {
        let a2 = acc.insert(s[0].0@, s[0].1.model());
        lemma_insert_members_last(a2, s.drop_first());
        assert(s.drop_first().drop_last() == s.drop_last().drop_first());
        assert(s.drop_first().last() == s.last());
        assert(s.drop_last()[0] == s[0]);
        assert(insert_members(acc, s) == insert_members(a2, s.drop_first()));
        assert(insert_members(acc, s.drop_last()) == insert_members(
            a2,
            s.drop_last().drop_first(),
        ));
    } else {
        assert(s.drop_first().len() == 0);
        assert(s.drop_last().len() == 0);
        assert(s.last() == s[0]);
        let a2 = acc.insert(s[0].0@, s[0].1.model());
        assert(insert_members(acc, s) == insert_members(a2, s.drop_first()));
        assert(insert_members(a2, s.drop_first()) == a2);
        assert(insert_members(acc, s.drop_last()) == acc);
    }
}

proof fn lemma_insert_members_model(s: Seq<(String, Value)>)
    ensures
        insert_members(Map::empty(), s) == members_model(s),
    decreases s.len(),
{
    if s.len() > 0 {
        lemma_insert_members_last(Map::empty(), s);
        lemma_insert_members_model(s.drop_last());
    }
}

proof fn lemma_value_round_trip(v: Value, ts: Seq<TokenModel>, i: int)
    requires
        0 <= i,
        i + value_tokens(v).len() <= ts.len(),
        ts.subrange(i, i + value_tokens(v).len()) == value_tokens(v),
    ensures
        parse_value(ts, i) == Ok::<(Json, int), ParseError>(
            (v.model(), i + value_tokens(v).len()),
        ),
    decreases v, 0int,
{
    let vt = value_tokens(v);
    let n = vt.len() as int;
    assert forall|k: int| 0 <= k < n implies ts[i + k] == #[trigger] vt[k] by {
        assert(ts.subrange(i, i + n)[k] == ts[i + k]);
    }
    match v {
        Value::String(s) => {
            assert(ts[i] == vt[0] && ts[i + 1] == vt[1] && ts[i + 2] == vt[2]);
        },
        Value::Number(x) => {
            assert(ts[i] == vt[0]);
        },
        Value::Boolean(b) => {
            assert(ts[i] == vt[0]);
        },
        Value::Null => {
            assert(ts[i] == vt[0]);
        },
        Value::Array(a) => {
            assert(ts[i] == vt[0]);
            if a@.len() == 0 {
                assert(ts[i + 1] == vt[1]);
                assert(values_model(a@) == Seq::<Json>::empty());
                assert(parse_array(ts, i + 1) == Ok::<(Seq<Json>, int), ParseError>(
                    (Seq::empty(), i + 2),
                ));
            } else {
                let et = elements_tokens(a@);
                assert(et =~= vt.subrange(1, n - 1));
                assert(ts.subrange(i + 1, i + 1 + et.len()) =~= et);
                assert(ts[i + n - 1] == vt[n - 1]);
                lemma_elements_round_trip(a@, ts, i + 1, Seq::empty());
                assert(Seq::<Json>::empty() + values_model(a@) == values_model(a@));
                lemma_value_tokens_nonempty(a@[0]);
                assert(vt[1] == et[0]);
                assert(!(ts[i + 1] is ArrayClose)) by {
                    lemma_first_token_opens(a@[0]);
                    if a@.len() > 1 {
                        assert(et[0] == value_tokens(a@[0])[0]);
                    }
                }
            }
        },
        Value::Object(m) => {
            assert(ts[i] == vt[0]);
            if m@.len() == 0 {
                assert(ts[i + 1] == vt[1]);
                assert(members_model(m@) == Map::<Seq<char>, Json>::empty());
            } else {
                let mt = members_tokens(m@);
                assert(mt =~= vt.subrange(1, n - 1));
                assert(ts.subrange(i + 1, i + 1 + mt.len()) =~= mt);
                assert(ts[i + n - 1] == vt[n - 1]);
                lemma_members_round_trip(m@, ts, i + 1, Map::empty());
                lemma_insert_members_model(m@);
                assert(vt[1] == mt[0]);
                if m@.len() > 1 {
                    assert(mt[0] == member_tokens(m@[0])[0]);
                }
            }
        },
    }
}

proof fn lemma_first_token_opens(v: Value)
    ensures
        !(value_tokens(v)[0] is ArrayClose),
        !(value_tokens(v)[0] is CurlyClose),
{
}

proof fn lemma_elements_round_trip(s: Seq<Value>, ts: Seq<TokenModel>, i: int, acc: Seq<Json>)
    requires
        s.len() > 0,
        0 <= i,
        i + elements_tokens(s).len() < ts.len(),
        ts.subrange(i, i + elements_tokens(s).len()) == elements_tokens(s),
        ts[i + elements_tokens(s).len()] is ArrayClose,
    ensures
        parse_elements(ts, i, acc) == Ok::<(Seq<Json>, int), ParseError>(
            (acc + values_model(s), i + elements_tokens(s).len() + 1),
        ),
    decreases s, 0int,
{
    let et = elements_tokens(s);
    let first = value_tokens(s[0]);
    let l0 = first.len() as int;
    lemma_value_tokens_nonempty(s[0]);
    lemma_values_model_first(s);
    if s.len() == 1 {
        assert(et == first);
        lemma_value_round_trip(s[0], ts, i);
        assert(s.drop_first().len() == 0);
        assert(values_model(s.drop_first()) == Seq::<Json>::empty());
        assert(acc.push(s[0].model()) == acc + values_model(s));
    } else {
        let rest = elements_tokens(s.drop_first());
        assert(et == first + seq![TokenModel::Comma] + rest);
        assert(ts.subrange(i, i + l0) =~= first) by {
            assert forall|k: int| 0 <= k < l0 implies ts.subrange(i, i + l0)[k] == first[k] by {
                assert(ts.subrange(i, i + et.len())[k] == et[k]);
            }
        }
        lemma_value_round_trip(s[0], ts, i);
        assert(ts[i + l0] == et[l0]);
        assert(ts.subrange(i + l0 + 1, i + l0 + 1 + rest.len()) =~= rest) by {
            assert forall|k: int| 0 <= k < rest.len() implies ts.subrange(
                i + l0 + 1,
                i + l0 + 1 + rest.len(),
            )[k] == rest[k] by {
                assert(ts.subrange(i, i + et.len())[l0 + 1 + k] == et[l0 + 1 + k]);
            }
        }
        lemma_elements_round_trip(s.drop_first(), ts, i + l0 + 1, acc.push(s[0].model()));
        assert(acc.push(s[0].model()) + values_model(s.drop_first()) == acc + values_model(s));
    }
}

proof fn lemma_members_round_trip(
    s: Seq<(String, Value)>,
    ts: Seq<TokenModel>,
    i: int,
    acc: Map<Seq<char>, Json>,
)
    requires
        s.len() > 0,
        0 <= i,
        i + members_tokens(s).len() < ts.len(),
        ts.subrange(i, i + members_tokens(s).len()) == members_tokens(s),
        ts[i + members_tokens(s).len()] is CurlyClose,
    ensures
        parse_members(ts, i, acc) == Ok::<(Map<Seq<char>, Json>, int), ParseError>(
            (insert_members(acc, s), i + members_tokens(s).len() + 1),
        ),
    decreases s, 0int,
{
    let mt = members_tokens(s);
    let first = member_tokens(s[0]);
    let l0 = first.len() as int;
    let vt = value_tokens(s[0].1);
    lemma_value_tokens_nonempty(s[0].1);
    assert(ts.subrange(i, i + l0) =~= first) by {
        assert forall|k: int| 0 <= k < l0 implies ts.subrange(i, i + l0)[k] == first[k] by {
            assert(ts.subrange(i, i + mt.len())[k] == mt[k]);
            if s.len() > 1 {
                assert(mt == first + seq![TokenModel::Comma] + members_tokens(s.drop_first()));
            }
        }
    }
    assert(ts[i] == first[0] && ts[i + 1] == first[1] && ts[i + 2] == first[2] && ts[i + 3]
        == first[3]) by {
        assert(ts.subrange(i, i + l0)[0] == ts[i]);
        assert(ts.subrange(i, i + l0)[1] == ts[i + 1]);
        assert(ts.subrange(i, i + l0)[2] == ts[i + 2]);
        assert(ts.subrange(i, i + l0)[3] == ts[i + 3]);
    }
    assert(parse_string(ts, i + 1) == Ok::<Seq<char>, ParseError>(s[0].0@));
    assert(ts.subrange(i + 4, i + 4 + vt.len()) =~= vt) by {
        assert forall|k: int| 0 <= k < vt.len() implies ts.subrange(i + 4, i + 4 + vt.len())[k]
            == vt[k] by {
            assert(ts.subrange(i, i + l0)[4 + k] == first[4 + k]);
        }
    }
    lemma_value_round_trip(s[0].1, ts, i + 4);
    let acc2 = acc.insert(s[0].0@, s[0].1.model());
    if s.len() == 1 {
        assert(mt == first);
        assert(s.drop_first().len() == 0);
        assert(insert_members(acc, s) == insert_members(acc2, s.drop_first()));
    } else {
        let rest = members_tokens(s.drop_first());
        assert(mt == first + seq![TokenModel::Comma] + rest);
        assert(ts[i + l0] == mt[l0]) by {
            assert(ts.subrange(i, i + mt.len())[l0] == mt[l0]);
        }
        assert(ts.subrange(i + l0 + 1, i + l0 + 1 + rest.len()) =~= rest) by {
            assert forall|k: int| 0 <= k < rest.len() implies ts.subrange(
                i + l0 + 1,
                i + l0 + 1 + rest.len(),
            )[k] == rest[k] by {
                assert(ts.subrange(i, i + mt.len())[l0 + 1 + k] == mt[l0 + 1 + k]);
            }
        }
        lemma_members_round_trip(s.drop_first(), ts, i + l0 + 1, acc2);
    }
}

/// Writing a value out as tokens and reading them back gives the same tree.
pub proof fn value_tokens_round_trip(v: Value)
    ensures
        parse_tokens(value_tokens(v)) == Ok::<Json, ParseError>(v.model()),
{
    let ts = value_tokens(v);
    assert(ts.subrange(0, ts.len() as int) == ts);
    lemma_value_round_trip(v, ts, 0);
}

/// Reads JSON documents into values.
pub struct JsonParser;

impl JsonParser {
    /// The value that starts at token `i`, with the index just past it.
    fn get_value(tokens: &Vec<Token>, i: usize) -> (r: Result<(Value, usize), ParseError>)
        ensures
            match r {
                Ok((v, j)) => parse_value(tokens_model(tokens@), i as int) == Ok::<
                    (Json, int),
                    ParseError,
                >((v.model(), j as int)) && i < j <= tokens.len() && v.well_formed(),
                Err(e) => parse_value(tokens_model(tokens@), i as int) == Err::<
                    (Json, int),
                    ParseError,
                >(e),
            },
        decreases tokens.len() - i, 0int,
    {
        let ghost ts = tokens_model(tokens@);
        if i >= tokens.len() {
            return Err(ParseError::UnexpectedEndOfInput);
        }
        assert(ts[i as int] == tokens@[i as int]@);
        match &tokens[i] {
            Token::CurlyOpen => match Self::process_object(tokens, i + 1) {
                Ok((m, j)) => Ok((Value::Object(m), j)),
                Err(e) => Err(e),
            },
            Token::ArrayOpen => match Self::process_array(tokens, i + 1) {
                Ok((vs, j)) => Ok((Value::Array(vs), j)),
                Err(e) => Err(e),
            },
            Token::Quotes => match Self::process_string(tokens, i + 1) {
                Ok(s) => Ok((Value::String(s), i + 3)),
                Err(e) => Err(e),
            },
            Token::Number(n) => Ok((Value::Number(copy_number(n)), i + 1)),
            Token::Boolean(b) => Ok((Value::Boolean(*b), i + 1)),
            Token::Null => Ok((Value::Null, i + 1)),
            _ => Err(ParseError::UnexpectedToken),
        }
    }

    /// The text of a quoted string whose opening quote stands just before token `i`.
    fn process_string(tokens: &Vec<Token>, i: usize) -> (r: Result<String, ParseError>)
        ensures
            match r {
                Ok(s) => parse_string(tokens_model(tokens@), i as int) == Ok::<
                    Seq<char>,
                    ParseError,
                >(s@) && i + 2 <= tokens.len(),
                Err(e) => parse_string(tokens_model(tokens@), i as int) == Err::<
                    Seq<char>,
                    ParseError,
                >(e),
            },
    {
        let ghost ts = tokens_model(tokens@);
        if i >= tokens.len() {
            return Err(ParseError::UnexpectedEndOfInput);
        }
        assert(ts[i as int] == tokens@[i as int]@);
        let text = match &tokens[i] {
            Token::String(s) => s,
            _ => {
                return Err(ParseError::UnexpectedToken);
            },
        };
        if i + 1 >= tokens.len() {
            return Err(ParseError::UnexpectedEndOfInput);
        }
        assert(ts[i + 1] == tokens@[i + 1]@);
        match &tokens[i + 1] {
            Token::Quotes => Ok(text.clone()),
            _ => Err(ParseError::UnexpectedToken),
        }
    }

    /// The elements of an array whose `[` stands just before token `i`.
    fn process_array(tokens: &Vec<Token>, i: usize) -> (r: Result<(Vec<Value>, usize), ParseError>)
        requires
            i <= tokens.len(),
        ensures
            match r {
                Ok((vs, j)) => parse_array(tokens_model(tokens@), i as int) == Ok::<
                    (Seq<Json>, int),
                    ParseError,
                >((values_model(vs@), j as int)) && i < j <= tokens.len() && values_well_formed(
                    vs@,
                ),
                Err(e) => parse_array(tokens_model(tokens@), i as int) == Err::<
                    (Seq<Json>, int),
                    ParseError,
                >(e),
            },
        decreases tokens.len() - i, 2int,
    {
        let ghost ts = tokens_model(tokens@);
        if i < tokens.len() {
            assert(ts[i as int] == tokens@[i as int]@);
            if let Token::ArrayClose = &tokens[i] {
                assert(values_model(Seq::empty()) == Seq::<Json>::empty());
                return Ok((Vec::new(), i + 1));
            }
        }
        let mut arr: Vec<Value> = Vec::new();
        let mut k: usize = i;
        assert(values_model(arr@) == Seq::<Json>::empty());
        loop
            invariant
                i <= k <= tokens.len(),
                ts == tokens_model(tokens@),
                parse_array(ts, i as int) == parse_elements(ts, k as int, values_model(arr@)),
                values_well_formed(arr@),
            decreases tokens.len() - k,
        {
            let (v, j) = match Self::get_value(tokens, k) {
                Ok(p) => p,
                Err(e) => {
                    return Err(e);
                },
            };
            if j >= tokens.len() {
                return Err(ParseError::UnexpectedEndOfInput);
            }
            assert(ts[j as int] == tokens@[j as int]@);
            let ghost before = values_model(arr@);
            let ghost vm = v.model();
            proof {
                lemma_values_push(arr@, v);
                assert(arr@.push(v).drop_last() == arr@);
            }
            arr.push(v);
            match &tokens[j] {
                Token::Comma => {
                    k = j + 1;
                },
                Token::ArrayClose => {
                    return Ok((arr, j + 1));
                },
                _ => {
                    return Err(ParseError::UnexpectedToken);
                },
            }
        }
    }

    /// The members of an object whose `{` stands just before token `i`.
    fn process_object(tokens: &Vec<Token>, i: usize) -> (r: Result<
        (Vec<(String, Value)>, usize),
        ParseError,
    >)
        requires
            i <= tokens.len(),
        ensures
            match r {
                Ok((m, j)) => parse_object(tokens_model(tokens@), i as int) == Ok::<
                    (Map<Seq<char>, Json>, int),
                    ParseError,
                >((members_model(m@), j as int)) && i < j <= tokens.len() && keys_unique(m@)
                    && members_well_formed(m@),
                Err(e) => parse_object(tokens_model(tokens@), i as int) == Err::<
                    (Map<Seq<char>, Json>, int),
                    ParseError,
                >(e),
            },
        decreases tokens.len() - i, 2int,
    {
        let ghost ts = tokens_model(tokens@);
        if i < tokens.len() {
            assert(ts[i as int] == tokens@[i as int]@);
            if let Token::CurlyClose = &tokens[i] {
                assert(members_model(Seq::empty()) == Map::<Seq<char>, Json>::empty());
                return Ok((Vec::new(), i + 1));
            }
        }
        let mut obj: Vec<(String, Value)> = Vec::new();
        let mut k: usize = i;
        assert(members_model(obj@) == Map::<Seq<char>, Json>::empty());
        loop
            invariant
                i <= k <= tokens.len(),
                ts == tokens_model(tokens@),
                keys_unique(obj@),
                members_well_formed(obj@),
                parse_object(ts, i as int) == parse_members(ts, k as int, members_model(obj@)),
            decreases tokens.len() - k,
        {
            if k >= tokens.len() {
                return Err(ParseError::UnexpectedEndOfInput);
            }
            assert(ts[k as int] == tokens@[k as int]@);
            match &tokens[k] {
                Token::Quotes => {},
                _ => {
                    return Err(ParseError::UnexpectedToken);
                },
            }
            let key = match Self::process_string(tokens, k + 1) {
                Ok(s) => s,
                Err(e) => {
                    return Err(e);
                },
            };
            if k + 3 >= tokens.len() {
                return Err(ParseError::UnexpectedEndOfInput);
            }
            assert(ts[k + 3] == tokens@[k + 3]@);
            match &tokens[k + 3] {
                Token::Colon => {},
                _ => {
                    return Err(ParseError::UnexpectedToken);
                },
            }
            let (v, j) = match Self::get_value(tokens, k + 4) {
                Ok(p) => p,
                Err(e) => {
                    return Err(e);
                },
            };
            if j >= tokens.len() {
                return Err(ParseError::UnexpectedEndOfInput);
            }
            assert(ts[j as int] == tokens@[j as int]@);
            let ghost before = members_model(obj@);
            let ghost entry = (key@, v.model());
            Self::insert_member(&mut obj, key, v);
            assert(members_model(obj@) == before.insert(entry.0, entry.1));
            match &tokens[j] {
                Token::Comma => {
                    k = j + 1;
                },
                Token::CurlyClose => {
                    return Ok((obj, j + 1));
                },
                _ => {
                    return Err(ParseError::UnexpectedToken);
                },
            }
        }
    }

    /// Sets `key` to `value` in a member list, in place of an earlier member
    /// with that key if there is one.
    fn insert_member(obj: &mut Vec<(String, Value)>, key: String, value: Value)
        requires
            keys_unique(old(obj)@),
            members_well_formed(old(obj)@),
            value.well_formed(),
        ensures
            keys_unique(final(obj)@),
            members_well_formed(final(obj)@),
            members_model(final(obj)@) == members_model(old(obj)@).insert(key@, value.model()),
    {
        let mut idx: usize = 0;
        while idx < obj.len()
            invariant
                idx <= obj@.len(),
                obj@ == old(obj)@,
                keys_unique(obj@),
                members_well_formed(obj@),
                value.well_formed(),
                forall|m: int| 0 <= m < idx ==> (#[trigger] obj@[m]).0@ != key@,
            decreases obj@.len() - idx,
        {
            if obj[idx].0 == key {
                proof {
                        lemma_members_update(obj@, idx as int, (key, value));
                    lemma_members_well_formed_update(obj@, idx as int, (key, value));
                    let t = obj@.update(idx as int, (key, value));
                    assert forall|a: int, b: int| 0 <= a < b < t.len() implies t[a].0@ != t[b].0@ by {
                        if a != idx && b != idx {
                            assert(t[a] == obj@[a] && t[b] == obj@[b]);
                        }
                    }
                }
                obj.set(idx, (key, value));
                return;
            }
            idx = idx + 1;
        }
        proof {
            lemma_members_push(obj@, (key, value));
            let t = obj@.push((key, value));
            assert(t.drop_last() == obj@);
            assert forall|a: int, b: int| 0 <= a < b < t.len() implies t[a].0@ != t[b].0@ by {
                if b < obj@.len() {
                    assert(t[a] == obj@[a] && t[b] == obj@[b]);
                } else {
                    assert(t[a] == obj@[a]);
                }
            }
        }
        obj.push((key, value));
    }

    /// The value that a token sequence starts with.
    pub fn tokens_to_value(tokens: &Vec<Token>) -> (r: Result<Value, ParseError>)
        ensures
            match r {
                Ok(v) => parse_tokens(tokens_model(tokens@)) == Ok::<Json, ParseError>(v.model())
                    && v.well_formed(),
                Err(e) => parse_tokens(tokens_model(tokens@)) == Err::<Json, ParseError>(e),
            },
    {
        match Self::get_value(tokens, 0) {
            Ok((v, _)) => Ok(v),
            Err(e) => Err(e),
        }
    }

    /// The value of the characters that `reader` has still to hand out.
    pub fn parse(reader: JsonReader) -> (r: Result<Value, ParseError>)
        requires
            reader.wf(),
        ensures
            match r {
                Ok(v) => parse_chars(reader.rest()) == Ok::<Json, ParseError>(v.model())
                    && v.well_formed(),
                Err(e) => parse_chars(reader.rest()) == Err::<Json, ParseError>(e),
            },
    {
        let mut tokenizer = JsonTokenizer::new(reader);
        let tokens = match tokenizer.tokenize_json() {
            Ok(ts) => ts,
            Err(e) => {
                return Err(e);
            },
        };
        Self::tokens_to_value(&tokens)
    }

    /// The value of a UTF-8 document held in memory.
    pub fn parse_from_bytes(input: &[u8]) -> (r: Result<Value, ParseError>)
        ensures
            match r {
                Ok(v) => parse_json(input@) == Ok::<Json, ParseError>(v.model()) && v.well_formed(),
                Err(e) => parse_json(input@) == Err::<Json, ParseError>(e),
            },
    {
        Self::parse(JsonReader::from_bytes(input))
    }
}

} // verus!
