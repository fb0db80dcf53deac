use vstd::prelude::*;

use crate::error::ParseError;
use crate::reader::JsonReader;
use crate::value::{Number, NumberModel};

verus! {

broadcast use vstd::std_specs::vec::group_vec_axioms;

/// A lexical unit of JSON text. A quoted string gives three tokens:
/// `Quotes`, `String` and `Quotes`.
#[derive(Debug, PartialEq)]
pub enum Token {
    String(String),
    Number(Number),
    Boolean(bool),
    Null,
    CurlyOpen,
    CurlyClose,
    ArrayOpen,
    ArrayClose,
    Quotes,
    Colon,
    Comma,
}

/// The mathematical meaning of a `Token`.
pub enum TokenModel {
    String(Seq<char>),
    Number(NumberModel),
    Boolean(bool),
    Null,
    CurlyOpen,
    CurlyClose,
    ArrayOpen,
    ArrayClose,
    Quotes,
    Colon,
    Comma,
}

impl View for Token {
    type V = TokenModel;

    open spec fn view(&self) -> TokenModel {
        match self {
            Token::String(s) => TokenModel::String(s@),
            Token::Number(n) => TokenModel::Number(n@),
            Token::Boolean(b) => TokenModel::Boolean(*b),
            Token::Null => TokenModel::Null,
            Token::CurlyOpen => TokenModel::CurlyOpen,
            Token::CurlyClose => TokenModel::CurlyClose,
            Token::ArrayOpen => TokenModel::ArrayOpen,
            Token::ArrayClose => TokenModel::ArrayClose,
            Token::Quotes => TokenModel::Quotes,
            Token::Colon => TokenModel::Colon,
            Token::Comma => TokenModel::Comma,
        }
    }
}

/// The models of a list of tokens.
pub open spec fn tokens_model(ts: Seq<Token>) -> Seq<TokenModel> {
    ts.map_values(|t: Token| t@)
}

pub open spec fn is_digit(c: char) -> bool {
    '0' <= c && c <= '9'
}

pub open spec fn is_whitespace(c: char) -> bool {
    c == ' ' || c == '\t' || c == '\r' || c == '\n'
}

/// The characters that a numeral is made of.
pub open spec fn is_numeral_char(c: char) -> bool {
    c == '-' || c == '.' || is_digit(c)
}

/// The index just past the run of numeral characters that starts at `i`.
pub open spec fn numeral_end(cs: Seq<char>, i: int) -> int
    decreases cs.len() - i,
{
    if 0 <= i < cs.len() && is_numeral_char(cs[i]) {
        numeral_end(cs, i + 1)
    } else {
        i
    }
}

/// The index of the first `"` at or after `i`, or the length of `cs` if none.
pub open spec fn string_end(cs: Seq<char>, i: int) -> int
    decreases cs.len() - i,
{
    if 0 <= i < cs.len() && cs[i] != '"' {
        string_end(cs, i + 1)
    } else {
        i
    }
}

/// The number that a string of decimal digits denotes.
pub open spec fn digits_value(s: Seq<char>) -> int
    decreases s.len(),
{
    if s.len() == 0 {
        0
    } else {
        digits_value(s.drop_last()) * 10 + (s.last() as int - '0' as int)
    }
}

pub open spec fn all_digits(s: Seq<char>) -> bool {
    forall|k: int| 0 <= k < s.len() ==> is_digit(#[trigger] s[k])
}

/// How many `.` characters `s` holds.
pub open spec fn count_dots(s: Seq<char>) -> nat
    decreases s.len(),
{
    if s.len() == 0 {
        0
    } else {
        count_dots(s.drop_last()) + if s.last() == '.' {
            1nat
        } else {
            0nat
        }
    }
}

/// `s` without a leading minus sign.
pub open spec fn unsigned_part(s: Seq<char>) -> Seq<char> {
    if s.len() > 0 && s[0] == '-' {
        s.drop_first()
    } else {
        s
    }
}

/// An optional `-` followed by one or more digits.
pub open spec fn is_integer_text(s: Seq<char>) -> bool {
    let u = unsigned_part(s);
    u.len() > 0 && all_digits(u)
}

/// An optional `-` followed by digits and exactly one `.`, with at least one digit.
pub open spec fn is_decimal_text(s: Seq<char>) -> bool {
    let u = unsigned_part(s);
    &&& count_dots(u) == 1
    &&& u.len() >= 2
    &&& forall|k: int| 0 <= k < u.len() ==> is_digit(#[trigger] u[k]) || u[k] == '.'
}

/// The value of an integer numeral.
pub open spec fn integer_value(s: Seq<char>) -> int {
    if s.len() > 0 && s[0] == '-' {
        -digits_value(s.drop_first())
    } else {
        digits_value(s)
    }
}

/// The number that a run of numeral characters stands for: a decimal when it
/// holds a `.`, an integer otherwise.
pub open spec fn numeral(s: Seq<char>) -> Result<NumberModel, ParseError> {
    if count_dots(unsigned_part(s)) == 0 {
        if !is_integer_text(s) {
            Err(ParseError::NumberFormat)
        } else if i64::MIN <= integer_value(s) <= i64::MAX {
            Ok(NumberModel::Integer(integer_value(s)))
        } else {
            Err(ParseError::NumberOutOfRange)
        }
    } else if is_decimal_text(s) {
        Ok(NumberModel::Float(s))
    } else {
        Err(ParseError::NumberFormat)
    }
}

/// Why the keyword `w` does not stand in `cs` at `i`, looking from its
/// `k`-th character on; `None` when it does.
pub open spec fn word_error(cs: Seq<char>, i: int, w: Seq<char>, k: int) -> Option<ParseError>
    decreases w.len() - k,
{
    if k >= w.len() {
        None
    } else if i + k >= cs.len() {
        Some(ParseError::UnterminatedLiteral)
    } else if cs[i + k] != w[k] {
        Some(ParseError::UnexpectedCharacter(cs[i + k]))
    } else {
        word_error(cs, i, w, k + 1)
    }
}

pub open spec fn word_true() -> Seq<char> {
    seq!['t', 'r', 'u', 'e']
}

pub open spec fn word_false() -> Seq<char> {
    seq!['f', 'a', 'l', 's', 'e']
}

pub open spec fn word_null() -> Seq<char> {
    seq!['n', 'u', 'l', 'l']
}

/// `p` in front of the tokens of `r`, or the error of `r`.
pub open spec fn prepend(p: Seq<TokenModel>, r: Result<Seq<TokenModel>, ParseError>) -> Result<
    Seq<TokenModel>,
    ParseError,
> {
    match r {
        Ok(ts) => Ok(p + ts),
        Err(e) => Err(e),
    }
}

/// The keyword `w` at `i`, giving the token `t`, then the rest of the text.
pub open spec fn lex_word(cs: Seq<char>, i: int, w: Seq<char>, t: TokenModel) -> Result<
    Seq<TokenModel>,
    ParseError,
>
    decreases cs.len() - i, 0int,
{
    match word_error(cs, i, w, 0) {
        Some(e) => Err(e),
        None => if 0 < w.len() && i + w.len() <= cs.len() {
            prepend(seq![t], lex_from(cs, i + w.len()))
        } else {
            Err(ParseError::UnterminatedLiteral)
        },
    }
}

/// The tokens of `cs` from index `i` on. Lexing stops at the end of `cs` or
/// at a NUL character.
pub open spec fn lex_from(cs: Seq<char>, i: int) -> Result<Seq<TokenModel>, ParseError>
    decreases cs.len() - i, 1int,
{
    if i < 0 || i >= cs.len() {
        Ok(Seq::empty())
    } else {
        let c = cs[i];
        if c == '"' {
            let j = string_end(cs, i + 1);
            if j >= cs.len() || j <= i {
                Err(ParseError::UnterminatedLiteral)
            } else {
                prepend(
                    seq![
                        TokenModel::Quotes,
                        TokenModel::String(cs.subrange(i + 1, j)),
                        TokenModel::Quotes,
                    ],
                    lex_from(cs, j + 1),
                )
            }
        } else if c == '-' || is_digit(c) {
            let j = numeral_end(cs, i);
            if j <= i || j > cs.len() {
                Err(ParseError::NumberFormat)
            } else {
                match numeral(cs.subrange(i, j)) {
                    Ok(n) => prepend(seq![TokenModel::Number(n)], lex_from(cs, j)),
                    Err(e) => Err(e),
                }
            }
        } else if c == 't' {
            lex_word(cs, i, word_true(), TokenModel::Boolean(true))
        } else if c == 'f' {
            lex_word(cs, i, word_false(), TokenModel::Boolean(false))
        } else if c == 'n' {
            lex_word(cs, i, word_null(), TokenModel::Null)
        } else if c == '{' {
            prepend(seq![TokenModel::CurlyOpen], lex_from(cs, i + 1))
        } else if c == '}' {
            prepend(seq![TokenModel::CurlyClose], lex_from(cs, i + 1))
        } else if c == '[' {
            prepend(seq![TokenModel::ArrayOpen], lex_from(cs, i + 1))
        } else if c == ']' {
            prepend(seq![TokenModel::ArrayClose], lex_from(cs, i + 1))
        } else if c == ',' {
            prepend(seq![TokenModel::Comma], lex_from(cs, i + 1))
        } else if c == ':' {
            prepend(seq![TokenModel::Colon], lex_from(cs, i + 1))
        } else if is_whitespace(c) {
            lex_from(cs, i + 1)
        } else if c == '\0' {
            Ok(Seq::empty())
        } else {
            Err(ParseError::UnexpectedCharacter(c))
        }
    }
}

/// The tokens of a whole text.
pub open spec fn lex(cs: Seq<char>) -> Result<Seq<TokenModel>, ParseError> {
    lex_from(cs, 0)
}

/// Relies on `String`'s `FromIterator<char>`: the string holds the characters in order.
#[verifier::external_body]
fn string_from_chars(cs: &Vec<char>) -> (r: String)
    ensures
        r@ == cs@,
{
    cs.iter().collect()
}

/// A copy of a number.
pub fn copy_number(n: &Number) -> (r: Number)
    ensures
        r@ == n@,
{
    match n {
        Number::Integer(i) => Number::Integer(*i),
        Number::Float(s) => Number::Float(s.clone()),
    }
}

/// The largest magnitude of an `i64`: that of `i64::MIN`.
const MAGNITUDE_LIMIT: u128 = 9223372036854775808;

/// Reads a run of numeral characters as a number.
pub fn parse_numeral(s: &Vec<char>) -> (r: Result<Number, ParseError>)
    ensures
        match r {
            Ok(n) => numeral(s@) == Ok::<NumberModel, ParseError>(n@),
            Err(e) => numeral(s@) == Err::<NumberModel, ParseError>(e),
        },
{
    let len = s.len();
    let neg = len > 0 && s[0] == '-';
    let start: usize = if neg { 1 } else { 0 };
    let ghost u = unsigned_part(s@);
    assert(u == s@.subrange(start as int, len as int));
    let mut dots: usize = 0;
    let mut digits_and_dots = true;
    let mut k: usize = start;
    while k < len
        invariant
            start <= k <= len == s@.len(),
            u == s@.subrange(start as int, len as int),
            dots <= k,
            dots == count_dots(s@.subrange(start as int, k as int)),
            digits_and_dots == forall|m: int|
                start <= m < k ==> is_digit(#[trigger] s@[m]) || s@[m] == '.',
        decreases len - k,
    {
        assert(s@.subrange(start as int, k + 1).drop_last() == s@.subrange(start as int, k as int));
        let c = s[k];
        if c == '.' {
            dots = dots + 1;
        } else if !('0' <= c && c <= '9') {
            digits_and_dots = false;
        }
        k = k + 1;
    }
    assert(s@.subrange(start as int, len as int) == u);
    if dots == 0 {
        proof {
            lemma_no_dots(u);
        }
        if start >= len || !digits_and_dots {
            proof {
                if start < len {
                    let m = choose|m: int|
                        start <= m < len && !(is_digit(#[trigger] s@[m]) || s@[m] == '.');
                    assert(u[m - start] == s@[m]);
                }
            }
            return Err(ParseError::NumberFormat);
        }
        assert(all_digits(u)) by {
            assert forall|m: int| 0 <= m < u.len() implies is_digit(#[trigger] u[m]) by {
                assert(u[m] == s@[start + m]);
                assert(u[m] != '.');
            }
        }
        let mut mag: u128 = 0;
        let mut k: usize = start;
        while k < len
            invariant
                start <= k <= len == s@.len(),
                u == s@.subrange(start as int, len as int),
                u == unsigned_part(s@),
                neg == (s@.len() > 0 && s@[0] == '-'),
                count_dots(u) == 0,
                start < len,
                all_digits(u),
                mag == digits_value(s@.subrange(start as int, k as int)),
                mag <= MAGNITUDE_LIMIT,
            decreases len - k,
        {
            assert(s@.subrange(start as int, k + 1).drop_last() == s@.subrange(
                start as int,
                k as int,
            ));
            assert(is_digit(u[k - start]));
            let d = (s[k] as u32 - '0' as u32) as u128;
            mag = mag * 10 + d;
            k = k + 1;
            if mag > MAGNITUDE_LIMIT {
                proof {
                    assert(u.subrange(0, k - start) == s@.subrange(start as int, k as int));
                    lemma_digits_value_prefix(u, k - start);
                    assert(digits_value(u) > MAGNITUDE_LIMIT);
                    if neg {
                        assert(s@.drop_first() == u);
                        assert(integer_value(s@) == -digits_value(u));
                    } else {
                        assert(integer_value(s@) == digits_value(u));
                    }
                }
                return Err(ParseError::NumberOutOfRange);
            }
        }
        assert(s@.subrange(start as int, len as int) == u);
        assert(mag == digits_value(u));
        proof {
            if neg {
                assert(s@.drop_first() == u);
            }
        }
        if !neg && mag == MAGNITUDE_LIMIT {
            return Err(ParseError::NumberOutOfRange);
        }
        let v: i64 = if neg {
            (0 - (mag as i128)) as i64
        } else {
            mag as i64
        };
        Ok(Number::Integer(v))
    } else if dots == 1 && len - start >= 2 && digits_and_dots {
        assert forall|m: int| 0 <= m < u.len() implies is_digit(#[trigger] u[m]) || u[m] == '.' by {
            assert(u[m] == s@[start + m]);
        }
        Ok(Number::Float(string_from_chars(s)))
    } else {
        proof {
            if dots == 1 && len - start >= 2 {
                let m = choose|m: int| start <= m < len && !(is_digit(#[trigger] s@[m]) || s@[m] == '.');
                assert(u[m - start] == s@[m]);
            }
        }
        Err(ParseError::NumberFormat)
    }
}

/// A string with no `.` counts none.
proof fn lemma_no_dots(s: Seq<char>)
    ensures
        count_dots(s) == 0 ==> forall|m: int| 0 <= m < s.len() ==> #[trigger] s[m] != '.',
    decreases s.len(),
{
    if s.len() > 0 {
        lemma_no_dots(s.drop_last());
        if count_dots(s) == 0 {
            assert forall|m: int| 0 <= m < s.len() implies #[trigger] s[m] != '.' by {
                if m < s.len() - 1 {
                    assert(s.drop_last()[m] == s[m]);
                }
            }
        }
    }
}

/// A prefix of a string of digits denotes no more than the whole.
proof fn lemma_digits_value_prefix(u: Seq<char>, j: int)
    requires
        all_digits(u),
        0 <= j <= u.len(),
    ensures
        0 <= digits_value(u.subrange(0, j)) <= digits_value(u),
    decreases u.len(),
{
    if j == u.len() {
        assert(u.subrange(0, j) == u);
        if u.len() > 0 {
            lemma_digits_value_prefix(u.drop_last(), 0);
            assert(is_digit(u[u.len() - 1]));
        }
    } else {
        lemma_digits_value_prefix(u.drop_last(), j);
        assert(u.drop_last().subrange(0, j) == u.subrange(0, j));
        assert(is_digit(u[u.len() - 1]));
    }
}

/// `p` in front of `q` in front of `r` is `p + q` in front of `r`.
proof fn lemma_prepend_prepend(
    p: Seq<TokenModel>,
    q: Seq<TokenModel>,
    r: Result<Seq<TokenModel>, ParseError>,
)
    ensures
        prepend(p, prepend(q, r)) == prepend(p + q, r),
{
    if let Ok(ts) = r {
        assert(p + (q + ts) == (p + q) + ts);
    }
}

proof fn lemma_numeral_end_bounds(cs: Seq<char>, i: int)
    requires
        0 <= i <= cs.len(),
    ensures
        i <= numeral_end(cs, i) <= cs.len(),
    decreases cs.len() - i,
{
    if i < cs.len() && is_numeral_char(cs[i]) {
        lemma_numeral_end_bounds(cs, i + 1);
    }
}

proof fn lemma_string_end_bounds(cs: Seq<char>, i: int)
    requires
        0 <= i <= cs.len(),
    ensures
        i <= string_end(cs, i) <= cs.len(),
    decreases cs.len() - i,
{
    if i < cs.len() && cs[i] != '"' {
        lemma_string_end_bounds(cs, i + 1);
    }
}

proof fn lemma_numeral_end_all(cs: Seq<char>, k: int)
    requires
        0 <= k <= cs.len(),
        forall|m: int| k <= m < cs.len() ==> is_numeral_char(#[trigger] cs[m]),
    ensures
        numeral_end(cs, k) == cs.len(),
    decreases cs.len() - k,
{
    if k < cs.len() {
        lemma_numeral_end_all(cs, k + 1);
    }
}

proof fn lemma_digits_no_dots(s: Seq<char>)
    requires
        all_digits(s),
    ensures
        count_dots(s) == 0,
    decreases s.len(),
{
    if s.len() > 0 {
        assert(is_digit(s[s.len() - 1]));
        lemma_digits_no_dots(s.drop_last());
    }
}

/// A text made only of a numeral lexes to the one number token that the
/// numeral stands for.
pub proof fn lex_numeral_text(s: Seq<char>)
    requires
        s.len() > 0,
        s[0] == '-' || is_digit(s[0]),
        forall|m: int| 0 <= m < s.len() ==> is_numeral_char(#[trigger] s[m]),
    ensures
        lex(s) == match numeral(s) {
            Ok(n) => Ok::<Seq<TokenModel>, ParseError>(seq![TokenModel::Number(n)]),
            Err(e) => Err::<Seq<TokenModel>, ParseError>(e),
        },
        is_integer_text(s) ==> count_dots(unsigned_part(s)) == 0,
{
    lemma_numeral_end_all(s, 0);
    assert(s.subrange(0, s.len() as int) == s);
    assert(lex_from(s, s.len() as int) == Ok::<Seq<TokenModel>, ParseError>(Seq::empty()));
    assert(lex_from(s, 0) == match numeral(s.subrange(0, s.len() as int)) {
        Ok(n) => prepend(seq![TokenModel::Number(n)], lex_from(s, s.len() as int)),
        Err(e) => Err(e),
    });
    if let Ok(n) = numeral(s) {
        assert(seq![TokenModel::Number(n)] + Seq::<TokenModel>::empty() == seq![
            TokenModel::Number(n),
        ]);
    }
    if is_integer_text(s) {
        lemma_digits_no_dots(unsigned_part(s));
    }
}

proof fn lemma_string_end_shift(p: Seq<char>, b: Seq<char>, j: int)
    requires
        0 <= j <= b.len(),
    ensures
        string_end(p + b, p.len() + j) == p.len() + string_end(b, j),
    decreases b.len() - j,
{
    if j < b.len() {
        assert((p + b)[p.len() + j] == b[j]);
        lemma_string_end_shift(p, b, j + 1);
    }
}

proof fn lemma_numeral_end_shift(p: Seq<char>, b: Seq<char>, j: int)
    requires
        0 <= j <= b.len(),
    ensures
        numeral_end(p + b, p.len() + j) == p.len() + numeral_end(b, j),
    decreases b.len() - j,
{
    if j < b.len() {
        assert((p + b)[p.len() + j] == b[j]);
        lemma_numeral_end_shift(p, b, j + 1);
    }
}

proof fn lemma_word_error_shift(p: Seq<char>, b: Seq<char>, i: int, w: Seq<char>, k: int)
    requires
        0 <= i,
        0 <= k,
    ensures
        word_error(p + b, p.len() + i, w, k) == word_error(b, i, w, k),
    decreases w.len() - k,
{
    if k < w.len() && i + k < b.len() {
        assert((p + b)[p.len() + i + k] == b[i + k]);
        lemma_word_error_shift(p, b, i, w, k + 1);
    }
}

/// What follows a prefix lexes as it would on its own.
proof fn lemma_lex_shift(p: Seq<char>, b: Seq<char>, k: int)
    requires
        0 <= k <= b.len(),
    ensures
        lex_from(p + b, p.len() + k) == lex_from(b, k),
    decreases b.len() - k,
{
    let cs = p + b;
    let o = p.len() as int;
    if k < b.len() {
        let c = b[k];
        assert(cs[o + k] == c);
        if c == '"' {
            lemma_string_end_shift(p, b, k + 1);
            lemma_string_end_bounds(b, k + 1);
            let j = string_end(b, k + 1);
            if j < b.len() {
                lemma_lex_shift(p, b, j + 1);
                assert(cs.subrange(o + k + 1, o + j) == b.subrange(k + 1, j));
            }
        } else if c == '-' || is_digit(c) {
            lemma_numeral_end_shift(p, b, k);
            lemma_numeral_end_bounds(b, k);
            let j = numeral_end(b, k);
            if j > k {
                lemma_lex_shift(p, b, j);
                assert(cs.subrange(o + k, o + j) == b.subrange(k, j));
            }
        } else if c == 't' || c == 'f' || c == 'n' {
            let w = if c == 't' {
                word_true()
            } else if c == 'f' {
                word_false()
            } else {
                word_null()
            };
            let t = if c == 't' {
                TokenModel::Boolean(true)
            } else if c == 'f' {
                TokenModel::Boolean(false)
            } else {
                TokenModel::Null
            };
            assert(lex_from(b, k) == lex_word(b, k, w, t));
            assert(lex_from(cs, o + k) == lex_word(cs, o + k, w, t));
            lemma_word_error_shift(p, b, k, w, 0);
            if k + w.len() <= b.len() {
                lemma_lex_shift(p, b, k + w.len());
            }
        } else if c != '\0' {
            lemma_lex_shift(p, b, k + 1);
        }
    }
}

/// A run of whitespace lexes to nothing.
proof fn lemma_lex_skip_whitespace(cs: Seq<char>, i: int, n: int)
    requires
        0 <= i,
        0 <= n,
        i + n <= cs.len(),
        forall|m: int| i <= m < i + n ==> is_whitespace(#[trigger] cs[m]),
    ensures
        lex_from(cs, i) == lex_from(cs, i + n),
    decreases n,
{
    if n > 0 {
        lemma_lex_skip_whitespace(cs, i + 1, n - 1);
    }
}

/// Whether `a` followed by `x` could run two numerals into one.
pub open spec fn numerals_meet(a: Seq<char>, x: Seq<char>) -> bool {
    a.len() > 0 && is_numeral_char(a.last()) && x.len() > 0 && is_numeral_char(x[0])
}

proof fn lemma_string_end_prefix(a: Seq<char>, x: Seq<char>, j: int)
    requires
        0 <= j <= a.len(),
        string_end(a, j) < a.len(),
    ensures
        string_end(a + x, j) == string_end(a, j),
    decreases a.len() - j,
{
    assert((a + x)[j] == a[j]);
    if a[j] != '"' {
        lemma_string_end_prefix(a, x, j + 1);
    }
}

proof fn lemma_numeral_end_prefix(a: Seq<char>, x: Seq<char>, j: int)
    requires
        0 <= j < a.len(),
        !numerals_meet(a, x),
    ensures
        numeral_end(a + x, j) == numeral_end(a, j),
    decreases a.len() - j,
{
    assert((a + x)[j] == a[j]);
    if is_numeral_char(a[j]) {
        if j + 1 < a.len() {
            lemma_numeral_end_prefix(a, x, j + 1);
        } else {
            assert(a.last() == a[j]);
            if x.len() > 0 {
                assert((a + x)[j + 1] == x[0]);
                assert(!is_numeral_char(x[0]));
            }
            assert(numeral_end(a + x, j + 1) == j + 1);
            assert(numeral_end(a, j + 1) == j + 1);
        }
    }
}

proof fn lemma_word_error_prefix(a: Seq<char>, x: Seq<char>, i: int, w: Seq<char>, k: int)
    requires
        0 <= i,
        0 <= k,
        word_error(a, i, w, k) is None,
    ensures
        word_error(a + x, i, w, k) is None,
    decreases w.len() - k,
{
    if k < w.len() {
        assert((a + x)[i + k] == a[i + k]);
        lemma_word_error_prefix(a, x, i, w, k + 1);
    }
}

proof fn lemma_word_error_fits(a: Seq<char>, i: int, w: Seq<char>, k: int)
    requires
        0 <= i,
        0 <= k <= w.len(),
        word_error(a, i, w, k) is None,
    ensures
        i + w.len() <= a.len() || k == w.len(),
    decreases w.len() - k,
{
    if k < w.len() {
        lemma_word_error_fits(a, i, w, k + 1);
    }
}

/// A text that lexes on its own lexes the same way in front of more text,
/// unless a numeral at its end would run on.
pub(crate) proof fn lemma_lex_prefix(a: Seq<char>, x: Seq<char>, k: int)
    requires
        0 <= k <= a.len(),
        lex_from(a, k) is Ok,
        forall|m: int| 0 <= m < a.len() ==> #[trigger] a[m] != '\0',
        !numerals_meet(a, x),
    ensures
        lex_from(a + x, k) == prepend(lex_from(a, k)->Ok_0, lex_from(a + x, a.len() as int)),
    decreases a.len() - k,
{
    let cs = a + x;
    if k == a.len() {
        assert(lex_from(a, k) == Ok::<Seq<TokenModel>, ParseError>(Seq::empty()));
        let r = lex_from(cs, k);
        if let Ok(ts) = r {
            assert(Seq::<TokenModel>::empty() + ts == ts);
        }
    } else {
        let c = a[k];
        assert(cs[k] == c);
        assert(c != '\0');
        if c == '"' {
            lemma_string_end_bounds(a, k + 1);
            let j = string_end(a, k + 1);
            lemma_string_end_prefix(a, x, k + 1);
            assert(cs.subrange(k + 1, j) == a.subrange(k + 1, j));
            lemma_lex_prefix(a, x, j + 1);
            let added = seq![
                TokenModel::Quotes,
                TokenModel::String(a.subrange(k + 1, j)),
                TokenModel::Quotes,
            ];
            lemma_prepend_prepend(added, lex_from(a, j + 1)->Ok_0, lex_from(cs, a.len() as int));
        } else if c == '-' || is_digit(c) {
            lemma_numeral_end_bounds(a, k);
            let j = numeral_end(a, k);
            lemma_numeral_end_prefix(a, x, k);
            assert(cs.subrange(k, j) == a.subrange(k, j));
            let n = numeral(a.subrange(k, j))->Ok_0;
            lemma_lex_prefix(a, x, j);
            lemma_prepend_prepend(
                seq![TokenModel::Number(n)],
                lex_from(a, j)->Ok_0,
                lex_from(cs, a.len() as int),
            );
        } else if c == 't' || c == 'f' || c == 'n' {
            let w = if c == 't' {
                word_true()
            } else if c == 'f' {
                word_false()
            } else {
                word_null()
            };
            let t = if c == 't' {
                TokenModel::Boolean(true)
            } else if c == 'f' {
                TokenModel::Boolean(false)
            } else {
                TokenModel::Null
            };
            assert(lex_from(a, k) == lex_word(a, k, w, t));
            assert(lex_from(cs, k) == lex_word(cs, k, w, t));
            lemma_word_error_prefix(a, x, k, w, 0);
            lemma_lex_prefix(a, x, k + w.len());
            lemma_prepend_prepend(
                seq![t],
                lex_from(a, k + w.len())->Ok_0,
                lex_from(cs, a.len() as int),
            );
        } else if is_whitespace(c) {
            lemma_lex_prefix(a, x, k + 1);
        } else {
            let t = if c == '{' {
                TokenModel::CurlyOpen
            } else if c == '}' {
                TokenModel::CurlyClose
            } else if c == '[' {
                TokenModel::ArrayOpen
            } else if c == ']' {
                TokenModel::ArrayClose
            } else if c == ',' {
                TokenModel::Comma
            } else {
                TokenModel::Colon
            };
            lemma_lex_prefix(a, x, k + 1);
            lemma_prepend_prepend(seq![t], lex_from(a, k + 1)->Ok_0, lex_from(cs, a.len() as int));
        }
    }
}

/// Whitespace between two texts, where the first lexes on its own and no
/// two numerals meet, does not change the tokens.
pub proof fn whitespace_between_tokens(a: Seq<char>, w: Seq<char>, b: Seq<char>)
    requires
        lex(a) is Ok,
        forall|m: int| 0 <= m < a.len() ==> #[trigger] a[m] != '\0',
        forall|m: int| 0 <= m < w.len() ==> is_whitespace(#[trigger] w[m]),
        !numerals_meet(a, b),
    ensures
        lex(a + w + b) == lex(a + b),
{
    let x = w + b;
    assert(a + w + b == a + x);
    if w.len() > 0 {
        assert(x[0] == w[0]);
        assert(is_whitespace(w[0]));
    } else {
        assert(x == b);
    }
    lemma_lex_prefix(a, x, 0);
    lemma_lex_prefix(a, b, 0);
    let cs = a + x;
    assert forall|m: int| a.len() <= m < a.len() + w.len() implies is_whitespace(#[trigger] cs[m]) by {
        assert(cs[m] == w[m - a.len()]);
    }
    lemma_lex_skip_whitespace(cs, a.len() as int, w.len() as int);
    assert(cs == (a + w) + b);
    lemma_lex_shift(a + w, b, 0);
    lemma_lex_shift(a, b, 0);
}

/// Text that lexes on its own and ends in a space lexes the same way in
/// front of any other text.
pub proof fn lex_prefix_then(p: Seq<char>, q: Seq<char>)
    requires
        lex(p) is Ok,
        forall|m: int| 0 <= m < p.len() ==> #[trigger] p[m] != '\0',
        p.len() > 0,
        p.last() == ' ',
    ensures
        lex(p + q) == prepend(lex(p)->Ok_0, lex(q)),
{
    lemma_lex_prefix(p, q, 0);
    assert(q == Seq::<char>::empty() + q);
    lemma_lex_shift(p, q, 0);
}

/// Splits a text into tokens.
pub struct JsonTokenizer {
    chars: Vec<char>,
    pos: usize,
}

impl JsonTokenizer {
    pub closed spec fn wf(&self) -> bool {
        self.pos <= self.chars.len()
    }

    /// The whole text.
    pub closed spec fn input(&self) -> Seq<char> {
        self.chars@
    }

    /// Where in the text the tokenizer stands.
    pub closed spec fn position(&self) -> int {
        self.pos as int
    }

    /// A tokenizer over the characters that `reader` has still to hand out.
    pub fn new(reader: JsonReader) -> (r: JsonTokenizer)
        requires
            reader.wf(),
        ensures
            r.wf(),
            r.input() == reader.rest(),
            r.position() == 0,
    {
        let mut reader = reader;
        let ghost all = reader.rest();
        let mut chars: Vec<char> = Vec::new();
        loop
            invariant_except_break
                all == chars@ + reader.rest(),
            invariant
                reader.wf(),
            ensures
                all == chars@,
            decreases reader.rest().len(),
        {
            match reader.next() {
                Some(c) => {
                    chars.push(c);
                    assert(all == chars@ + reader.rest());
                },
                None => {
                    assert(all == chars@);
                    break ;
                },
            }
        }
        JsonTokenizer { chars, pos: 0 }
    }

    /// A tokenizer over the characters that `input` encodes in UTF-8.
    pub fn from_bytes(input: &[u8]) -> (r: JsonTokenizer)
        ensures
            r.wf(),
            r.input() == crate::reader::decoded_chars(input@),
            r.position() == 0,
    {
        JsonTokenizer::new(JsonReader::from_bytes(input))
    }

    /// Steps over the character `c`.
    fn expect_char(&mut self, c: char) -> (r: Result<(), ParseError>)
        requires
            old(self).wf(),
        ensures
            final(self).wf(),
            final(self).input() == old(self).input(),
            old(self).position() >= old(self).input().len() ==> r == Err::<(), ParseError>(
                ParseError::UnterminatedLiteral,
            ),
            old(self).position() < old(self).input().len() && old(self).input()[old(
                self,
            ).position()] != c ==> r == Err::<(), ParseError>(
                ParseError::UnexpectedCharacter(old(self).input()[old(self).position()]),
            ),
            old(self).position() < old(self).input().len() && old(self).input()[old(
                self,
            ).position()] == c ==> r is Ok && final(self).position() == old(self).position() + 1,
    {
        if self.pos >= self.chars.len() {
            return Err(ParseError::UnterminatedLiteral);
        }
        let d = self.chars[self.pos];
        if d != c {
            return Err(ParseError::UnexpectedCharacter(d));
        }
        self.pos = self.pos + 1;
        Ok(())
    }

    /// Reads the characters of a quoted string up to the closing `"`, and
    /// steps over that `"`.
    fn tokenize_string(&mut self) -> (r: Result<String, ParseError>)
        requires
            old(self).wf(),
        ensures
            final(self).wf(),
            final(self).input() == old(self).input(),
            ({
                let cs = old(self).input();
                let j = string_end(cs, old(self).position());
                &&& old(self).position() <= j <= cs.len()
                &&& j == cs.len() ==> r == Err::<String, ParseError>(
                    ParseError::UnterminatedLiteral,
                )
                &&& j < cs.len() ==> r is Ok && r->Ok_0@ == cs.subrange(old(self).position(), j)
                    && final(self).position() == j + 1
            }),
    {
        let ghost start = self.pos as int;
        proof {
            lemma_string_end_bounds(self.chars@, start);
        }
        let mut text: Vec<char> = Vec::new();
        while self.pos < self.chars.len() && self.chars[self.pos] != '"'
            invariant
                self.wf(),
                self.chars@ == old(self).chars@,
                0 <= start <= self.pos,
                string_end(self.chars@, start) == string_end(self.chars@, self.pos as int),
                text@ == self.chars@.subrange(start, self.pos as int),
            decreases self.chars.len() - self.pos,
        {
            proof {
                assert(self.chars@.subrange(start, self.pos + 1) == self.chars@.subrange(
                    start,
                    self.pos as int,
                ).push(self.chars@[self.pos as int]));
            }
            text.push(self.chars[self.pos]);
            self.pos = self.pos + 1;
        }
        if self.pos >= self.chars.len() {
            return Err(ParseError::UnterminatedLiteral);
        }
        self.pos = self.pos + 1;
        Ok(string_from_chars(&text))
    }

    /// Reads a run of numeral characters as a number.
    fn tokenize_number(&mut self) -> (r: Result<Number, ParseError>)
        requires
            old(self).wf(),
        ensures
            final(self).wf(),
            final(self).input() == old(self).input(),
            ({
                let cs = old(self).input();
                let j = numeral_end(cs, old(self).position());
                &&& old(self).position() <= j <= cs.len()
                &&& match r {
                    Ok(n) => numeral(cs.subrange(old(self).position(), j)) == Ok::<
                        NumberModel,
                        ParseError,
                    >(n@) && final(self).position() == j,
                    Err(e) => numeral(cs.subrange(old(self).position(), j)) == Err::<
                        NumberModel,
                        ParseError,
                    >(e),
                }
            }),
    {
        let ghost start = self.pos as int;
        proof {
            lemma_numeral_end_bounds(self.chars@, start);
        }
        let mut text: Vec<char> = Vec::new();
        while self.pos < self.chars.len() && (self.chars[self.pos] == '-' || self.chars[self.pos]
            == '.' || ('0' <= self.chars[self.pos] && self.chars[self.pos] <= '9'))
            invariant
                self.wf(),
                self.chars@ == old(self).chars@,
                0 <= start <= self.pos,
                numeral_end(self.chars@, start) == numeral_end(self.chars@, self.pos as int),
                text@ == self.chars@.subrange(start, self.pos as int),
            decreases self.chars.len() - self.pos,
        {
            proof {
                assert(self.chars@.subrange(start, self.pos + 1) == self.chars@.subrange(
                    start,
                    self.pos as int,
                ).push(self.chars@[self.pos as int]));
            }
            text.push(self.chars[self.pos]);
            self.pos = self.pos + 1;
        }
        parse_numeral(&text)
    }

    /// Splits the rest of the text into tokens.
    pub fn tokenize_json(&mut self) -> (r: Result<Vec<Token>, ParseError>)
        requires
            old(self).wf(),
        ensures
            final(self).wf(),
            final(self).input() == old(self).input(),
            match r {
                Ok(ts) => lex_from(old(self).input(), old(self).position()) == Ok::<
                    Seq<TokenModel>,
                    ParseError,
                >(tokens_model(ts@)),
                Err(e) => lex_from(old(self).input(), old(self).position()) == Err::<
                    Seq<TokenModel>,
                    ParseError,
                >(e),
            },
    {
        let ghost cs = self.chars@;
        let ghost start = self.pos as int;
        let mut tokens: Vec<Token> = Vec::new();
        while self.pos < self.chars.len()
            invariant
                self.wf(),
                self.chars@ == cs,
                cs == old(self).chars@,
                start == old(self).pos,
                lex_from(cs, start) == prepend(tokens_model(tokens@), lex_from(cs, self.pos as int)),
            decreases self.chars.len() - self.pos,
        {
            let ghost i = self.pos as int;
            let ghost before = tokens_model(tokens@);
            let c = self.chars[self.pos];
            if c == '"' {
                self.pos = self.pos + 1;
                let text = match self.tokenize_string() {
                    Ok(t) => t,
                    Err(e) => {
                        return Err(e);
                    },
                };
                let ghost text_model = text@;
                tokens.push(Token::Quotes);
                tokens.push(Token::String(text));
                tokens.push(Token::Quotes);
                proof {
                    let added = seq![
                        TokenModel::Quotes,
                        TokenModel::String(text_model),
                        TokenModel::Quotes,
                    ];
                    assert(tokens_model(tokens@) == before + added);
                    lemma_prepend_prepend(before, added, lex_from(cs, self.pos as int));
                }
            } else if c == '-' || ('0' <= c && c <= '9') {
                proof {
                    lemma_numeral_end_bounds(cs, i + 1);
                }
                let n = match self.tokenize_number() {
                    Ok(n) => n,
                    Err(e) => {
                        return Err(e);
                    },
                };
                let ghost added = seq![TokenModel::Number(n@)];
                tokens.push(Token::Number(n));
                proof {
                    assert(tokens_model(tokens@) == before + added);
                    lemma_prepend_prepend(before, added, lex_from(cs, self.pos as int));
                }
            } else if c == 't' || c == 'f' || c == 'n' {
                proof {
                    if c == 't' {
                        assert(lex_from(cs, i) == lex_word(
                            cs,
                            i,
                            word_true(),
                            TokenModel::Boolean(true),
                        ));
                    } else if c == 'f' {
                        assert(lex_from(cs, i) == lex_word(
                            cs,
                            i,
                            word_false(),
                            TokenModel::Boolean(false),
                        ));
                    } else {
                        assert(lex_from(cs, i) == lex_word(cs, i, word_null(), TokenModel::Null));
                    }
                }
                let t = if c == 't' {
                    match self.tokenize_true() {
                        Ok(b) => Token::Boolean(b),
                        Err(e) => {
                            return Err(e);
                        },
                    }
                } else if c == 'f' {
                    match self.tokenize_false() {
                        Ok(b) => Token::Boolean(b),
                        Err(e) => {
                            return Err(e);
                        },
                    }
                } else {
                    match self.tokenize_null() {
                        Ok(()) => Token::Null,
                        Err(e) => {
                            return Err(e);
                        },
                    }
                };
                let ghost added = seq![t@];
                assert(lex_from(cs, i) == prepend(added, lex_from(cs, self.pos as int)));
                tokens.push(t);
                proof {
                    assert(tokens_model(tokens@) == before + added);
                    lemma_prepend_prepend(before, added, lex_from(cs, self.pos as int));
                }
            } else if c == '{' || c == '}' || c == '[' || c == ']' || c == ',' || c == ':' {
                let t = if c == '{' {
                    Token::CurlyOpen
                } else if c == '}' {
                    Token::CurlyClose
                } else if c == '[' {
                    Token::ArrayOpen
                } else if c == ']' {
                    Token::ArrayClose
                } else if c == ',' {
                    Token::Comma
                } else {
                    Token::Colon
                };
                self.pos = self.pos + 1;
                let ghost added = seq![t@];
                tokens.push(t);
                proof {
                    assert(tokens_model(tokens@) == before + added);
                    lemma_prepend_prepend(before, added, lex_from(cs, self.pos as int));
                }
            } else if c == ' ' || c == '\t' || c == '\r' || c == '\n' {
                self.pos = self.pos + 1;
            } else if c == '\0' {
                assert(lex_from(cs, i) == Ok::<Seq<TokenModel>, ParseError>(Seq::empty()));
                assert(before + Seq::empty() == before);
                return Ok(tokens);
            } else {
                return Err(ParseError::UnexpectedCharacter(c));
            }
        }
        assert(tokens_model(tokens@) + Seq::empty() == tokens_model(tokens@));
        Ok(tokens)
    }

    /// Reads the keyword `true`.
    fn tokenize_true(&mut self) -> (r: Result<bool, ParseError>)
        requires
            old(self).wf(),
        ensures
            final(self).wf(),
            final(self).input() == old(self).input(),
            match word_error(old(self).input(), old(self).position(), word_true(), 0) {
                Some(e) => r == Err::<bool, ParseError>(e),
                None => r == Ok::<bool, ParseError>(true) && final(self).position()
                    == old(self).position() + 4,
            },
    {
        proof {
            reveal_with_fuel(word_error, 5);
        }
        match self.expect_char('t') { Ok(()) => {}, Err(e) => { return Err(e); } }
        match self.expect_char('r') { Ok(()) => {}, Err(e) => { return Err(e); } }
        match self.expect_char('u') { Ok(()) => {}, Err(e) => { return Err(e); } }
        match self.expect_char('e') { Ok(()) => {}, Err(e) => { return Err(e); } }
        Ok(true)
    }

    /// Reads the keyword `false`.
    fn tokenize_false(&mut self) -> (r: Result<bool, ParseError>)
        requires
            old(self).wf(),
        ensures
            final(self).wf(),
            final(self).input() == old(self).input(),
            match word_error(old(self).input(), old(self).position(), word_false(), 0) {
                Some(e) => r == Err::<bool, ParseError>(e),
                None => r == Ok::<bool, ParseError>(false) && final(self).position()
                    == old(self).position() + 5,
            },
    {
        proof {
            reveal_with_fuel(word_error, 6);
        }
        match self.expect_char('f') { Ok(()) => {}, Err(e) => { return Err(e); } }
        match self.expect_char('a') { Ok(()) => {}, Err(e) => { return Err(e); } }
        match self.expect_char('l') { Ok(()) => {}, Err(e) => { return Err(e); } }
        match self.expect_char('s') { Ok(()) => {}, Err(e) => { return Err(e); } }
        match self.expect_char('e') { Ok(()) => {}, Err(e) => { return Err(e); } }
        Ok(false)
    }

    /// Reads the keyword `null`.
    fn tokenize_null(&mut self) -> (r: Result<(), ParseError>)
        requires
            old(self).wf(),
        ensures
            final(self).wf(),
            final(self).input() == old(self).input(),
            match word_error(old(self).input(), old(self).position(), word_null(), 0) {
                Some(e) => r == Err::<(), ParseError>(e),
                None => r is Ok && final(self).position() == old(self).position() + 4,
            },
    {
        proof {
            reveal_with_fuel(word_error, 5);
        }
        match self.expect_char('n') { Ok(()) => {}, Err(e) => { return Err(e); } }
        match self.expect_char('u') { Ok(()) => {}, Err(e) => { return Err(e); } }
        match self.expect_char('l') { Ok(()) => {}, Err(e) => { return Err(e); } }
        match self.expect_char('l') { Ok(()) => {}, Err(e) => { return Err(e); } }
        Ok(())
    }
}

} // verus!
