use json_parser::error::ParseError;
use json_parser::parser::JsonParser;
use json_parser::reader::JsonReader;
use json_parser::token::{parse_numeral, JsonTokenizer, Token};
use json_parser::value::{Number, TypeMismatch, Value};

fn parse(text: &str) -> Result<Value, ParseError> {
    JsonParser::parse_from_bytes(text.as_bytes())
}

fn member<'a>(v: &'a Value, key: &str) -> &'a Value {
    let members = v.as_object().expect("an object");
    let found: Vec<&Value> = members
        .iter()
        .filter(|(k, _)| k == key)
        .map(|(_, v)| v)
        .collect();
    assert_eq!(found.len(), 1, "key {} once", key);
    found[0]
}

fn integer(i: i64) -> Value {
    Value::Number(Number::Integer(i))
}

fn float_text(v: &Value) -> String {
    match v {
        Value::Number(Number::Float(s)) => s.clone(),
        other => panic!("not a decimal: {:?}", other),
    }
}

#[test]
fn sample_document() {
    let text = r#"{"i64": 8623, "f64": 86.23, "string": "success", "true": true, "false": false, "array": [0,1,2,3,4], "null": null}"#;
    let v = parse(text).unwrap();
    assert_eq!(v.as_object().unwrap().len(), 7);
    assert_eq!(member(&v, "i64"), &integer(8623));
    assert_eq!(float_text(member(&v, "f64")), "86.23");
    assert_eq!(float_text(member(&v, "f64")).parse::<f64>().unwrap(), 86.23f64);
    assert_eq!(member(&v, "string"), &Value::String("success".to_string()));
    assert_eq!(member(&v, "true"), &Value::Boolean(true));
    assert_eq!(member(&v, "false"), &Value::Boolean(false));
    assert_eq!(
        member(&v, "array"),
        &Value::Array(vec![integer(0), integer(1), integer(2), integer(3), integer(4)])
    );
    assert_eq!(member(&v, "null"), &Value::Null);
}

#[test]
fn empty_array() {
    assert_eq!(parse("[]").unwrap(), Value::Array(vec![]));
}

#[test]
fn empty_object() {
    assert_eq!(parse("{}").unwrap(), Value::Object(vec![]));
}

#[test]
fn plain_string() {
    assert_eq!(parse("\"abc\"").unwrap(), Value::String("abc".to_string()));
}

#[test]
fn missing_value_is_unexpected_token() {
    assert_eq!(parse("{\"a\":}"), Err(ParseError::UnexpectedToken));
}

#[test]
fn duplicate_key_last_wins() {
    let v = parse("{\"a\":1,\"a\":2}").unwrap();
    assert_eq!(v, Value::Object(vec![("a".to_string(), integer(2))]));
}

#[test]
fn duplicate_key_among_others() {
    let v = parse("{\"a\":1,\"b\":true,\"a\":[null]}").unwrap();
    assert_eq!(v.as_object().unwrap().len(), 2);
    assert_eq!(member(&v, "a"), &Value::Array(vec![Value::Null]));
    assert_eq!(member(&v, "b"), &Value::Boolean(true));
}

#[test]
fn split_multibyte_character() {
    // "abé" puts the two bytes of é on either side of a four-byte boundary.
    let split = parse("\"abé\"").unwrap();
    let whole = parse("\"é\"").unwrap();
    assert_eq!(split, Value::String("abé".to_string()));
    assert_eq!(whole, Value::String("é".to_string()));
    let four = parse("[\"a😀b\", \"中文\"]").unwrap();
    assert_eq!(
        four,
        Value::Array(vec![
            Value::String("a😀b".to_string()),
            Value::String("中文".to_string())
        ])
    );
}

#[test]
fn reader_hands_out_characters() {
    let mut r = JsonReader::from_bytes("aé😀z".as_bytes());
    let mut got = Vec::new();
    while let Some(c) = r.next() {
        got.push(c);
    }
    assert_eq!(got, vec!['a', 'é', '😀', 'z']);
}

#[test]
fn reader_stops_at_nul() {
    let mut r = JsonReader::new(vec![b'a', 0, b'b']);
    assert_eq!(r.next(), Some('a'));
    assert_eq!(r.next(), None);
}

#[test]
fn reader_stops_at_invalid_utf8() {
    let mut r = JsonReader::new(vec![b'a', b'b', 0xff, b'c', b'd']);
    assert_eq!(r.next(), Some('a'));
    assert_eq!(r.next(), Some('b'));
    assert_eq!(r.next(), None);
}

#[test]
fn reader_on_empty_input() {
    let mut r = JsonReader::new(vec![]);
    assert_eq!(r.next(), None);
}

#[test]
fn tokens_of_an_object() {
    let mut t = JsonTokenizer::from_bytes(b"{\"k\": [1, -2.5], \"n\":null}");
    let tokens = t.tokenize_json().unwrap();
    assert_eq!(
        tokens,
        vec![
            Token::CurlyOpen,
            Token::Quotes,
            Token::String("k".to_string()),
            Token::Quotes,
            Token::Colon,
            Token::ArrayOpen,
            Token::Number(Number::Integer(1)),
            Token::Comma,
            Token::Number(Number::Float("-2.5".to_string())),
            Token::ArrayClose,
            Token::Comma,
            Token::Quotes,
            Token::String("n".to_string()),
            Token::Quotes,
            Token::Colon,
            Token::Null,
            Token::CurlyClose,
        ]
    );
}

#[test]
fn tokens_to_value_ignores_what_follows() {
    let tokens = vec![Token::Boolean(true), Token::Comma];
    assert_eq!(JsonParser::tokens_to_value(&tokens), Ok(Value::Boolean(true)));
    assert_eq!(JsonParser::tokens_to_value(&vec![]), Err(ParseError::UnexpectedEndOfInput));
}

#[test]
fn integer_literals() {
    assert_eq!(parse("0").unwrap(), integer(0));
    assert_eq!(parse("8623").unwrap(), integer(8623));
    assert_eq!(parse("-17").unwrap(), integer(-17));
    assert_eq!(parse("007").unwrap(), integer(7));
    assert_eq!(parse("-0").unwrap(), integer(0));
    assert_eq!(parse("9223372036854775807").unwrap(), integer(i64::MAX));
    assert_eq!(parse("-9223372036854775808").unwrap(), integer(i64::MIN));
}

#[test]
fn integer_out_of_range() {
    assert_eq!(parse("9223372036854775808"), Err(ParseError::NumberOutOfRange));
    assert_eq!(parse("-9223372036854775809"), Err(ParseError::NumberOutOfRange));
    assert_eq!(
        parse("123456789012345678901234567890"),
        Err(ParseError::NumberOutOfRange)
    );
}

#[test]
fn decimal_literals() {
    let cases = ["86.23", "-0.5", "1.", "-.5", "3.14159265358979"];
    for text in cases {
        let v = parse(text).unwrap();
        assert_eq!(float_text(&v), text);
        assert_eq!(float_text(&v).parse::<f64>().unwrap(), text.parse::<f64>().unwrap());
    }
}

#[test]
fn malformed_numerals() {
    assert_eq!(parse("1.2.3"), Err(ParseError::NumberFormat));
    assert_eq!(parse("-"), Err(ParseError::NumberFormat));
    assert_eq!(parse("1-2"), Err(ParseError::NumberFormat));
    assert_eq!(parse("1.-"), Err(ParseError::NumberFormat));
    assert_eq!(parse("-."), Err(ParseError::NumberFormat));
    assert_eq!(parse("--1"), Err(ParseError::NumberFormat));
}

#[test]
fn exponent_is_unexpected() {
    assert_eq!(parse("1e5"), Err(ParseError::UnexpectedCharacter('e')));
}

#[test]
fn numeral_runs() {
    let chars = |s: &str| s.chars().collect::<Vec<char>>();
    assert_eq!(parse_numeral(&chars("42")), Ok(Number::Integer(42)));
    assert_eq!(parse_numeral(&chars("-42")), Ok(Number::Integer(-42)));
    assert_eq!(parse_numeral(&chars("4.2")), Ok(Number::Float("4.2".to_string())));
    assert_eq!(parse_numeral(&chars("")), Err(ParseError::NumberFormat));
    assert_eq!(parse_numeral(&chars("4..2")), Err(ParseError::NumberFormat));
}

#[test]
fn whitespace_between_tokens() {
    let tight = parse("{\"a\":[1,true,null],\"b\":\"x y\"}").unwrap();
    let loose = parse(" \t\r\n{ \"a\" :\n[ 1 ,\ttrue , null ]\r, \"b\"\n:\"x y\" }\n\n ").unwrap();
    assert_eq!(tight, loose);
    assert_eq!(member(&loose, "b"), &Value::String("x y".to_string()));
}

fn depth(v: &Value) -> usize {
    match v {
        Value::Array(a) => 1 + a.iter().map(depth).max().unwrap_or(0),
        Value::Object(m) => 1 + m.iter().map(|(_, v)| depth(v)).max().unwrap_or(0),
        _ => 0,
    }
}

#[test]
fn nesting_depth() {
    for n in [1usize, 2, 10, 100] {
        let text = format!("{}{}", "[".repeat(n), "]".repeat(n));
        assert_eq!(depth(&parse(&text).unwrap()), n);
        let text = format!("{}1{}", "{\"k\":".repeat(n), "}".repeat(n));
        assert_eq!(depth(&parse(&text).unwrap()), n);
    }
}

#[test]
fn keyword_errors() {
    assert_eq!(parse("tru"), Err(ParseError::UnterminatedLiteral));
    assert_eq!(parse("trux"), Err(ParseError::UnexpectedCharacter('x')));
    assert_eq!(parse("fals"), Err(ParseError::UnterminatedLiteral));
    assert_eq!(parse("nul"), Err(ParseError::UnterminatedLiteral));
    assert_eq!(parse("nil"), Err(ParseError::UnexpectedCharacter('i')));
}

#[test]
fn unterminated_string() {
    assert_eq!(parse("\"abc"), Err(ParseError::UnterminatedLiteral));
}

#[test]
fn unexpected_character() {
    assert_eq!(parse("@"), Err(ParseError::UnexpectedCharacter('@')));
    assert_eq!(parse(".5"), Err(ParseError::UnexpectedCharacter('.')));
}

#[test]
fn structural_errors() {
    assert_eq!(parse(""), Err(ParseError::UnexpectedEndOfInput));
    assert_eq!(parse("[1,]"), Err(ParseError::UnexpectedToken));
    assert_eq!(parse("[1 2]"), Err(ParseError::UnexpectedToken));
    assert_eq!(parse("[1"), Err(ParseError::UnexpectedEndOfInput));
    assert_eq!(parse("{\"a\" 1}"), Err(ParseError::UnexpectedToken));
    assert_eq!(parse("{1:2}"), Err(ParseError::UnexpectedToken));
    assert_eq!(parse("]"), Err(ParseError::UnexpectedToken));
}

#[test]
fn backslash_is_kept() {
    assert_eq!(parse("\"a\\b\"").unwrap(), Value::String("a\\b".to_string()));
}

#[test]
fn conversions() {
    assert_eq!(Value::String("s".to_string()).as_string(), Ok("s".to_string()));
    assert_eq!(integer(5).as_string(), Err(TypeMismatch));
    assert_eq!(integer(5).as_integer(), Ok(5));
    assert_eq!(Value::Null.as_integer(), Err(TypeMismatch));
    assert_eq!(Value::Boolean(false).as_bool(), Ok(false));
    assert_eq!(Value::Null.as_bool(), Err(TypeMismatch));
    assert_eq!(Value::Array(vec![Value::Null]).as_array(), Ok(&vec![Value::Null]));
    assert!(Value::Null.as_array().is_err());
    assert!(Value::Null.as_object().is_err());
}

#[test]
fn parse_through_reader() {
    let r = JsonReader::new(b"[true, false]".to_vec());
    assert_eq!(
        JsonParser::parse(r),
        Ok(Value::Array(vec![Value::Boolean(true), Value::Boolean(false)]))
    );
}

fn write_text(v: &Value, out: &mut String) {
    match v {
        Value::String(s) => out.push_str(&format!("\"{}\" ", s)),
        Value::Number(Number::Integer(i)) => out.push_str(&format!("{} ", i)),
        Value::Number(Number::Float(f)) => out.push_str(&format!("{} ", f)),
        Value::Boolean(b) => out.push_str(if *b { "true " } else { "false " }),
        Value::Null => out.push_str("null "),
        Value::Array(a) => {
            out.push_str("[ ");
            for (k, e) in a.iter().enumerate() {
                if k > 0 {
                    out.push_str(", ");
                }
                write_text(e, out);
            }
            out.push_str("] ");
        }
        Value::Object(m) => {
            out.push_str("{ ");
            for (k, (key, e)) in m.iter().enumerate() {
                if k > 0 {
                    out.push_str(", ");
                }
                out.push_str(&format!("\"{}\" : ", key));
                write_text(e, out);
            }
            out.push_str("} ");
        }
    }
}

#[test]
fn round_trip_through_text() {
    let v = Value::Object(vec![
        ("name".to_string(), Value::String("ünï".to_string())),
        ("n".to_string(), integer(-9223372036854775808)),
        ("x".to_string(), Value::Number(Number::Float("-12.5".to_string()))),
        (
            "list".to_string(),
            Value::Array(vec![
                Value::Null,
                Value::Boolean(true),
                Value::Array(vec![]),
                Value::Object(vec![]),
                integer(42),
            ]),
        ),
    ]);
    let mut text = String::new();
    write_text(&v, &mut text);
    assert_eq!(parse(&text).unwrap(), v);
}
