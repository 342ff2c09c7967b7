use refjson::lexer::Lexer;
use refjson::parser::{Error, ErrorKind, Parser};
use refjson::value::{Value, ValueRef};

fn parse(text: &str) -> Result<ValueRef<'_>, Error> {
    Parser::from_str(text).to_value()
}

fn kind_of(text: &str) -> ErrorKind {
    parse(text).unwrap_err().kind
}

#[test]
fn parse_integer() {
    let mut parser = Parser::from_str("1234");

    assert_eq!(parser.to_value(), Ok(ValueRef::Integer(1234)))
}

#[test]
fn parse_simple_map() {
    let mut parser = Parser::from_str(r#"{"a": 1234}"#);
    let expected = vec![("a", ValueRef::Integer(1234))];

    assert_eq!(parser.to_value(), Ok(ValueRef::Object(expected)))
}

#[test]
fn parse_simple_array() {
    let mut parser = Parser::from_str(r#"["test", 1, true, false, 912.21]"#);
    let expected = vec![
        ValueRef::String("test"),
        ValueRef::Integer(1),
        ValueRef::Boolean(true),
        ValueRef::Boolean(false),
        ValueRef::Number("912.21"),
    ];

    assert_eq!(parser.to_value(), Ok(ValueRef::Array(expected)))
}

#[test]
fn parse_map() {
    let mut parser = Parser::from_str(r#"{"a": 1234, "b": true, "c": {"d": false}}"#);
    let expected = vec![
        ("a", ValueRef::Integer(1234)),
        ("b", ValueRef::Boolean(true)),
        (
            "c",
            ValueRef::Object(vec![("d", ValueRef::Boolean(false))]),
        ),
    ];

    assert_eq!(parser.to_value(), Ok(ValueRef::Object(expected)))
}

#[test]
fn parse_number_text_reads_as_float() {
    match parse("912.21") {
        Ok(ValueRef::Number(text)) => assert_eq!(text.parse::<f64>().unwrap(), 912.21),
        other => panic!("unexpected {:?}", other),
    }
}

#[test]
fn parse_double_separator() {
    assert_eq!(kind_of("[1,,2]"), ErrorKind::DoubleSeparators);
}

#[test]
fn parse_trailing_separator() {
    assert_eq!(
        parse("[1,2,]"),
        Ok(ValueRef::Array(vec![ValueRef::Integer(1), ValueRef::Integer(2)]))
    );
}

#[test]
fn parse_reference_ending_in_true() {
    assert_eq!(
        parse("[my_reference_name_true]"),
        Ok(ValueRef::Array(vec![ValueRef::Reference("my_reference_name_true")]))
    );
}

#[test]
fn parse_float_and_integer_kinds() {
    assert_eq!(parse("123.456"), Ok(ValueRef::Number("123.456")));
    assert_eq!(parse("3e-19"), Ok(ValueRef::Number("3e-19")));
    assert_eq!(parse("-2"), Ok(ValueRef::Integer(-2)));
}

#[test]
fn parse_second_dot_before_any_token() {
    let mut lexer = Lexer::new("1.2.3");
    assert!(lexer.next().is_none());
    assert!(lexer.is_error());
    let mut parser = Parser::from_lexer(lexer);
    assert_eq!(parser.to_value().unwrap_err().kind, ErrorKind::Lexer);
}

#[test]
fn parse_second_dot_while_parsing() {
    assert_eq!(kind_of("1.2.3"), ErrorKind::NoValue);
    assert_eq!(kind_of("[1.2.3]"), ErrorKind::NoValue);
}

#[test]
fn parse_errors() {
    assert_eq!(kind_of(""), ErrorKind::NoValue);
    assert_eq!(kind_of("[1, 2"), ErrorKind::NoValue);
    assert_eq!(kind_of("]"), ErrorKind::InvalidToken);
    assert_eq!(kind_of("}"), ErrorKind::InvalidToken);
    assert_eq!(kind_of(","), ErrorKind::InvalidToken);
    assert_eq!(kind_of("{: 1}"), ErrorKind::InvalidToken);
    assert_eq!(kind_of("{\"a\" 1}"), ErrorKind::InvalidToken);
    assert_eq!(kind_of("[1:]"), ErrorKind::InvalidToken);
    assert_eq!(kind_of("99999999999999999999"), ErrorKind::InvalidInteger);
    assert_eq!(kind_of("$5"), ErrorKind::InvalidInteger);
    assert_eq!(kind_of("f.5"), ErrorKind::InvalidNumber);
}

#[test]
fn parse_integer_limits() {
    assert_eq!(parse("9223372036854775807"), Ok(ValueRef::Integer(i64::MAX)));
    assert_eq!(parse("-9223372036854775808"), Ok(ValueRef::Integer(i64::MIN)));
    assert_eq!(kind_of("9223372036854775808"), ErrorKind::InvalidInteger);
    assert_eq!(parse("+5"), Ok(ValueRef::Integer(5)));
}

#[test]
fn parse_duplicate_key_last_wins() {
    assert_eq!(
        parse(r#"{"a": 1, "b": 2, "a": 3}"#),
        Ok(ValueRef::Object(vec![
            ("a", ValueRef::Integer(3)),
            ("b", ValueRef::Integer(2)),
        ]))
    );
}

#[test]
fn parse_string_keeps_escapes() {
    assert_eq!(parse(r#""a\"b""#), Ok(ValueRef::String(r#"a\"b"#)));
    assert_eq!(
        parse(r#"{"k": "v"}"#),
        Ok(ValueRef::Object(vec![("k", ValueRef::String("v"))]))
    );
}

#[test]
fn parse_last_top_level_value_wins() {
    assert_eq!(parse("1 2"), Ok(ValueRef::Integer(2)));
}

#[test]
fn parse_twice_gives_equal_trees() {
    let text = String::from(r#"{"a": [1, 2.5, x], "b": {"c": "d"}}"#);
    let copy = text.clone();
    let first = Parser::from_str(&text).to_value();
    let second = Parser::from_str(&copy).to_value();
    assert!(first.is_ok());
    assert_eq!(first, second);
}

#[test]
fn owned_copy_equals_borrowed_tree() {
    let owned: Value;
    {
        let text = String::from(r#"{"a": [1, 2.5, ref_1, "s"], "b": {"c": true}}"#);
        let borrowed = Parser::from_str(&text).to_value().unwrap();
        owned = borrowed.to_value();
    }
    assert_eq!(
        owned,
        Value::Object(vec![
            (
                String::from("a"),
                Value::Array(vec![
                    Value::Integer(1),
                    Value::Number(String::from("2.5")),
                    Value::Reference(String::from("ref_1")),
                    Value::String(String::from("s")),
                ])
            ),
            (
                String::from("b"),
                Value::Object(vec![(String::from("c"), Value::Boolean(true))])
            ),
        ])
    );
}

#[test]
fn invalid_token_error() {
    assert_eq!(Error::invalid_token().kind, ErrorKind::InvalidToken);
}
