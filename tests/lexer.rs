use refjson::lexer::{Lexer, Span, Token, TokenKind};

#[test]
fn lexer_string() {
    let text = r#""data \"123\" ""#;
    let mut lexer = Lexer::new(text);
    let token = lexer.next().unwrap();
    assert_eq!(
        token,
        Token {
            kind: TokenKind::String,
            data: r#""data \"123\" ""#,
            span: Span {
                start: 0,
                length: 15
            }
        }
    )
}

#[test]
fn lexer_bool() {
    let text = "[true,false]";
    let lexer = Lexer::new(text);
    let tokens: Vec<Token> = lexer.clone().tokens();
    assert_eq!(
        tokens,
        vec![
            Token {
                kind: TokenKind::StartArray,
                data: "[",
                span: Span {
                    start: 0,
                    length: 1
                }
            },
            Token {
                kind: TokenKind::Boolean,
                data: "true",
                span: Span {
                    start: 1,
                    length: 4
                }
            },
            Token {
                kind: TokenKind::Separator,
                data: ",",
                span: Span {
                    start: 5,
                    length: 1
                }
            },
            Token {
                kind: TokenKind::Boolean,
                data: "false",
                span: Span {
                    start: 6,
                    length: 5
                }
            },
            Token {
                kind: TokenKind::EndArray,
                data: "]",
                span: Span {
                    start: 11,
                    length: 1
                }
            }
        ]
    );
}

#[test]
fn lexer_number() {
    let text = "[123456]";
    let lexer = Lexer::new(text);
    let tokens: Vec<Token> = lexer.clone().tokens();
    assert_eq!(
        tokens,
        vec![
            Token {
                kind: TokenKind::StartArray,
                data: "[",
                span: Span {
                    start: 0,
                    length: 1
                }
            },
            Token {
                kind: TokenKind::Integer,
                data: "123456",
                span: Span {
                    start: 1,
                    length: 6
                }
            },
            Token {
                kind: TokenKind::EndArray,
                data: "]",
                span: Span {
                    start: 7,
                    length: 1
                }
            }
        ]
    );
}

#[test]
fn lexer_simple_float() {
    let text = "[123.456,3e-19,-2]";
    let lexer = Lexer::new(text);
    let tokens: Vec<Token> = lexer.clone().tokens();
    assert_eq!(
        tokens,
        vec![
            Token {
                kind: TokenKind::StartArray,
                data: "[",
                span: Span {
                    start: 0,
                    length: 1
                }
            },
            Token {
                kind: TokenKind::Float,
                data: "123.456",
                span: Span {
                    start: 1,
                    length: 7
                }
            },
            Token {
                kind: TokenKind::Separator,
                data: ",",
                span: Span {
                    start: 8,
                    length: 1
                }
            },
            Token {
                kind: TokenKind::Float,
                data: "3e-19",
                span: Span {
                    start: 9,
                    length: 5
                }
            },
            Token {
                kind: TokenKind::Separator,
                data: ",",
                span: Span {
                    start: 14,
                    length: 1
                }
            },
            Token {
                kind: TokenKind::Integer,
                data: "-2",
                span: Span {
                    start: 15,
                    length: 2
                }
            },
            Token {
                kind: TokenKind::EndArray,
                data: "]",
                span: Span {
                    start: 17,
                    length: 1
                }
            }
        ]
    );
}

#[test]
fn lexer_simple_map() {
    let text = r#"{"a": 123.456, "b": "c"}"#;
    let mut lexer = Lexer::new(text);
    let tokens: Vec<Token> = lexer.tokens();
    assert_eq!(
        tokens,
        vec![
            Token {
                kind: TokenKind::StartMapping,
                data: "{",
                span: Span {
                    start: 0,
                    length: 1
                }
            },
            Token {
                kind: TokenKind::String,
                data: r#""a""#,
                span: Span {
                    start: 1,
                    length: 3
                }
            },
            Token {
                kind: TokenKind::KeySeparator,
                data: ":",
                span: Span {
                    start: 4,
                    length: 1
                }
            },
            Token {
                kind: TokenKind::Spacing,
                data: " ",
                span: Span {
                    start: 5,
                    length: 1
                }
            },
            Token {
                kind: TokenKind::Float,
                data: "123.456",
                span: Span {
                    start: 6,
                    length: 7
                }
            },
            Token {
                kind: TokenKind::Separator,
                data: ",",
                span: Span {
                    start: 13,
                    length: 1
                }
            },
            Token {
                kind: TokenKind::Spacing,
                data: " ",
                span: Span {
                    start: 14,
                    length: 1
                }
            },
            Token {
                kind: TokenKind::String,
                data: r#""b""#,
                span: Span {
                    start: 15,
                    length: 3
                }
            },
            Token {
                kind: TokenKind::KeySeparator,
                data: ":",
                span: Span {
                    start: 18,
                    length: 1
                }
            },
            Token {
                kind: TokenKind::Spacing,
                data: " ",
                span: Span {
                    start: 19,
                    length: 1
                }
            },
            Token {
                kind: TokenKind::String,
                data: r#""c""#,
                span: Span {
                    start: 20,
                    length: 3
                }
            },
            Token {
                kind: TokenKind::EndMapping,
                data: "}",
                span: Span {
                    start: 23,
                    length: 1
                }
            }
        ]
    );
}

#[test]
fn lexer_reference() {
    let text = r#"[my_reference_name]"#;
    let mut lexer = Lexer::new(text);
    let tokens: Vec<Token> = lexer.tokens();

    assert_eq!(
        tokens,
        vec![
            Token {
                kind: TokenKind::StartArray,
                data: "[",
                span: Span {
                    start: 0,
                    length: 1
                }
            },
            Token {
                kind: TokenKind::Reference,
                data: "my_reference_name",
                span: Span {
                    start: 1,
                    length: 17
                }
            },
            Token {
                kind: TokenKind::EndArray,
                data: "]",
                span: Span {
                    start: 18,
                    length: 1
                }
            }
        ]
    );
}

#[test]
fn lexer_reference_ending_in_number() {
    let text = r#"[my_reference_name_12]"#;
    let mut lexer = Lexer::new(text);
    let tokens: Vec<Token> = lexer.tokens();

    assert_eq!(
        tokens,
        vec![
            Token {
                kind: TokenKind::StartArray,
                data: "[",
                span: Span {
                    start: 0,
                    length: 1
                }
            },
            Token {
                kind: TokenKind::Reference,
                data: "my_reference_name_12",
                span: Span {
                    start: 1,
                    length: 20
                }
            },
            Token {
                kind: TokenKind::EndArray,
                data: "]",
                span: Span {
                    start: 21,
                    length: 1
                }
            }
        ]
    );
}

#[test]
fn lexer_reference_ending_in_boolean() {
    let text = r#"[my_reference_name_true, my_reference_name_false]"#;
    let mut lexer = Lexer::new(text);
    let tokens: Vec<Token> = lexer.tokens();

    assert_eq!(
        tokens,
        vec![
            Token {
                kind: TokenKind::StartArray,
                data: "[",
                span: Span {
                    start: 0,
                    length: 1
                }
            },
            Token {
                kind: TokenKind::Reference,
                data: "my_reference_name_true",
                span: Span {
                    start: 1,
                    length: 22
                }
            },
            Token {
                kind: TokenKind::Separator,
                data: ",",
                span: Span {
                    start: 23,
                    length: 1
                }
            },
            Token {
                kind: TokenKind::Spacing,
                data: " ",
                span: Span {
                    start: 24,
                    length: 1
                }
            },
            Token {
                kind: TokenKind::Reference,
                data: "my_reference_name_false",
                span: Span {
                    start: 25,
                    length: 23
                }
            },
            Token {
                kind: TokenKind::EndArray,
                data: "]",
                span: Span {
                    start: 48,
                    length: 1
                }
            }
        ]
    );
}

#[test]
fn lexer_spacing_kinds() {
    let mut lexer = Lexer::new(" \t\n");
    let kinds: Vec<TokenKind> = lexer.tokens().iter().map(|t| t.kind.clone()).collect();
    assert_eq!(
        kinds,
        vec![TokenKind::Spacing, TokenKind::TabSpacing, TokenKind::NewLine]
    );
}

#[test]
fn lexer_number_at_end_of_input() {
    let mut lexer = Lexer::new("1234");
    let token = lexer.next().unwrap();
    assert_eq!(token.kind, TokenKind::Integer);
    assert_eq!(token.data, "1234");
    assert_eq!(token.span.as_range(), 0..4);
    assert!(lexer.next().is_none());
}

#[test]
fn lexer_second_dot_fails_for_good() {
    let mut lexer = Lexer::new("1.2.3 [1]");
    assert!(lexer.next().is_none());
    assert!(lexer.is_error());
    assert!(lexer.next().is_none());
    assert!(lexer.tokens().is_empty());
}

#[test]
fn lexer_escaped_backslash_then_quote_closes() {
    let mut lexer = Lexer::new(r#""a\\"b" x"#);
    let token = lexer.next().unwrap();
    assert_eq!(token.kind, TokenKind::String);
    assert_eq!(token.data, r#""a\\""#);
}

#[test]
fn lexer_skipped_bytes_join_the_next_token() {
    let mut lexer = Lexer::new("[-2]");
    let tokens = lexer.tokens();
    assert_eq!(tokens[1].kind, TokenKind::Integer);
    assert_eq!(tokens[1].data, "-2");
}

#[test]
fn lexer_non_ascii_is_skipped() {
    let mut lexer = Lexer::new("[\u{e9}]");
    let tokens = lexer.tokens();
    assert_eq!(tokens.len(), 2);
    assert_eq!(tokens[1].kind, TokenKind::EndArray);
    assert_eq!(tokens[1].data, "\u{e9}]");
    assert_eq!(tokens[1].span, Span { start: 1, length: 3 });
}

#[test]
fn lexer_escaped_quote_stays_in_string() {
    let mut lexer = Lexer::new(r#""a\"b" x"#);
    let token = lexer.next().unwrap();
    assert_eq!(token.data, r#""a\"b""#);
    assert_eq!(token.span, Span { start: 0, length: 6 });
}
