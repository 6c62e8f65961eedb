use lambda_lang::errors::Highlight;
use lambda_lang::lexer::{ends_in_eof, Error, Lexer, NextToken, Token, TokenData, TokenType};
use lambda_lang::span::{Offset, SourceFile, Span};

fn test_source_file(content: String) -> SourceFile {
    SourceFile {
        name: String::from("test"),
        start: Offset(0),
        content,
    }
}

#[test]
fn test_lexer_example1() {
    let src_file = test_source_file(String::from("->"));
    assert_eq!(
        Lexer::from_source_file(&src_file).next_token(),
        NextToken::Token(Token {
            data: TokenData::RArrow,
            span: Span {
                start: Offset(0),
                length: Offset(2)
            }
        })
    );
}

#[test]
fn test_lexer_example2() {
    let src_file = test_source_file(String::from("hello"));
    assert_eq!(
        Lexer::from_source_file(&src_file).next_token(),
        NextToken::Token(Token {
            data: TokenData::Ident("hello"),
            span: Span {
                start: Offset(0),
                length: Offset(5)
            }
        })
    );
}

#[test]
fn test_lexer_example3() {
    let src_file = test_source_file(String::from("f = \\input -> input"));
    assert_eq!(
        Lexer::from_source_file(&src_file).tokenize(),
        Result::Ok(vec![
            Token {
                data: TokenData::Ident("f"),
                span: Span {
                    start: Offset(0),
                    length: Offset(1)
                }
            },
            Token {
                data: TokenData::Space,
                span: Span {
                    start: Offset(1),
                    length: Offset(1)
                }
            },
            Token {
                data: TokenData::Equals,
                span: Span {
                    start: Offset(2),
                    length: Offset(1)
                }
            },
            Token {
                data: TokenData::Space,
                span: Span {
                    start: Offset(3),
                    length: Offset(1)
                }
            },
            Token {
                data: TokenData::Backslash,
                span: Span {
                    start: Offset(4),
                    length: Offset(1)
                }
            },
            Token {
                data: TokenData::Ident("input"),
                span: Span {
                    start: Offset(5),
                    length: Offset(5)
                }
            },
            Token {
                data: TokenData::Space,
                span: Span {
                    start: Offset(10),
                    length: Offset(1)
                }
            },
            Token {
                data: TokenData::RArrow,
                span: Span {
                    start: Offset(11),
                    length: Offset(2)
                }
            },
            Token {
                data: TokenData::Space,
                span: Span {
                    start: Offset(13),
                    length: Offset(1)
                }
            },
            Token {
                data: TokenData::Ident("input"),
                span: Span {
                    start: Offset(14),
                    length: Offset(5)
                }
            },
            Token {
                data: TokenData::Eof,
                span: Span {
                    start: Offset(19),
                    length: Offset(1)
                }
            },
        ])
    );
}

#[test]
fn test_lexer_example4() {
    let src_file = test_source_file(String::from("  aa\x7f"));
    assert_eq!(
        Lexer::from_source_file(&src_file).tokenize(),
        Result::Err(Error::Unexpected('\x7f', Offset(4)))
    );
}

#[test]
fn test_lexer_example5() {
    let src_file = test_source_file(String::from("  aa\naa"));
    assert_eq!(
        Lexer::from_source_file(&src_file).tokenize(),
        Result::Ok(vec![
            Token {
                data: TokenData::Space,
                span: Span {
                    start: Offset(0),
                    length: Offset(1)
                }
            },
            Token {
                data: TokenData::Space,
                span: Span {
                    start: Offset(1),
                    length: Offset(1)
                }
            },
            Token {
                data: TokenData::Ident("aa"),
                span: Span {
                    start: Offset(2),
                    length: Offset(2)
                }
            },
            Token {
                data: TokenData::Newline,
                span: Span {
                    start: Offset(4),
                    length: Offset(1)
                }
            },
            Token {
                data: TokenData::Ident("aa"),
                span: Span {
                    start: Offset(5),
                    length: Offset(2)
                }
            },
            Token {
                data: TokenData::Eof,
                span: Span {
                    start: Offset(7),
                    length: Offset(1)
                }
            },
        ])
    );
}

#[test]
fn test_lexer_example6() {
    let src_file = test_source_file(String::from("  aa\na\x7f"));
    assert_eq!(
        Lexer::from_source_file(&src_file).tokenize(),
        Result::Err(Error::Unexpected('\x7f', Offset(6)))
    );
}

#[test]
fn lex_arrow_then_end_marker() {
    let src_file = test_source_file(String::from("->"));
    assert_eq!(
        Lexer::from_source_file(&src_file).tokenize(),
        Result::Ok(vec![
            Token {
                data: TokenData::RArrow,
                span: Span {
                    start: Offset(0),
                    length: Offset(2)
                }
            },
            Token {
                data: TokenData::Eof,
                span: Span {
                    start: Offset(2),
                    length: Offset(1)
                }
            },
        ])
    );
}

#[test]
fn lex_unexpected_control_character() {
    let src_file = test_source_file(String::from("  aa\x19"));
    assert_eq!(
        Lexer::from_source_file(&src_file).tokenize(),
        Result::Err(Error::Unexpected('\x19', Offset(4)))
    );
}

#[test]
fn lex_empty_input_is_only_the_end_marker() {
    let src_file = test_source_file(String::new());
    let mut lexer = Lexer::from_source_file(&src_file);
    assert_eq!(lexer.next_token(), NextToken::Done);
    assert_eq!(
        Lexer::from_source_file(&src_file).tokenize(),
        Result::Ok(vec![Token {
            data: TokenData::Eof,
            span: Span {
                start: Offset(0),
                length: Offset(1)
            }
        }])
    );
}

#[test]
fn lex_each_single_character_token() {
    let src_file = test_source_file(String::from(" \n\\()="));
    let kinds: Vec<TokenType> = Lexer::from_source_file(&src_file)
        .tokenize()
        .unwrap()
        .iter()
        .map(|token| token.token_type())
        .collect();
    assert_eq!(
        kinds,
        vec![
            TokenType::Space,
            TokenType::Newline,
            TokenType::Backslash,
            TokenType::LParen,
            TokenType::RParen,
            TokenType::Equals,
            TokenType::Eof,
        ]
    );
}

#[test]
fn lex_dash_at_end_of_input() {
    let src_file = test_source_file(String::from("a -"));
    assert_eq!(
        Lexer::from_source_file(&src_file).tokenize(),
        Result::Err(Error::UnexpectedEof(Offset(3)))
    );
}

#[test]
fn lex_dash_before_other_character() {
    let src_file = test_source_file(String::from("-x"));
    assert_eq!(
        Lexer::from_source_file(&src_file).tokenize(),
        Result::Err(Error::Unexpected('x', Offset(1)))
    );
}

#[test]
fn lex_identifier_takes_letters_and_digits() {
    let src_file = test_source_file(String::from("aB9z_"));
    let mut lexer = Lexer::from_source_file(&src_file);
    assert_eq!(
        lexer.next_token(),
        NextToken::Token(Token {
            data: TokenData::Ident("aB9z"),
            span: Span {
                start: Offset(0),
                length: Offset(4)
            }
        })
    );
    assert_eq!(
        lexer.next_token(),
        NextToken::Error(Error::Unexpected('_', Offset(4)))
    );
}

#[test]
fn lex_upper_case_cannot_start_identifier() {
    let src_file = test_source_file(String::from("Abc"));
    assert_eq!(
        Lexer::from_source_file(&src_file).tokenize(),
        Result::Err(Error::Unexpected('A', Offset(0)))
    );
}

#[test]
fn lex_non_ascii_character_is_unexpected() {
    let src_file = test_source_file(String::from("ab é"));
    assert_eq!(
        Lexer::from_source_file(&src_file).tokenize(),
        Result::Err(Error::Unexpected('é', Offset(3)))
    );
}

#[test]
fn lex_spans_are_global_addresses() {
    let src_file = SourceFile {
        name: String::from("second"),
        start: Offset(100),
        content: String::from("ab c"),
    };
    assert_eq!(
        Lexer::from_source_file(&src_file).tokenize(),
        Result::Ok(vec![
            Token {
                data: TokenData::Ident("ab"),
                span: Span {
                    start: Offset(100),
                    length: Offset(2)
                }
            },
            Token {
                data: TokenData::Space,
                span: Span {
                    start: Offset(102),
                    length: Offset(1)
                }
            },
            Token {
                data: TokenData::Ident("c"),
                span: Span {
                    start: Offset(103),
                    length: Offset(1)
                }
            },
            Token {
                data: TokenData::Eof,
                span: Span {
                    start: Offset(104),
                    length: Offset(1)
                }
            },
        ])
    );
}

#[test]
fn lex_spans_tile_the_input() {
    let text = "\\f -> (f x)\n  y = z";
    let src_file = test_source_file(String::from(text));
    let tokens = Lexer::from_source_file(&src_file).tokenize().unwrap();
    let mut next = 0u32;
    for token in tokens.iter() {
        assert_eq!(token.span.start, Offset(next));
        next = token.span.end().to_u32();
    }
    let last = tokens.last().unwrap();
    assert_eq!(last.data, TokenData::Eof);
    assert_eq!(last.span.start, Offset(text.len() as u32));
    assert_eq!(last.span.length, Offset(1));
}

#[test]
fn token_type_indices_round_trip() {
    let kinds = [
        TokenType::Space,
        TokenType::Newline,
        TokenType::Backslash,
        TokenType::Ident,
        TokenType::RArrow,
        TokenType::LParen,
        TokenType::RParen,
        TokenType::Equals,
        TokenType::Eof,
    ];
    for (i, kind) in kinds.iter().enumerate() {
        assert_eq!(kind.to_usize(), i);
        assert_eq!(TokenType::unsafe_from_usize(i), *kind);
    }
}

#[test]
fn token_type_descriptions() {
    assert_eq!(TokenType::Space.to_string(), "' '");
    assert_eq!(TokenType::Newline.to_string(), "newline");
    assert_eq!(TokenType::Backslash.to_string(), "'\\'");
    assert_eq!(TokenType::Ident.to_string(), "identifier");
    assert_eq!(TokenType::RArrow.to_string(), "'->'");
    assert_eq!(TokenType::LParen.to_string(), "'('");
    assert_eq!(TokenType::RParen.to_string(), "')'");
    assert_eq!(TokenType::Equals.to_string(), "'='");
    assert_eq!(TokenType::Eof.to_string(), "end of input");
}

#[test]
fn lexer_errors_report_a_point() {
    let report = Error::Unexpected('#', Offset(7)).reportable();
    assert_eq!(report.message, "Unexpected symbol '#'");
    match report.highlight {
        Highlight::Point(offset) => assert_eq!(offset, Offset(7)),
        Highlight::Span(_) => panic!("expected a point"),
    }
    let report = Error::UnexpectedEof(Offset(3)).reportable();
    assert_eq!(report.message, "Unexpected end of input");
    match report.highlight {
        Highlight::Point(offset) => assert_eq!(offset, Offset(3)),
        Highlight::Span(_) => panic!("expected a point"),
    }
}

#[test]
fn tokens_end_in_the_end_marker() {
    let src_file = test_source_file(String::from("a b"));
    let mut tokens = Lexer::from_source_file(&src_file).tokenize().unwrap();
    assert!(ends_in_eof(&tokens));
    tokens.pop();
    assert!(!ends_in_eof(&tokens));
    assert!(!ends_in_eof(&Vec::new()));
}
