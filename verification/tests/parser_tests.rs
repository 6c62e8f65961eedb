use lambda_lang::errors::Highlight;
use lambda_lang::lexer::{Lexer, Token, TokenData, TokenType};
use lambda_lang::parser::{Error, ExpectedSet, Parser};
use lambda_lang::span::{Offset, SourceFile, Span};
use lambda_lang::syntax::{Expr, ExprBuilder, ExprRef};

fn expected_of(kinds: &[TokenType]) -> ExpectedSet {
    let mut followed_by = ExpectedSet::new();
    for kind in kinds {
        followed_by.insert(kind);
    }
    followed_by
}

fn test_parser<'src, 'expr>(input: String, expected: ExprRef<'src, 'expr>) {
    let source_file = SourceFile {
        name: String::from("test"),
        start: Offset(0),
        content: input,
    };
    let lexer_res = Lexer::from_source_file(&source_file).tokenize();
    match lexer_res {
        Result::Ok(ref tokens) => {
            let builder = ExprBuilder::new();
            assert_eq!(
                Parser::new(&builder, tokens).parse_expr_eof(),
                Result::Ok(expected)
            )
        }
        Result::Err(err) => panic!("{:?}", err),
    }
}

fn test_parser_fail<'src, 'tokens>(input: String, expected: Error<'src, 'tokens>) {
    let source_file = SourceFile {
        name: String::from("test"),
        start: Offset(0),
        content: input,
    };
    let lexer_res = Lexer::from_source_file(&source_file).tokenize();
    match lexer_res {
        Result::Ok(ref tokens) => {
            let builder = ExprBuilder::new();
            assert_eq!(
                Parser::new(&builder, tokens).parse_expr_eof(),
                Result::Err(expected)
            )
        }
        Result::Err(err) => panic!("{:?}", err),
    }
}

#[test]
fn test_parser_ident() {
    let input = String::from("hello");
    test_parser(input, &Expr::Ident("hello"))
}

#[test]
fn test_parser_lambda() {
    let input = String::from("\\x -> x");
    test_parser(input, &Expr::Lam("x", &Expr::Ident("x")))
}

#[test]
fn test_parser_app_2() {
    let input = String::from("x x");
    test_parser(input, &Expr::App(&Expr::Ident("x"), &Expr::Ident("x")))
}

#[test]
fn test_parser_app_4() {
    let input = String::from("what is love baby");

    let builder = ExprBuilder::new();
    let expected = builder.mk_apps(
        builder.mk_ident("what"),
        vec![
            builder.mk_ident("is"),
            builder.mk_ident("love"),
            builder.mk_ident("baby"),
        ],
    );
    test_parser(input, expected)
}

#[test]
fn test_parser_app_fail1() {
    let input = String::from("x \\y -> y");
    test_parser_fail(
        input,
        Error::Unexpected {
            actual: &Token {
                data: TokenData::Backslash,
                span: Span {
                    start: Offset(2),
                    length: Offset(1),
                },
            },
            expected: expected_of(&[TokenType::Ident, TokenType::LParen, TokenType::Eof]),
        },
    )
}

#[test]
fn test_parser_app_fail2() {
    let input = String::from("(x \\y -> y)");
    test_parser_fail(
        input,
        Error::Unexpected {
            actual: &Token {
                data: TokenData::Backslash,
                span: Span {
                    start: Offset(3),
                    length: Offset(1),
                },
            },
            expected: expected_of(&[TokenType::Ident, TokenType::LParen, TokenType::RParen]),
        },
    );
}

#[test]
fn test_parser_app_fail3() {
    let input = String::from("x y \\z -> z");
    test_parser_fail(
        input,
        Error::Unexpected {
            actual: &Token {
                data: TokenData::Backslash,
                span: Span {
                    start: Offset(4),
                    length: Offset(1),
                },
            },
            expected: expected_of(&[TokenType::Ident, TokenType::LParen, TokenType::Eof]),
        },
    );
}

#[test]
fn test_parser_app_fail4() {
    let input = String::from("(x y \\z -> z)");
    test_parser_fail(
        input,
        Error::Unexpected {
            actual: &Token {
                data: TokenData::Backslash,
                span: Span {
                    start: Offset(5),
                    length: Offset(1),
                },
            },
            expected: expected_of(&[TokenType::Ident, TokenType::LParen, TokenType::RParen]),
        },
    );
}

#[test]
fn test_parser_parens() {
    let input = String::from("(x)");
    test_parser(input, &Expr::Parens(&Expr::Ident("x")))
}

#[test]
fn parse_application_associates_to_the_left() {
    let input = String::from("what is love baby");
    test_parser(
        input,
        &Expr::App(
            &Expr::App(
                &Expr::App(&Expr::Ident("what"), &Expr::Ident("is")),
                &Expr::Ident("love"),
            ),
            &Expr::Ident("baby"),
        ),
    )
}

#[test]
fn parse_lambda_body_extends_to_the_right() {
    let input = String::from("\\x -> f x y");
    test_parser(
        input,
        &Expr::Lam(
            "x",
            &Expr::App(
                &Expr::App(&Expr::Ident("f"), &Expr::Ident("x")),
                &Expr::Ident("y"),
            ),
        ),
    )
}

#[test]
fn parse_skips_white_space_between_tokens() {
    let input = String::from("\\x\n->\n (  x\n)  y \n");
    test_parser(
        input,
        &Expr::Lam(
            "x",
            &Expr::App(&Expr::Parens(&Expr::Ident("x")), &Expr::Ident("y")),
        ),
    )
}

#[test]
fn parse_lambda_inside_parentheses_as_argument() {
    let input = String::from("f (\\x -> x) y");
    test_parser(
        input,
        &Expr::App(
            &Expr::App(
                &Expr::Ident("f"),
                &Expr::Parens(&Expr::Lam("x", &Expr::Ident("x"))),
            ),
            &Expr::Ident("y"),
        ),
    )
}

#[test]
fn parse_empty_input_expects_start_of_expression() {
    test_parser_fail(
        String::new(),
        Error::Unexpected {
            actual: &Token {
                data: TokenData::Eof,
                span: Span {
                    start: Offset(0),
                    length: Offset(1),
                },
            },
            expected: expected_of(&[TokenType::Backslash, TokenType::Ident, TokenType::LParen]),
        },
    );
}

#[test]
fn parse_leading_space_is_not_skipped() {
    test_parser_fail(
        String::from(" x"),
        Error::Unexpected {
            actual: &Token {
                data: TokenData::Space,
                span: Span {
                    start: Offset(0),
                    length: Offset(1),
                },
            },
            expected: expected_of(&[TokenType::Backslash, TokenType::Ident, TokenType::LParen]),
        },
    );
}

#[test]
fn parse_missing_arrow() {
    test_parser_fail(
        String::from("\\x x"),
        Error::Unexpected {
            actual: &Token {
                data: TokenData::Ident("x"),
                span: Span {
                    start: Offset(3),
                    length: Offset(1),
                },
            },
            expected: expected_of(&[TokenType::RArrow]),
        },
    );
}

#[test]
fn parse_missing_binder() {
    test_parser_fail(
        String::from("\\ -> x"),
        Error::Unexpected {
            actual: &Token {
                data: TokenData::RArrow,
                span: Span {
                    start: Offset(2),
                    length: Offset(2),
                },
            },
            expected: expected_of(&[TokenType::Ident]),
        },
    );
}

#[test]
fn parse_missing_closing_parenthesis() {
    test_parser_fail(
        String::from("(x"),
        Error::Unexpected {
            actual: &Token {
                data: TokenData::Eof,
                span: Span {
                    start: Offset(2),
                    length: Offset(1),
                },
            },
            expected: expected_of(&[TokenType::Ident, TokenType::LParen, TokenType::RParen]),
        },
    );
}

#[test]
fn parse_stray_closing_parenthesis() {
    test_parser_fail(
        String::from("x )"),
        Error::Unexpected {
            actual: &Token {
                data: TokenData::RParen,
                span: Span {
                    start: Offset(2),
                    length: Offset(1),
                },
            },
            expected: expected_of(&[TokenType::Ident, TokenType::LParen, TokenType::Eof]),
        },
    );
}

#[test]
fn parse_equals_has_no_place_in_expressions() {
    test_parser_fail(
        String::from("f = x"),
        Error::Unexpected {
            actual: &Token {
                data: TokenData::Equals,
                span: Span {
                    start: Offset(2),
                    length: Offset(1),
                },
            },
            expected: expected_of(&[TokenType::Ident, TokenType::LParen, TokenType::Eof]),
        },
    );
}

#[test]
fn parse_twice_gives_equal_results() {
    let source_file = SourceFile {
        name: String::from("test"),
        start: Offset(0),
        content: String::from("\\f -> \\x -> f (f x)"),
    };
    let tokens = Lexer::from_source_file(&source_file).tokenize().unwrap();
    let builder = ExprBuilder::new();
    let first = Parser::new(&builder, &tokens).parse_expr_eof();
    let second = Parser::new(&builder, &tokens).parse_expr_eof();
    assert!(first.is_ok());
    assert_eq!(first, second);

    let bad_file = SourceFile {
        name: String::from("test"),
        start: Offset(0),
        content: String::from("f (x"),
    };
    let bad_tokens = Lexer::from_source_file(&bad_file).tokenize().unwrap();
    let first = Parser::new(&builder, &bad_tokens).parse_expr_eof();
    let second = Parser::new(&builder, &bad_tokens).parse_expr_eof();
    assert!(first.is_err());
    assert_eq!(first, second);
}

#[test]
fn inserting_an_expected_token_lets_the_parser_go_on() {
    // "f )" fails on ")", the token at index 2.
    let source_file = SourceFile {
        name: String::from("test"),
        start: Offset(0),
        content: String::from("f )"),
    };
    let tokens = Lexer::from_source_file(&source_file).tokenize().unwrap();
    let builder = ExprBuilder::new();
    let expected = match Parser::new(&builder, &tokens).parse_expr_eof() {
        Result::Err(Error::Unexpected { actual, expected }) => {
            assert!(std::ptr::eq(actual, &tokens[2]));
            expected
        }
        other => panic!("{:?}", other),
    };
    assert_eq!(
        expected.as_vec(),
        vec![TokenType::Ident, TokenType::LParen, TokenType::Eof]
    );
    // With a token of a kind that was tried there put in before it, the
    // parser ends further on.
    for data in [TokenData::Ident("x"), TokenData::LParen] {
        let mut mended = Lexer::from_source_file(&source_file).tokenize().unwrap();
        let span = mended[2].span;
        mended.insert(2, Token { data, span });
        match Parser::new(&builder, &mended).parse_expr_eof() {
            Result::Err(Error::Unexpected { actual, .. }) => {
                assert!(std::ptr::eq(actual, &mended[3]));
            }
            other => panic!("{:?}", other),
        }
    }
}

#[test]
fn expected_set_operations() {
    let mut set = ExpectedSet::new();
    assert!(!set.contains(&TokenType::Ident));
    set.insert(&TokenType::Ident);
    set.insert(&TokenType::Eof);
    assert!(set.contains(&TokenType::Ident));
    assert!(set.contains(&TokenType::Eof));
    assert!(!set.contains(&TokenType::LParen));

    let mut other = ExpectedSet::new();
    other.insert(&TokenType::LParen);
    other.insert(&TokenType::Ident);
    set.union(&other);
    assert_eq!(
        set.as_vec(),
        vec![TokenType::Ident, TokenType::LParen, TokenType::Eof]
    );
    assert_eq!(other.as_vec(), vec![TokenType::Ident, TokenType::LParen]);

    let copy = set.clone();
    set.remove(&TokenType::Ident);
    assert!(!set.contains(&TokenType::Ident));
    assert!(copy.contains(&TokenType::Ident));
    assert_eq!(set.as_vec(), vec![TokenType::LParen, TokenType::Eof]);
    assert_ne!(set, copy);

    set.clear();
    assert_eq!(set.as_vec(), Vec::<TokenType>::new());
    assert_eq!(set, ExpectedSet::new());
}

#[test]
fn expected_set_as_text() {
    assert_eq!(ExpectedSet::new().to_string(), "");
    assert_eq!(expected_of(&[TokenType::RArrow]).to_string(), "'->'");
    assert_eq!(
        expected_of(&[TokenType::Eof, TokenType::LParen, TokenType::Ident]).to_string(),
        "identifier, '(', end of input"
    );
}

#[test]
fn parser_errors_report_the_token() {
    let token = Token {
        data: TokenData::Backslash,
        span: Span {
            start: Offset(2),
            length: Offset(1),
        },
    };
    let error = Error::Unexpected {
        actual: &token,
        expected: expected_of(&[TokenType::Ident, TokenType::LParen, TokenType::Eof]),
    };
    let report = error.reportable();
    assert_eq!(
        report.message,
        "Unexpected '\\', expecting one of: identifier, '(', end of input"
    );
    match report.highlight {
        Highlight::Span(span) => assert_eq!(span, token.span),
        Highlight::Point(_) => panic!("expected a span"),
    }
    let report = Error::UnexpectedEof(Offset(9)).reportable();
    assert_eq!(report.message, "Unexpected end of input");
    match report.highlight {
        Highlight::Point(offset) => assert_eq!(offset, Offset(9)),
        Highlight::Span(_) => panic!("expected a point"),
    }
}
