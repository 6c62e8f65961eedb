use lambda_lang::generate::{ident_length, letter, Generator};
use lambda_lang::lexer::Lexer;
use lambda_lang::parser::Parser;
use lambda_lang::pretty::pretty_syntax;
use lambda_lang::span::{Offset, SourceFile};
use lambda_lang::syntax::{Expr, ExprBuilder};

fn is_name(name: &str) -> bool {
    (1..=10).contains(&name.len()) && name.chars().all(|c| c.is_ascii_lowercase())
}

/// Every identifier lies under exactly `size` abstractions and applications.
fn has_depth(expr: &Expr, size: u32) -> bool {
    match expr {
        Expr::Ident(name) => size == 0 && is_name(name),
        Expr::Lam(arg, body) => size > 0 && is_name(arg) && has_depth(body, size - 1),
        Expr::App(f, x) => size > 0 && has_depth(f, size - 1) && has_depth(x, size - 1),
        Expr::Parens(_) => false,
    }
}

#[test]
fn letters_go_round_the_alphabet() {
    assert_eq!(letter(0), 'a');
    assert_eq!(letter(25), 'z');
    assert_eq!(letter(26), 'a');
    assert_eq!(letter(27 + 26 * 1000), 'b');
}

#[test]
fn identifier_lengths_are_one_to_ten() {
    assert_eq!(ident_length(0), 1);
    assert_eq!(ident_length(9), 10);
    assert_eq!(ident_length(10), 1);
    assert_eq!(ident_length(255), 6);
}

#[test]
fn picked_identifiers_are_names() {
    let generator = Generator::new();
    for r in 0..300u64 {
        assert!(is_name(generator.pick_ident(r)));
    }
    assert_eq!(generator.pick_ident(5), generator.pick_ident(105));
}

#[test]
fn generated_expressions_have_the_given_depth() {
    let generator = Generator::new();
    for size in 0..6u32 {
        let builder = ExprBuilder::new();
        let expr = generator.gen_expr(&builder, size);
        assert!(has_depth(expr, size));
    }
}

#[test]
fn generated_expressions_print_and_parse() {
    let generator = Generator::new();
    let builder = ExprBuilder::new();
    let expr = generator.gen_expr(&builder, 4);
    let source_file = SourceFile {
        name: String::from("generated"),
        start: Offset(0),
        content: pretty_syntax(expr),
    };
    let tokens = Lexer::from_source_file(&source_file).tokenize().unwrap();
    let parsed = ExprBuilder::new();
    assert!(Parser::new(&parsed, &tokens).parse_expr_eof().is_ok());
}
