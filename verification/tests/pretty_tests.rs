use lambda_lang::de_bruijn;
use lambda_lang::pretty::{pretty_de_bruijn, pretty_syntax};
use lambda_lang::syntax::Expr;

#[test]
fn pretty_syntax_identifier() {
    assert_eq!(pretty_syntax(&Expr::Ident("hello")), "hello");
}

#[test]
fn pretty_syntax_lambda() {
    assert_eq!(
        pretty_syntax(&Expr::Lam("x", &Expr::Lam("y", &Expr::Ident("x")))),
        "\\x -> \\y -> x"
    );
}

#[test]
fn pretty_syntax_application_parentheses() {
    let x = &Expr::Ident("x");
    let y = &Expr::Ident("y");
    let id = &Expr::Lam("z", &Expr::Ident("z"));
    assert_eq!(pretty_syntax(&Expr::App(x, y)), "x y");
    assert_eq!(pretty_syntax(&Expr::App(&Expr::App(x, y), x)), "x y x");
    assert_eq!(pretty_syntax(&Expr::App(x, &Expr::App(y, x))), "x (y x)");
    assert_eq!(pretty_syntax(&Expr::App(id, x)), "(\\z -> z) x");
    assert_eq!(pretty_syntax(&Expr::App(x, id)), "x (\\z -> z)");
}

#[test]
fn pretty_syntax_keeps_explicit_parentheses() {
    let inner = &Expr::App(&Expr::Ident("f"), &Expr::Ident("x"));
    assert_eq!(
        pretty_syntax(&Expr::App(&Expr::Parens(inner), &Expr::Ident("y"))),
        "(f x) y"
    );
    assert_eq!(pretty_syntax(&Expr::Parens(&Expr::Ident("x"))), "(x)");
}

#[test]
fn pretty_de_bruijn_atoms() {
    assert_eq!(pretty_de_bruijn(&de_bruijn::Expr::Var(0)), "#0");
    assert_eq!(pretty_de_bruijn(&de_bruijn::Expr::Var(12)), "#12");
    assert_eq!(pretty_de_bruijn(&de_bruijn::Expr::U64(0)), "0");
    assert_eq!(pretty_de_bruijn(&de_bruijn::Expr::U64(907)), "907");
    assert_eq!(
        pretty_de_bruijn(&de_bruijn::Expr::U64(u64::MAX)),
        "18446744073709551615"
    );
}

#[test]
fn pretty_de_bruijn_compound() {
    let v0 = &de_bruijn::Expr::Var(0);
    let v1 = &de_bruijn::Expr::Var(1);
    let id = &de_bruijn::Expr::Lam(v0);
    assert_eq!(pretty_de_bruijn(id), "\\. #0");
    assert_eq!(pretty_de_bruijn(&de_bruijn::Expr::App(id, id)), "(\\. #0) (\\. #0)");
    assert_eq!(
        pretty_de_bruijn(&de_bruijn::Expr::App(v0, &de_bruijn::Expr::App(v1, v0))),
        "#0 (#1 #0)"
    );
    assert_eq!(
        pretty_de_bruijn(&de_bruijn::Expr::App(&de_bruijn::Expr::App(v1, v0), v0)),
        "#1 #0 #0"
    );
    let sum = &de_bruijn::Expr::AddU64(v0, &de_bruijn::Expr::U64(7));
    assert_eq!(pretty_de_bruijn(sum), "#0 + 7");
    assert_eq!(
        pretty_de_bruijn(&de_bruijn::Expr::AddU64(v1, sum)),
        "#1 + (#0 + 7)"
    );
    assert_eq!(
        pretty_de_bruijn(&de_bruijn::Expr::AddU64(sum, v1)),
        "#0 + 7 + #1"
    );
    assert_eq!(
        pretty_de_bruijn(&de_bruijn::Expr::AddU64(id, id)),
        "(\\. #0) + (\\. #0)"
    );
    assert_eq!(
        pretty_de_bruijn(&de_bruijn::Expr::Lam(&de_bruijn::Expr::Lam(sum))),
        "\\. \\. #0 + 7"
    );
}
