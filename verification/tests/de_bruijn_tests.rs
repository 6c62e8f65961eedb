use lambda_lang::de_bruijn::{from_ast, is_closed, Expr, ExprBuilder};
use lambda_lang::syntax;

#[test]
fn test_from_ast1() {
    let input = &syntax::Expr::Lam("x", &syntax::Expr::Ident("x"));
    let output = &Expr::Lam(&Expr::Var(0));
    let builder = ExprBuilder::new();
    assert_eq!(from_ast(&builder, input), output)
}

#[test]
fn test_from_ast2() {
    let input = &syntax::Expr::Lam("x", &syntax::Expr::Lam("y", &syntax::Expr::Ident("x")));
    let output = &Expr::Lam(&Expr::Lam(&Expr::Var(1)));
    let builder = ExprBuilder::new();
    assert_eq!(from_ast(&builder, input), output)
}

#[test]
fn test_from_ast3() {
    let input = &syntax::Expr::Lam("x", &syntax::Expr::Lam("y", &syntax::Expr::Ident("y")));
    let output = &Expr::Lam(&Expr::Lam(&Expr::Var(0)));
    let builder = ExprBuilder::new();
    assert_eq!(from_ast(&builder, input), output)
}

#[test]
fn test_from_ast4() {
    let input = &syntax::Expr::Lam(
        "x",
        &syntax::Expr::App(
            &syntax::Expr::Lam("x", &syntax::Expr::Ident("x")),
            &syntax::Expr::Ident("x"),
        ),
    );
    let output = &Expr::Lam(&Expr::App(&Expr::Lam(&Expr::Var(0)), &Expr::Var(0)));
    let builder = ExprBuilder::new();
    assert_eq!(from_ast(&builder, input), output)
}

#[test]
fn lowering_drops_parentheses() {
    let input = &syntax::Expr::Lam(
        "f",
        &syntax::Expr::Parens(&syntax::Expr::App(
            &syntax::Expr::Parens(&syntax::Expr::Ident("f")),
            &syntax::Expr::Ident("f"),
        )),
    );
    let output = &Expr::Lam(&Expr::App(&Expr::Var(0), &Expr::Var(0)));
    let builder = ExprBuilder::new();
    assert_eq!(from_ast(&builder, input), output)
}

#[test]
fn lowering_counts_binders_between_use_and_binding() {
    // \x. \y. \x. y x (\z. x y z)
    let input = &syntax::Expr::Lam(
        "x",
        &syntax::Expr::Lam(
            "y",
            &syntax::Expr::Lam(
                "x",
                &syntax::Expr::App(
                    &syntax::Expr::App(&syntax::Expr::Ident("y"), &syntax::Expr::Ident("x")),
                    &syntax::Expr::Lam(
                        "z",
                        &syntax::Expr::App(
                            &syntax::Expr::App(
                                &syntax::Expr::Ident("x"),
                                &syntax::Expr::Ident("y"),
                            ),
                            &syntax::Expr::Ident("z"),
                        ),
                    ),
                ),
            ),
        ),
    );
    let output = &Expr::Lam(&Expr::Lam(&Expr::Lam(&Expr::App(
        &Expr::App(&Expr::Var(1), &Expr::Var(0)),
        &Expr::Lam(&Expr::App(
            &Expr::App(&Expr::Var(1), &Expr::Var(2)),
            &Expr::Var(0),
        )),
    ))));
    let builder = ExprBuilder::new();
    assert_eq!(from_ast(&builder, input), output)
}

#[test]
fn lowering_restores_outer_binding_after_shadowing() {
    // \x. (\x. x) x
    let input = &syntax::Expr::Lam(
        "x",
        &syntax::Expr::Lam(
            "y",
            &syntax::Expr::App(
                &syntax::Expr::Lam("x", &syntax::Expr::Ident("x")),
                &syntax::Expr::Ident("x"),
            ),
        ),
    );
    let output = &Expr::Lam(&Expr::Lam(&Expr::App(
        &Expr::Lam(&Expr::Var(0)),
        &Expr::Var(1),
    )));
    let builder = ExprBuilder::new();
    assert_eq!(from_ast(&builder, input), output)
}

#[test]
fn closed_terms_are_recognised() {
    assert!(is_closed(&syntax::Expr::Lam(
        "x",
        &syntax::Expr::Ident("x")
    )));
    assert!(!is_closed(&syntax::Expr::Ident("x")));
    assert!(!is_closed(&syntax::Expr::Lam(
        "x",
        &syntax::Expr::App(&syntax::Expr::Ident("x"), &syntax::Expr::Ident("y"))
    )));
    // The binder of the function does not reach the argument.
    assert!(!is_closed(&syntax::Expr::App(
        &syntax::Expr::Lam("x", &syntax::Expr::Ident("x")),
        &syntax::Expr::Ident("x")
    )));
}

fn under_binders(expr: &Expr, depth: usize) -> bool {
    match expr {
        Expr::Var(i) => *i < depth,
        Expr::Lam(body) => under_binders(body, depth + 1),
        Expr::App(f, x) => under_binders(f, depth) && under_binders(x, depth),
        Expr::U64(_) => true,
        Expr::AddU64(l, r) => under_binders(l, depth) && under_binders(r, depth),
    }
}

#[test]
fn lowered_variables_lie_under_enough_binders() {
    let input = &syntax::Expr::Lam(
        "a",
        &syntax::Expr::Lam(
            "b",
            &syntax::Expr::App(
                &syntax::Expr::Lam(
                    "c",
                    &syntax::Expr::App(&syntax::Expr::Ident("a"), &syntax::Expr::Ident("c")),
                ),
                &syntax::Expr::Parens(&syntax::Expr::Ident("b")),
            ),
        ),
    );
    assert!(is_closed(input));
    let builder = ExprBuilder::new();
    let output = from_ast(&builder, input);
    assert!(under_binders(output, 0));
    assert_eq!(
        output,
        &Expr::Lam(&Expr::Lam(&Expr::App(
            &Expr::Lam(&Expr::App(&Expr::Var(2), &Expr::Var(0))),
            &Expr::Var(0)
        )))
    );
}

#[test]
fn builder_makes_each_kind_of_term() {
    let builder = ExprBuilder::new();
    let var = builder.mk_var(3);
    let lam = builder.mk_lam(var);
    let app = builder.mk_app(lam, var);
    let num = builder.mk_u64(42);
    let sum = builder.mk_addu64(num, app);
    assert_eq!(var, &Expr::Var(3));
    assert_eq!(lam, &Expr::Lam(&Expr::Var(3)));
    assert_eq!(app, &Expr::App(&Expr::Lam(&Expr::Var(3)), &Expr::Var(3)));
    assert_eq!(num, &Expr::U64(42));
    assert_eq!(
        sum,
        &Expr::AddU64(
            &Expr::U64(42),
            &Expr::App(&Expr::Lam(&Expr::Var(3)), &Expr::Var(3))
        )
    );
}

#[test]
fn syntax_builder_makes_each_kind_of_expression() {
    let builder = syntax::ExprBuilder::new();
    let x = builder.mk_ident("x");
    let y = builder.mk_ident("y");
    assert_eq!(x, &syntax::Expr::Ident("x"));
    assert_eq!(
        builder.mk_lam("x", y),
        &syntax::Expr::Lam("x", &syntax::Expr::Ident("y"))
    );
    assert_eq!(
        builder.mk_parens(x),
        &syntax::Expr::Parens(&syntax::Expr::Ident("x"))
    );
    assert_eq!(
        builder.mk_app(x, y),
        &syntax::Expr::App(&syntax::Expr::Ident("x"), &syntax::Expr::Ident("y"))
    );
    assert_eq!(builder.mk_apps(x, Vec::new()), x);
    assert_eq!(
        builder.mk_apps(x, vec![y, x]),
        &syntax::Expr::App(
            &syntax::Expr::App(&syntax::Expr::Ident("x"), &syntax::Expr::Ident("y")),
            &syntax::Expr::Ident("x")
        )
    );
}
