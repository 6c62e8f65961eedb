//! What the parser computes, as functions on the sequence of tokens.
//!
//! ```text
//! expr   ::= '\' ident '->' expr | app
//! app    ::= atom atom*
//! atom   ::= ident | '(' expr ')'
//! ```
//!
//! `Space` and `Newline` tokens are skipped after each token that is
//! consumed, and nowhere else.
use crate::lexer::{TokenType, TokenView};
use crate::syntax::Term;
use vstd::prelude::*;

verus! {

/// Where the parser stands: the index of the current token, and the kinds
/// that were tried on it without success since the last token was consumed.
pub struct Cursor {
    pub pos: int,
    pub expected: Set<TokenType>,
}

/// A parse error: the index of the token that fits nowhere, and the kinds
/// that would have fitted.
pub struct Failure {
    pub at: int,
    pub expected: Set<TokenType>,
}

/// The tokens end in the end marker.
pub open spec fn well_terminated(tokens: Seq<TokenView>) -> bool {
    tokens.len() > 0 && tokens.last().kind == TokenType::Eof
}

/// White space: `Space` and `Newline`.
pub open spec fn is_space(kind: TokenType) -> bool {
    kind == TokenType::Space || kind == TokenType::Newline
}

/// The index of the first token from `pos` on that is no white space.
pub open spec fn skip_spaces(tokens: Seq<TokenView>, pos: int) -> int
    decreases tokens.len() - pos,
{
    if 0 <= pos < tokens.len() && is_space(tokens[pos].kind) {
        skip_spaces(tokens, pos + 1)
    } else {
        pos
    }
}

/// Skipping white space moves on, inside the tokens, to a token that is no
/// white space.
pub proof fn lemma_skip_spaces(tokens: Seq<TokenView>, pos: int)
    requires
        well_terminated(tokens),
        0 <= pos < tokens.len(),
    ensures
        pos <= skip_spaces(tokens, pos) < tokens.len(),
        !is_space(tokens[skip_spaces(tokens, pos)].kind),
    decreases tokens.len() - pos,
{
    if is_space(tokens[pos].kind) {
        lemma_skip_spaces(tokens, pos + 1);
    }
}

/// `c` with the white space at the current token skipped.
pub open spec fn skipped(tokens: Seq<TokenView>, c: Cursor) -> Cursor {
    Cursor { pos: skip_spaces(tokens, c.pos), expected: c.expected }
}

/// Tries `kind` on the current token. A hit consumes the token and empties
/// the expected set; a miss adds `kind` to the set.
pub open spec fn expect(tokens: Seq<TokenView>, c: Cursor, kind: TokenType) -> (Cursor, bool) {
    if tokens[c.pos].kind == kind {
        (Cursor { pos: c.pos + 1, expected: Set::empty() }, true)
    } else {
        (Cursor { pos: c.pos, expected: c.expected.insert(kind) }, false)
    }
}

/// The error at `c` that reports what was tried there.
pub open spec fn fail(c: Cursor) -> Failure {
    Failure { at: c.pos, expected: c.expected }
}

/// The error at `c` that reports what was tried there and `extra`.
pub open spec fn fail_with(c: Cursor, extra: Set<TokenType>) -> Failure {
    Failure { at: c.pos, expected: c.expected.union(extra) }
}

/// The kinds that start an atom.
pub open spec fn atom_start() -> Set<TokenType> {
    set![TokenType::Ident, TokenType::LParen]
}

/// The cursor stands on a token.
pub open spec fn in_range(tokens: Seq<TokenView>, c: Cursor) -> bool {
    0 <= c.pos < tokens.len()
}

/// `to` lies further on in the tokens than `from`. The parser always moves
/// on where the functions below ask for it (`lemma_progress`); they ask so
/// that their recursion is seen to end.
pub open spec fn moved_on(tokens: Seq<TokenView>, from: Cursor, to: Cursor) -> bool {
    from.pos < to.pos <= tokens.len()
}

/// `atom ::= ident | '(' expr ')'`, or nothing where neither starts. Between
/// the parentheses only `)` may follow the expression.
pub open spec fn atom_spec(tokens: Seq<TokenView>, c: Cursor) -> (
    Cursor,
    Result<Option<Term>, Failure>,
)
    decreases tokens.len() - c.pos, 1nat,
{
    if !in_range(tokens, c) {
        (c, Err(fail(c)))
    } else {
        let (c1, hit) = expect(tokens, c, TokenType::Ident);
        if hit {
            (skipped(tokens, c1), Ok(Some(Term::Ident(tokens[c.pos].text))))
        } else {
            let (c2, hit) = expect(tokens, c1, TokenType::LParen);
            if !hit {
                (c2, Ok(None))
            } else {
                let c3 = skipped(tokens, c2);
                if !moved_on(tokens, c, c3) {
                    (c3, Err(fail(c3)))
                } else {
                    let (c4, inner) = expr_spec(tokens, c3, Some(set![TokenType::RParen]));
                    close_paren(tokens, c4, inner)
                }
            }
        }
    }
}

/// The end of a parenthesised atom: after the expression `inner`, which
/// ended at `c`, a `)` must follow.
pub open spec fn close_paren(tokens: Seq<TokenView>, c: Cursor, inner: Result<Term, Failure>) -> (
    Cursor,
    Result<Option<Term>, Failure>,
) {
    match inner {
        Err(failure) => (c, Err(failure)),
        Ok(inner) => {
            let (c1, hit) = expect(tokens, c, TokenType::RParen);
            if hit {
                (skipped(tokens, c1), Ok(Some(Term::Parens(Box::new(inner)))))
            } else {
                (c1, Err(fail(c1)))
            }
        },
    }
}

/// The rest of an abstraction after its `\` and the white space behind it:
/// `ident '->' expr`.
pub open spec fn lam_tail_spec(
    tokens: Seq<TokenView>,
    c: Cursor,
    follow: Option<Set<TokenType>>,
) -> (Cursor, Result<Term, Failure>)
    decreases tokens.len() - c.pos, 2nat,
{
    if !in_range(tokens, c) {
        (c, Err(fail(c)))
    } else {
        let (c1, hit) = expect(tokens, c, TokenType::Ident);
        if !hit {
            (c1, Err(fail(c1)))
        } else {
            let c2 = skipped(tokens, c1);
            let (c3, hit) = expect(tokens, c2, TokenType::RArrow);
            if !hit {
                (c3, Err(fail(c3)))
            } else {
                let c4 = skipped(tokens, c3);
                if !moved_on(tokens, c, c4) {
                    (c4, Err(fail(c4)))
                } else {
                    let (c5, body) = expr_spec(tokens, c4, follow);
                    match body {
                        Err(failure) => (c5, Err(failure)),
                        Ok(body) => (c5, Ok(Term::Lam(tokens[c.pos].text, Box::new(body)))),
                    }
                }
            }
        }
    }
}

/// `lambda ::= '\' ident '->' expr`, or nothing where no `\` starts it.
pub open spec fn lam_spec(tokens: Seq<TokenView>, c: Cursor, follow: Option<Set<TokenType>>) -> (
    Cursor,
    Result<Option<Term>, Failure>,
)
    decreases tokens.len() - c.pos, 3nat,
{
    if !in_range(tokens, c) {
        (c, Err(fail(c)))
    } else {
        let (c1, hit) = expect(tokens, c, TokenType::Backslash);
        if !hit {
            (c1, Ok(None))
        } else {
            let c2 = skipped(tokens, c1);
            if !moved_on(tokens, c, c2) {
                (c2, Err(fail(c2)))
            } else {
                let (c3, r) = lam_tail_spec(tokens, c2, follow);
                match r {
                    Err(failure) => (c3, Err(failure)),
                    Ok(term) => (c3, Ok(Some(term))),
                }
            }
        }
    }
}

/// The atoms that follow the function `acc` of an application, applied
/// from the left. Where no further atom starts, the current token must be
/// in `follow`; the error otherwise reports `follow` too.
pub open spec fn app_rest_spec(
    tokens: Seq<TokenView>,
    c: Cursor,
    follow: Option<Set<TokenType>>,
    acc: Term,
) -> (Cursor, Result<Option<Term>, Failure>)
    decreases tokens.len() - c.pos, 2nat,
{
    if !in_range(tokens, c) {
        (c, Err(fail(c)))
    } else {
        let (c1, atom) = atom_spec(tokens, c);
        match atom {
            Err(failure) => (c1, Err(failure)),
            Ok(Some(arg)) => {
                if !moved_on(tokens, c, c1) {
                    (c1, Err(fail(c1)))
                } else {
                    app_rest_spec(tokens, c1, follow, Term::App(Box::new(acc), Box::new(arg)))
                }
            },
            Ok(None) => match follow {
                None => (c1, Err(fail(c1))),
                Some(followed_by) => {
                    if followed_by.contains(tokens[c1.pos].kind) {
                        (c1, Ok(Some(acc)))
                    } else {
                        (c1, Err(fail_with(c1, followed_by)))
                    }
                },
            },
        }
    }
}

/// `app ::= atom atom*`, or nothing where no atom starts.
pub open spec fn app_spec(tokens: Seq<TokenView>, c: Cursor, follow: Option<Set<TokenType>>) -> (
    Cursor,
    Result<Option<Term>, Failure>,
)
    decreases tokens.len() - c.pos, 3nat,
{
    if !in_range(tokens, c) {
        (c, Err(fail(c)))
    } else {
        let (c1, atom) = atom_spec(tokens, c);
        match atom {
            Err(failure) => (c1, Err(failure)),
            Ok(None) => (c1, Ok(None)),
            Ok(Some(head)) => {
                if !moved_on(tokens, c, c1) {
                    (c1, Err(fail(c1)))
                } else {
                    app_rest_spec(tokens, c1, follow, head)
                }
            },
        }
    }
}

/// `expr ::= lambda | app`. `follow` holds the kinds that may come after
/// the expression; `None` where nothing was said of them.
pub open spec fn expr_spec(tokens: Seq<TokenView>, c: Cursor, follow: Option<Set<TokenType>>) -> (
    Cursor,
    Result<Term, Failure>,
)
    decreases tokens.len() - c.pos, 4nat,
{
    if !in_range(tokens, c) {
        (c, Err(fail(c)))
    } else {
        let (c1, lam) = lam_spec(tokens, c, follow);
        match lam {
            Err(failure) => (c1, Err(failure)),
            Ok(Some(term)) => (c1, Ok(term)),
            Ok(None) => {
                if c1.pos != c.pos {
                    (c1, Err(fail(c1)))
                } else {
                    let (c2, app) = app_spec(tokens, c1, follow);
                    match app {
                        Err(failure) => (c2, Err(failure)),
                        Ok(Some(term)) => (c2, Ok(term)),
                        Ok(None) => (c2, Err(fail(c2))),
                    }
                }
            },
        }
    }
}

/// A whole expression, after which the end marker must follow.
pub open spec fn expr_eof_spec(tokens: Seq<TokenView>, c: Cursor) -> (
    Cursor,
    Result<Term, Failure>,
) {
    expr_spec(tokens, c, Some(set![TokenType::Eof]))
}

/// `to` is at `from` or further on, and inside the tokens.
pub open spec fn stays_inside(tokens: Seq<TokenView>, from: Cursor, to: Cursor) -> bool {
    from.pos <= to.pos < tokens.len()
}

/// Wherever the parser stops, it stands on a token at or after the one it
/// started on, and a result other than "nothing" or an error has consumed a
/// token. So none of the tests on `moved_on` above ever fails.
pub proof fn lemma_progress(tokens: Seq<TokenView>, c: Cursor, follow: Option<Set<TokenType>>)
    requires
        well_terminated(tokens),
        in_range(tokens, c),
    ensures
        stays_inside(tokens, c, atom_spec(tokens, c).0),
        atom_spec(tokens, c).1 matches Ok(Some(_)) ==> atom_spec(tokens, c).0.pos > c.pos,
        atom_spec(tokens, c).1 matches Ok(None) ==> atom_spec(tokens, c).0.pos == c.pos,
        stays_inside(tokens, c, lam_spec(tokens, c, follow).0),
        lam_spec(tokens, c, follow).1 matches Ok(Some(_)) ==> lam_spec(tokens, c, follow).0.pos
            > c.pos,
        lam_spec(tokens, c, follow).1 matches Ok(None) ==> lam_spec(tokens, c, follow).0.pos
            == c.pos,
        stays_inside(tokens, c, app_spec(tokens, c, follow).0),
        app_spec(tokens, c, follow).1 matches Ok(Some(_)) ==> app_spec(tokens, c, follow).0.pos
            > c.pos,
        stays_inside(tokens, c, expr_spec(tokens, c, follow).0),
        expr_spec(tokens, c, follow).1 is Ok ==> expr_spec(tokens, c, follow).0.pos > c.pos,
    decreases tokens.len() - c.pos, 5nat,
{
    lemma_atom_progress(tokens, c);
    lemma_lam_progress(tokens, c, follow);
    lemma_app_progress(tokens, c, follow);
    lemma_expr_progress(tokens, c, follow);
}

proof fn lemma_atom_progress(tokens: Seq<TokenView>, c: Cursor)
    requires
        well_terminated(tokens),
        in_range(tokens, c),
    ensures
        stays_inside(tokens, c, atom_spec(tokens, c).0),
        atom_spec(tokens, c).1 matches Ok(Some(_)) ==> atom_spec(tokens, c).0.pos > c.pos,
        atom_spec(tokens, c).1 matches Ok(None) ==> atom_spec(tokens, c).0.pos == c.pos,
    decreases tokens.len() - c.pos, 1nat,
{
    let (c1, hit) = expect(tokens, c, TokenType::Ident);
    if hit {
        lemma_skip_spaces(tokens, c1.pos);
    } else {
        let (c2, hit) = expect(tokens, c1, TokenType::LParen);
        if hit {
            lemma_skip_spaces(tokens, c2.pos);
            let c3 = skipped(tokens, c2);
            lemma_expr_progress(tokens, c3, Some(set![TokenType::RParen]));
            let (c4, inner) = expr_spec(tokens, c3, Some(set![TokenType::RParen]));
            if inner is Ok {
                let (c5, hit) = expect(tokens, c4, TokenType::RParen);
                if hit {
                    lemma_skip_spaces(tokens, c5.pos);
                }
            }
        }
    }
}

/// `lemma_progress`, for the rest of an abstraction.
pub proof fn lemma_lam_tail_progress(
    tokens: Seq<TokenView>,
    c: Cursor,
    follow: Option<Set<TokenType>>,
)
    requires
        well_terminated(tokens),
        in_range(tokens, c),
    ensures
        stays_inside(tokens, c, lam_tail_spec(tokens, c, follow).0),
        lam_tail_spec(tokens, c, follow).1 is Ok ==> lam_tail_spec(tokens, c, follow).0.pos
            > c.pos,
    decreases tokens.len() - c.pos, 2nat,
{
    let (c1, hit) = expect(tokens, c, TokenType::Ident);
    if hit {
        lemma_skip_spaces(tokens, c1.pos);
        let c2 = skipped(tokens, c1);
        let (c3, hit) = expect(tokens, c2, TokenType::RArrow);
        if hit {
            lemma_skip_spaces(tokens, c3.pos);
            let c4 = skipped(tokens, c3);
            lemma_expr_progress(tokens, c4, follow);
        }
    }
}

proof fn lemma_lam_progress(tokens: Seq<TokenView>, c: Cursor, follow: Option<Set<TokenType>>)
    requires
        well_terminated(tokens),
        in_range(tokens, c),
    ensures
        stays_inside(tokens, c, lam_spec(tokens, c, follow).0),
        lam_spec(tokens, c, follow).1 matches Ok(Some(_)) ==> lam_spec(tokens, c, follow).0.pos
            > c.pos,
        lam_spec(tokens, c, follow).1 matches Ok(None) ==> lam_spec(tokens, c, follow).0.pos
            == c.pos,
    decreases tokens.len() - c.pos, 3nat,
{
    let (c1, hit) = expect(tokens, c, TokenType::Backslash);
    if hit {
        lemma_skip_spaces(tokens, c1.pos);
        lemma_lam_tail_progress(tokens, skipped(tokens, c1), follow);
    }
}

/// `lemma_progress`, for the further atoms of an application.
pub proof fn lemma_app_rest_progress(
    tokens: Seq<TokenView>,
    c: Cursor,
    follow: Option<Set<TokenType>>,
    acc: Term,
)
    requires
        well_terminated(tokens),
        in_range(tokens, c),
    ensures
        stays_inside(tokens, c, app_rest_spec(tokens, c, follow, acc).0),
    decreases tokens.len() - c.pos, 2nat,
{
    lemma_atom_progress(tokens, c);
    let (c1, atom) = atom_spec(tokens, c);
    match atom {
        Ok(Some(arg)) => {
            lemma_app_rest_progress(
                tokens,
                c1,
                follow,
                Term::App(Box::new(acc), Box::new(arg)),
            );
        },
        _ => {},
    }
}

proof fn lemma_app_progress(tokens: Seq<TokenView>, c: Cursor, follow: Option<Set<TokenType>>)
    requires
        well_terminated(tokens),
        in_range(tokens, c),
    ensures
        stays_inside(tokens, c, app_spec(tokens, c, follow).0),
        app_spec(tokens, c, follow).1 matches Ok(Some(_)) ==> app_spec(tokens, c, follow).0.pos
            > c.pos,
    decreases tokens.len() - c.pos, 3nat,
{
    lemma_atom_progress(tokens, c);
    let (c1, atom) = atom_spec(tokens, c);
    match atom {
        Ok(Some(head)) => {
            lemma_app_rest_progress(tokens, c1, follow, head);
        },
        _ => {},
    }
}

proof fn lemma_expr_progress(tokens: Seq<TokenView>, c: Cursor, follow: Option<Set<TokenType>>)
    requires
        well_terminated(tokens),
        in_range(tokens, c),
    ensures
        stays_inside(tokens, c, expr_spec(tokens, c, follow).0),
        expr_spec(tokens, c, follow).1 is Ok ==> expr_spec(tokens, c, follow).0.pos > c.pos,
    decreases tokens.len() - c.pos, 4nat,
{
    lemma_lam_progress(tokens, c, follow);
    let (c1, lam) = lam_spec(tokens, c, follow);
    if lam matches Ok(None) {
        lemma_app_progress(tokens, c1, follow);
    }
}

/// While the parser stays on one token, the kinds it has tried there only
/// grow.
pub proof fn lemma_expected_grows(
    tokens: Seq<TokenView>,
    c: Cursor,
    follow: Option<Set<TokenType>>,
)
    requires
        well_terminated(tokens),
        in_range(tokens, c),
    ensures
        atom_spec(tokens, c).0.pos == c.pos ==> c.expected.subset_of(
            atom_spec(tokens, c).0.expected,
        ),
        lam_tail_spec(tokens, c, follow).0.pos == c.pos ==> c.expected.subset_of(
            lam_tail_spec(tokens, c, follow).0.expected,
        ),
        lam_spec(tokens, c, follow).0.pos == c.pos ==> c.expected.subset_of(
            lam_spec(tokens, c, follow).0.expected,
        ),
        app_spec(tokens, c, follow).0.pos == c.pos ==> c.expected.subset_of(
            app_spec(tokens, c, follow).0.expected,
        ),
        expr_spec(tokens, c, follow).0.pos == c.pos ==> c.expected.subset_of(
            expr_spec(tokens, c, follow).0.expected,
        ),
{
    let rp = Some(set![TokenType::RParen]);
    lemma_progress(tokens, c, follow);
    lemma_lam_tail_progress(tokens, c, follow);
    // An atom, and with it an application, stays only where both of its kinds miss.
    let (c1, hit1) = expect(tokens, c, TokenType::Ident);
    if hit1 {
        lemma_skip_spaces(tokens, c1.pos);
    } else {
        let (c2, hit2) = expect(tokens, c1, TokenType::LParen);
        if hit2 {
            lemma_skip_spaces(tokens, c2.pos);
            let c3 = skipped(tokens, c2);
            lemma_progress(tokens, c3, rp);
            let (c4, inner) = expr_spec(tokens, c3, rp);
            if inner is Ok {
                let (c5, hit5) = expect(tokens, c4, TokenType::RParen);
                if hit5 {
                    lemma_skip_spaces(tokens, c5.pos);
                }
            }
        }
    }
    let (a1, atom) = atom_spec(tokens, c);
    match atom {
        Ok(Some(head)) => {
            lemma_app_rest_progress(tokens, a1, follow, head);
        },
        _ => {},
    }
    // An abstraction stays only where no `\` starts it.
    let (b1, hit) = expect(tokens, c, TokenType::Backslash);
    if hit {
        lemma_skip_spaces(tokens, b1.pos);
        lemma_lam_tail_progress(tokens, skipped(tokens, b1), follow);
    } else {
        lemma_progress(tokens, b1, follow);
        let (a2, atom2) = atom_spec(tokens, b1);
        match atom2 {
            Ok(Some(head)) => {
                lemma_app_rest_progress(tokens, a2, follow, head);
            },
            _ => {},
        }
    }
    // The rest of an abstraction stays only where no identifier follows.
    let (t1, hit) = expect(tokens, c, TokenType::Ident);
    if hit {
        lemma_skip_spaces(tokens, t1.pos);
        let t2 = skipped(tokens, t1);
        let (t3, hit3) = expect(tokens, t2, TokenType::RArrow);
        if hit3 {
            lemma_skip_spaces(tokens, t3.pos);
            lemma_progress(tokens, skipped(tokens, t3), follow);
        }
    }
}

} // verus!
