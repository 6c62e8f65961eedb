//! The expected set of a parse error is not idle: a token of a kind that was
//! tried on the offending token, put in before it, is consumed.
use crate::lexer::{TokenType, TokenView};
use crate::parser::grammar::{
    app_rest_spec, app_spec, atom_spec, close_paren, expect, expr_eof_spec, expr_spec, fail,
    in_range, is_space, lam_spec, lam_tail_spec, lemma_app_rest_progress, lemma_expected_grows,
    lemma_lam_tail_progress, lemma_progress, lemma_skip_spaces, skip_spaces, skipped,
    well_terminated, Cursor, Failure,
};
use crate::syntax::Term;
use vstd::prelude::*;

verus! {

/// `tokens` with `token` put in before the token at index `k`.
pub open spec fn inserted(tokens: Seq<TokenView>, k: int, token: TokenView) -> Seq<TokenView> {
    tokens.take(k).push(token) + tokens.skip(k)
}

/// `kinds` has a member.
pub open spec fn nonempty(kinds: Set<TokenType>) -> bool {
    exists|kind: TokenType| kinds.contains(kind)
}

/// Two token sequences that are alike before index `k`, where the second
/// holds a token that is no white space; and a cursor at or before `k` that
/// has tried only kinds that the parser tries, and not yet the kind of that
/// token on the token at `k`.
pub open spec fn comparable(
    tokens: Seq<TokenView>,
    other: Seq<TokenView>,
    k: int,
    c: Cursor,
) -> bool {
    &&& well_terminated(tokens)
    &&& well_terminated(other)
    &&& 0 <= k < tokens.len()
    &&& k < other.len()
    &&& forall|i: int| 0 <= i < k ==> tokens[i] == other[i]
    &&& !is_space(other[k].kind)
    &&& in_range(tokens, c)
    &&& c.pos <= k
    &&& (c.pos == k ==> !c.expected.contains(other[k].kind))
    &&& forall|tried: TokenType| c.expected.contains(tried) ==> triable(tried)
}

/// The kinds that the parser tries on tokens.
pub open spec fn triable(kind: TokenType) -> bool {
    kind == TokenType::Backslash || kind == TokenType::Ident || kind == TokenType::RArrow || kind
        == TokenType::LParen || kind == TokenType::RParen
}

/// How the run on `other`, which ended in `out2`, relates to the run on
/// `tokens`, which ended in `out` at or before `k`; `found` says that `out`
/// holds an expression.
///
/// Only kinds that the parser tries come into the expected set. An error
/// lies at the cursor and reports at least what was tried there.
/// An expression that ends on `k` with kinds tried there ends so because
/// the token at `k` is in the follow set. Where the kind of `other[k]` was
/// tried on `tokens[k]`, the run on `other` has moved past `k`. Where it was
/// not, and no follow set was asked about it, both runs ended alike.
pub open spec fn related<R>(
    tokens: Seq<TokenView>,
    other: Seq<TokenView>,
    k: int,
    follow: Option<Set<TokenType>>,
    out: (Cursor, Result<R, Failure>),
    found: bool,
    out2: (Cursor, Result<R, Failure>),
) -> bool {
    let kind = other[k].kind;
    let c1 = out.0;
    let by_follow = found && c1.pos == k && nonempty(c1.expected);
    &&& forall|tried: TokenType| c1.expected.contains(tried) ==> triable(tried)
    &&& out.1 matches Err(failure) ==> failure.at == c1.pos && c1.expected.subset_of(
        failure.expected,
    ) && nonempty(c1.expected)
    &&& by_follow ==> (follow matches Some(followed_by) && followed_by.contains(tokens[k].kind))
    &&& c1.pos == k && c1.expected.contains(kind) ==> out2.0.pos > k
    &&& (c1.pos < k || !c1.expected.contains(kind)) && !by_follow && (out.1 matches Err(failure)
        ==> c1.pos < k || !failure.expected.contains(kind)) ==> out2 == out
}

proof fn lemma_inserted(tokens: Seq<TokenView>, k: int, token: TokenView)
    requires
        well_terminated(tokens),
        0 <= k < tokens.len(),
    ensures
        well_terminated(inserted(tokens, k, token)),
        inserted(tokens, k, token).len() == tokens.len() + 1,
        inserted(tokens, k, token)[k] == token,
        forall|i: int| 0 <= i < k ==> tokens[i] == inserted(tokens, k, token)[i],
{
    let other = inserted(tokens, k, token);
    assert(other.last() == tokens.last());
}

proof fn lemma_skip_agree(tokens: Seq<TokenView>, other: Seq<TokenView>, k: int, p: int)
    requires
        0 <= p <= k < tokens.len(),
        k < other.len(),
        forall|i: int| 0 <= i < k ==> tokens[i] == other[i],
        !is_space(other[k].kind),
        skip_spaces(tokens, p) <= k,
    ensures
        skip_spaces(other, p) == skip_spaces(tokens, p),
    decreases k - p,
{
    if p < k {
        if is_space(tokens[p].kind) {
            lemma_skip_agree(tokens, other, k, p + 1);
        }
    } else if is_space(tokens[k].kind) {
        lemma_skip_moves_on(tokens, k + 1);
    }
}

proof fn lemma_skip_moves_on(tokens: Seq<TokenView>, p: int)
    ensures
        skip_spaces(tokens, p) >= p,
    decreases tokens.len() - p,
{
    if 0 <= p < tokens.len() && is_space(tokens[p].kind) {
        lemma_skip_moves_on(tokens, p + 1);
    }
}

/// An atom that starts on an identifier or on `(` consumes it.
proof fn lemma_atom_hit(tokens: Seq<TokenView>, c: Cursor)
    requires
        well_terminated(tokens),
        in_range(tokens, c),
        tokens[c.pos].kind == TokenType::Ident || tokens[c.pos].kind == TokenType::LParen,
    ensures
        atom_spec(tokens, c).0.pos > c.pos,
{
    let rp = Some(set![TokenType::RParen]);
    let (c1, hit1) = expect(tokens, c, TokenType::Ident);
    if hit1 {
        lemma_skip_spaces(tokens, c1.pos);
    } else {
        let (c2, hit2) = expect(tokens, c1, TokenType::LParen);
        lemma_skip_spaces(tokens, c2.pos);
        let c3 = skipped(tokens, c2);
        lemma_progress(tokens, c3, rp);
        let (c4, inner) = expr_spec(tokens, c3, rp);
        lemma_close_paren_progress(tokens, c4, inner);
    }
}

proof fn lemma_close_paren_progress(
    tokens: Seq<TokenView>,
    c: Cursor,
    inner: Result<Term, Failure>,
)
    requires
        well_terminated(tokens),
        in_range(tokens, c),
    ensures
        c.pos <= close_paren(tokens, c, inner).0.pos < tokens.len(),
{
    if inner is Ok {
        let (c1, hit) = expect(tokens, c, TokenType::RParen);
        if hit {
            lemma_skip_spaces(tokens, c1.pos);
        }
    }
}

/// The rest of an abstraction that starts on an identifier consumes it.
proof fn lemma_lam_tail_hit(tokens: Seq<TokenView>, c: Cursor, follow: Option<Set<TokenType>>)
    requires
        well_terminated(tokens),
        in_range(tokens, c),
        tokens[c.pos].kind == TokenType::Ident,
    ensures
        lam_tail_spec(tokens, c, follow).0.pos > c.pos,
{
    let (c1, hit1) = expect(tokens, c, TokenType::Ident);
    lemma_skip_spaces(tokens, c1.pos);
    let c2 = skipped(tokens, c1);
    lemma_lam_arrow_progress(tokens, c2, follow);
}

/// From the `->` of an abstraction on the parser does not go back.
proof fn lemma_lam_arrow_progress(
    tokens: Seq<TokenView>,
    c: Cursor,
    follow: Option<Set<TokenType>>,
)
    requires
        well_terminated(tokens),
        in_range(tokens, c),
    ensures
        ({
            let (c3, hit3) = expect(tokens, c, TokenType::RArrow);
            let c4 = skipped(tokens, c3);
            &&& hit3 ==> c.pos < c4.pos < tokens.len() && expr_spec(tokens, c4, follow).0.pos
                >= c4.pos
            &&& !hit3 ==> c3.pos == c.pos
        }),
{
    let (c3, hit3) = expect(tokens, c, TokenType::RArrow);
    if hit3 {
        lemma_skip_spaces(tokens, c3.pos);
        lemma_progress(tokens, skipped(tokens, c3), follow);
    }
}

/// An abstraction that starts on `\` consumes it.
proof fn lemma_lam_hit(tokens: Seq<TokenView>, c: Cursor, follow: Option<Set<TokenType>>)
    requires
        well_terminated(tokens),
        in_range(tokens, c),
        tokens[c.pos].kind == TokenType::Backslash,
    ensures
        lam_spec(tokens, c, follow).0.pos > c.pos,
        expr_spec(tokens, c, follow).0.pos > c.pos,
{
    let (c1, hit1) = expect(tokens, c, TokenType::Backslash);
    lemma_skip_spaces(tokens, c1.pos);
    lemma_lam_tail_progress(tokens, skipped(tokens, c1), follow);
}

/// The end of a parenthesised atom, compared on both token sequences.
proof fn lemma_close_paren_closure(
    tokens: Seq<TokenView>,
    other: Seq<TokenView>,
    k: int,
    c: Cursor,
    inner: Term,
)
    requires
        comparable(tokens, other, k, c),
        close_paren(tokens, c, Ok(inner)).0.pos <= k,
        c.pos == k ==> !nonempty(c.expected),
    ensures
        related(
            tokens,
            other,
            k,
            None::<Set<TokenType>>,
            close_paren(tokens, c, Ok(inner)),
            close_paren(tokens, c, Ok(inner)).1 matches Ok(Some(_)),
            close_paren(other, c, Ok(inner)),
        ),
{
    let (c1, hit) = expect(tokens, c, TokenType::RParen);
    let (d1, hit_other) = expect(other, c, TokenType::RParen);
    if hit {
        lemma_skip_spaces(tokens, c1.pos);
        lemma_skip_agree(tokens, other, k, c1.pos);
        assert(!nonempty(skipped(tokens, c1).expected));
    } else {
        assert(c1.expected.contains(TokenType::RParen));
        if hit_other {
            lemma_skip_spaces(other, d1.pos);
        } else {
            assert(d1 == c1);
        }
    }
}

proof fn lemma_atom_closure(tokens: Seq<TokenView>, other: Seq<TokenView>, k: int, c: Cursor)
    requires
        comparable(tokens, other, k, c),
        atom_spec(tokens, c).0.pos <= k,
    ensures
        related(
            tokens,
            other,
            k,
            None::<Set<TokenType>>,
            atom_spec(tokens, c),
            atom_spec(tokens, c).1 matches Ok(Some(_)),
            atom_spec(other, c),
        ),
        atom_spec(tokens, c).1 matches Ok(Some(_)) ==> !nonempty(atom_spec(tokens, c).0.expected),
        atom_spec(tokens, c).1 matches Ok(None) ==> atom_spec(tokens, c).0 == (Cursor {
            pos: c.pos,
            expected: c.expected.insert(TokenType::Ident).insert(TokenType::LParen),
        }),
    decreases tokens.len() - c.pos, 1nat,
{
    let rp = Some(set![TokenType::RParen]);
    let out = atom_spec(tokens, c);
    let out2 = atom_spec(other, c);
    let (c1, hit1) = expect(tokens, c, TokenType::Ident);
    let (d1, hit1_other) = expect(other, c, TokenType::Ident);
    if hit1 {
        lemma_skip_spaces(tokens, c1.pos);
        lemma_skip_agree(tokens, other, k, c1.pos);
        assert(!nonempty(out.0.expected));
        assert(out2 == out);
    } else if hit1_other {
        lemma_atom_hit(other, c);
        let (c2, hit2) = expect(tokens, c1, TokenType::LParen);
        if hit2 {
            lemma_atom_hit(tokens, c);
        }
        assert(out.0.expected.contains(TokenType::Ident));
    } else {
        let (c2, hit2) = expect(tokens, c1, TokenType::LParen);
        let (d2, hit2_other) = expect(other, d1, TokenType::LParen);
        if hit2 {
            lemma_skip_spaces(tokens, c2.pos);
            let c3 = skipped(tokens, c2);
            lemma_progress(tokens, c3, rp);
            let (c4, r4) = expr_spec(tokens, c3, rp);
            lemma_close_paren_progress(tokens, c4, r4);
            assert(out == close_paren(tokens, c4, r4));
            lemma_skip_agree(tokens, other, k, c2.pos);
            lemma_expr_closure(tokens, other, k, c3, rp);
            lemma_progress(other, c3, rp);
            let (d4, s4) = expr_spec(other, c3, rp);
            lemma_close_paren_progress(other, d4, s4);
            assert(out2 == close_paren(other, d4, s4));
            match r4 {
                Err(failure) => {},
                Ok(inner) => {
                    if c4.pos == k && nonempty(c4.expected) {
                        // The expression ended on `)`, which is consumed.
                        let (c5, hit5) = expect(tokens, c4, TokenType::RParen);
                        assert(hit5);
                        lemma_skip_spaces(tokens, c5.pos);
                        assert(false);
                    }
                    if c4.pos == k {
                        assert(!c4.expected.contains(other[k].kind));
                    }
                    assert((d4, s4) == (c4, r4));
                    lemma_close_paren_closure(tokens, other, k, c4, inner);
                    if out.1 matches Ok(Some(_)) {
                        let (c5, hit5) = expect(tokens, c4, TokenType::RParen);
                        assert(!nonempty(skipped(tokens, c5).expected));
                    }
                },
            }
        } else if hit2_other {
            lemma_atom_hit(other, c);
            assert(out.0.expected.contains(TokenType::LParen));
        } else {
            assert(out2 == out);
            assert(out.0.expected.contains(TokenType::Ident));
        }
    }
}

proof fn lemma_lam_tail_closure(
    tokens: Seq<TokenView>,
    other: Seq<TokenView>,
    k: int,
    c: Cursor,
    follow: Option<Set<TokenType>>,
)
    requires
        comparable(tokens, other, k, c),
        lam_tail_spec(tokens, c, follow).0.pos <= k,
    ensures
        related(
            tokens,
            other,
            k,
            follow,
            lam_tail_spec(tokens, c, follow),
            lam_tail_spec(tokens, c, follow).1 is Ok,
            lam_tail_spec(other, c, follow),
        ),
    decreases tokens.len() - c.pos, 2nat,
{
    let out = lam_tail_spec(tokens, c, follow);
    let out2 = lam_tail_spec(other, c, follow);
    let (c1, hit1) = expect(tokens, c, TokenType::Ident);
    let (d1, hit1_other) = expect(other, c, TokenType::Ident);
    if !hit1 {
        assert(c1.expected.contains(TokenType::Ident));
        if hit1_other {
            lemma_lam_tail_hit(other, c, follow);
        } else {
            assert(out2 == out);
        }
    } else {
        lemma_skip_spaces(tokens, c1.pos);
        let c2 = skipped(tokens, c1);
        lemma_lam_arrow_progress(tokens, c2, follow);
        lemma_skip_agree(tokens, other, k, c1.pos);
        lemma_lam_arrow_progress(other, c2, follow);
        let (c3, hit3) = expect(tokens, c2, TokenType::RArrow);
        let (d3, hit3_other) = expect(other, c2, TokenType::RArrow);
        if !hit3 {
            assert(c3.expected.contains(TokenType::RArrow));
            assert(c2.expected =~= Set::<TokenType>::empty());
            if !hit3_other {
                assert(out2 == out);
            }
        } else {
            let c4 = skipped(tokens, c3);
            lemma_skip_agree(tokens, other, k, c3.pos);
            lemma_expr_closure(tokens, other, k, c4, follow);
        }
    }
}

proof fn lemma_lam_closure(
    tokens: Seq<TokenView>,
    other: Seq<TokenView>,
    k: int,
    c: Cursor,
    follow: Option<Set<TokenType>>,
)
    requires
        comparable(tokens, other, k, c),
        lam_spec(tokens, c, follow).0.pos <= k,
    ensures
        related(
            tokens,
            other,
            k,
            follow,
            lam_spec(tokens, c, follow),
            lam_spec(tokens, c, follow).1 matches Ok(Some(_)),
            lam_spec(other, c, follow),
        ),
        lam_spec(tokens, c, follow).1 matches Ok(None) ==> lam_spec(tokens, c, follow).0 == (
        Cursor { pos: c.pos, expected: c.expected.insert(TokenType::Backslash) }),
    decreases tokens.len() - c.pos, 3nat,
{
    let out = lam_spec(tokens, c, follow);
    let out2 = lam_spec(other, c, follow);
    let (c1, hit1) = expect(tokens, c, TokenType::Backslash);
    let (d1, hit1_other) = expect(other, c, TokenType::Backslash);
    if !hit1 {
        assert(c1.expected.contains(TokenType::Backslash));
        if hit1_other {
            lemma_lam_hit(other, c, follow);
        } else {
            assert(out2 == out);
        }
    } else {
        lemma_skip_spaces(tokens, c1.pos);
        let c2 = skipped(tokens, c1);
        lemma_lam_tail_progress(tokens, c2, follow);
        lemma_skip_agree(tokens, other, k, c1.pos);
        lemma_lam_tail_closure(tokens, other, k, c2, follow);
    }
}

proof fn lemma_app_rest_closure(
    tokens: Seq<TokenView>,
    other: Seq<TokenView>,
    k: int,
    c: Cursor,
    follow: Option<Set<TokenType>>,
    acc: Term,
)
    requires
        comparable(tokens, other, k, c),
        app_rest_spec(tokens, c, follow, acc).0.pos <= k,
    ensures
        related(
            tokens,
            other,
            k,
            follow,
            app_rest_spec(tokens, c, follow, acc),
            app_rest_spec(tokens, c, follow, acc).1 matches Ok(Some(_)),
            app_rest_spec(other, c, follow, acc),
        ),
        !(app_rest_spec(tokens, c, follow, acc).1 matches Ok(None)),
    decreases tokens.len() - c.pos, 2nat,
{
    let out = app_rest_spec(tokens, c, follow, acc);
    let out2 = app_rest_spec(other, c, follow, acc);
    lemma_progress(tokens, c, follow);
    lemma_progress(other, c, follow);
    let (c1, r1) = atom_spec(tokens, c);
    let (d1, s1) = atom_spec(other, c);
    match r1 {
        Ok(Some(arg)) => {
            let next = Term::App(Box::new(acc), Box::new(arg));
            lemma_app_rest_progress(tokens, c1, follow, next);
        },
        _ => {},
    }
    lemma_atom_closure(tokens, other, k, c);
    match s1 {
        Ok(Some(arg)) => {
            lemma_app_rest_progress(other, d1, follow, Term::App(Box::new(acc), Box::new(arg)));
        },
        _ => {},
    }
    match r1 {
        Err(failure) => {},
        Ok(Some(arg)) => {
            let next = Term::App(Box::new(acc), Box::new(arg));
            assert((d1, s1) == (c1, r1));
            lemma_app_rest_closure(tokens, other, k, c1, follow, next);
        },
        Ok(None) => {
            assert(c1.expected.contains(TokenType::Ident));
            if c.pos == k && (other[k].kind == TokenType::Ident || other[k].kind
                == TokenType::LParen) {
                lemma_atom_hit(other, c);
            } else {
                assert((d1, s1) == (c1, r1));
            }
        },
    }
}

proof fn lemma_app_closure(
    tokens: Seq<TokenView>,
    other: Seq<TokenView>,
    k: int,
    c: Cursor,
    follow: Option<Set<TokenType>>,
)
    requires
        comparable(tokens, other, k, c),
        app_spec(tokens, c, follow).0.pos <= k,
    ensures
        related(
            tokens,
            other,
            k,
            follow,
            app_spec(tokens, c, follow),
            app_spec(tokens, c, follow).1 matches Ok(Some(_)),
            app_spec(other, c, follow),
        ),
        app_spec(tokens, c, follow).1 matches Ok(None) ==> app_spec(tokens, c, follow).0 == (
        Cursor {
            pos: c.pos,
            expected: c.expected.insert(TokenType::Ident).insert(TokenType::LParen),
        }),
    decreases tokens.len() - c.pos, 3nat,
{
    let out = app_spec(tokens, c, follow);
    let out2 = app_spec(other, c, follow);
    lemma_progress(tokens, c, follow);
    lemma_progress(other, c, follow);
    let (c1, r1) = atom_spec(tokens, c);
    let (d1, s1) = atom_spec(other, c);
    match r1 {
        Ok(Some(head)) => {
            lemma_app_rest_progress(tokens, c1, follow, head);
        },
        _ => {},
    }
    lemma_atom_closure(tokens, other, k, c);
    match s1 {
        Ok(Some(head)) => {
            lemma_app_rest_progress(other, d1, follow, head);
        },
        _ => {},
    }
    match r1 {
        Err(failure) => {
            assert(out == (c1, Err::<Option<Term>, Failure>(failure)));
        },
        Ok(Some(head)) => {
            assert((d1, s1) == (c1, r1));
            assert(out == app_rest_spec(tokens, c1, follow, head));
            assert(out2 == app_rest_spec(other, c1, follow, head));
            lemma_app_rest_closure(tokens, other, k, c1, follow, head);
        },
        Ok(None) => {
            assert(out == (c1, Ok::<Option<Term>, Failure>(None)));
            assert(c1.expected.contains(TokenType::Ident));
            if c.pos == k && (other[k].kind == TokenType::Ident || other[k].kind
                == TokenType::LParen) {
                lemma_atom_hit(other, c);
            } else {
                assert((d1, s1) == (c1, r1));
                assert(out2 == out);
            }
        },
    }
}

proof fn lemma_expr_closure(
    tokens: Seq<TokenView>,
    other: Seq<TokenView>,
    k: int,
    c: Cursor,
    follow: Option<Set<TokenType>>,
)
    requires
        comparable(tokens, other, k, c),
        expr_spec(tokens, c, follow).0.pos <= k,
    ensures
        related(
            tokens,
            other,
            k,
            follow,
            expr_spec(tokens, c, follow),
            expr_spec(tokens, c, follow).1 is Ok,
            expr_spec(other, c, follow),
        ),
    decreases tokens.len() - c.pos, 4nat,
{
    let out = expr_spec(tokens, c, follow);
    let out2 = expr_spec(other, c, follow);
    lemma_progress(tokens, c, follow);
    lemma_progress(other, c, follow);
    let (c1, r1) = lam_spec(tokens, c, follow);
    let (d1, s1) = lam_spec(other, c, follow);
    if r1 matches Ok(None) {
        lemma_progress(tokens, c1, follow);
    }
    lemma_lam_closure(tokens, other, k, c, follow);
    match r1 {
        Err(failure) => {
            assert(out == (c1, Err::<Term, Failure>(failure)));
            match s1 {
                Err(f2) => {
                    assert(out2 == (d1, Err::<Term, Failure>(f2)));
                },
                Ok(Some(t2)) => {
                    assert(out2 == (d1, Ok::<Term, Failure>(t2)));
                },
                Ok(None) => {},
            }
        },
        Ok(Some(term)) => {
            assert(out == (c1, Ok::<Term, Failure>(term)));
            match s1 {
                Err(f2) => {
                    assert(out2 == (d1, Err::<Term, Failure>(f2)));
                },
                Ok(Some(t2)) => {
                    assert(out2 == (d1, Ok::<Term, Failure>(t2)));
                },
                Ok(None) => {},
            }
        },
        Ok(None) => {
            assert(c1.expected.contains(TokenType::Backslash));
            let (c2, r2) = app_spec(tokens, c1, follow);
            assert(out.0 == c2);
            if c.pos == k && other[k].kind == TokenType::Backslash {
                lemma_lam_hit(other, c, follow);
                lemma_expected_grows(tokens, c1, follow);
                // The run on `other` has left this one; a token that is
                // never tried shows the shape of what this one gives.
                let probe = TokenView {
                    kind: TokenType::Equals,
                    text: Seq::empty(),
                    span: tokens[0].span,
                };
                lemma_inserted(tokens, k, probe);
                assert(!triable(TokenType::Equals));
                assert(!c.expected.contains(TokenType::Equals));
                assert(!c1.expected.contains(TokenType::Equals));
                assert forall|tried: TokenType| c1.expected.contains(tried) implies triable(
                    tried,
                ) by {
                    if tried != TokenType::Backslash {
                        assert(c.expected.contains(tried));
                    }
                }
                lemma_app_closure(tokens, inserted(tokens, k, probe), k, c1, follow);
                match r2 {
                    Ok(None) => {
                        assert(out == (c2, Err::<Term, Failure>(fail(c2))));
                    },
                    Ok(Some(term)) => {
                        assert(out == (c2, Ok::<Term, Failure>(term)));
                    },
                    Err(failure) => {
                        assert(out == (c2, Err::<Term, Failure>(failure)));
                    },
                }
            } else {
                assert((d1, s1) == (c1, r1));
                lemma_app_closure(tokens, other, k, c1, follow);
                lemma_progress(other, c1, follow);
                let (d2, s2) = app_spec(other, c1, follow);
                assert(out2.0 == d2);
                match r2 {
                    Ok(None) => {
                        assert(c2.expected.contains(TokenType::Ident));
                        assert(out == (c2, Err::<Term, Failure>(fail(c2))));
                    },
                    Ok(Some(term)) => {
                        assert(out == (c2, Ok::<Term, Failure>(term)));
                    },
                    Err(failure) => {
                        assert(out == (c2, Err::<Term, Failure>(failure)));
                    },
                }
            }
        },
    }
}

/// Follow-set closure. Where parsing fails on the token at index `k`, the
/// error reports a kind `kind` such that, with any token of that kind put in
/// before the offending token, the parser consumes that token: it ends
/// past index `k`, in an expression or in an error further on.
///
/// Every kind that was tried on the offending token is such a kind; this
/// gives one of them.
pub proof fn lemma_follow_set_closure(tokens: Seq<TokenView>, k: int) -> (kind: TokenType)
    requires
        well_terminated(tokens),
        expr_eof_spec(tokens, Cursor { pos: 0, expected: Set::empty() }).1 matches Err(failure)
            && failure.at == k,
    ensures
        expr_eof_spec(tokens, Cursor { pos: 0, expected: Set::empty() }).1 matches Err(failure)
            && failure.expected.contains(kind),
        forall|token: TokenView|
            token.kind == kind ==> (#[trigger] expr_eof_spec(
                inserted(tokens, k, token),
                Cursor { pos: 0, expected: Set::empty() },
            )).0.pos > k,
{
    let start = Cursor { pos: 0, expected: Set::<TokenType>::empty() };
    let follow = Some(set![TokenType::Eof]);
    let (c1, r1) = expr_spec(tokens, start, follow);
    lemma_progress(tokens, start, follow);
    // Any token that is no white space serves to learn the shape of the error.
    let probe = TokenView { kind: TokenType::Equals, text: Seq::empty(), span: tokens[0].span };
    lemma_inserted(tokens, c1.pos, probe);
    lemma_expr_closure(tokens, inserted(tokens, c1.pos, probe), c1.pos, start, follow);
    assert(k == c1.pos);
    let kind = choose|kind: TokenType| c1.expected.contains(kind);
    assert(triable(kind));
    assert forall|token: TokenView| token.kind == kind implies (#[trigger] expr_eof_spec(
        inserted(tokens, k, token),
        start,
    )).0.pos > k by {
        lemma_inserted(tokens, k, token);
        lemma_expr_closure(tokens, inserted(tokens, k, token), k, start, follow);
    }
    kind
}

} // verus!
