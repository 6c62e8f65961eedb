//! The parser accepts exactly what the grammar derives: it returns an
//! expression where the tokens spell one up to the end marker, and then
//! returns that expression.
//!
//! ```text
//! expr   ::= '\' ident '->' expr | app
//! app    ::= atom atom*
//! atom   ::= ident | '(' expr ')'
//! ```
use crate::lexer::{TokenType, TokenView};
use crate::parser::grammar::{
    app_rest_spec, app_spec, atom_spec, atom_start, close_paren, expect, expr_eof_spec, expr_spec,
    in_range, is_space, lam_spec, lam_tail_spec, lemma_app_rest_progress, lemma_lam_tail_progress,
    lemma_progress, lemma_skip_spaces, skip_spaces, skipped, well_terminated, Cursor, Failure,
};
use crate::syntax::Term;
use vstd::prelude::*;

verus! {

/// What a token says to the parser: its kind and, for an identifier, its
/// text.
pub type Word = (TokenType, Seq<char>);

/// The word of a token that has no text.
pub open spec fn mark(kind: TokenType) -> Word {
    (kind, Seq::empty())
}

/// The word of a token.
pub open spec fn word(token: TokenView) -> Word {
    if token.kind == TokenType::Ident {
        (token.kind, token.text)
    } else {
        mark(token.kind)
    }
}

/// The words that spell `t`.
pub open spec fn spelled(t: Term) -> Seq<Word>
    decreases t,
{
    match t {
        Term::Ident(name) => seq![(TokenType::Ident, name)],
        Term::Lam(arg, body) => seq![
            mark(TokenType::Backslash),
            (TokenType::Ident, arg),
            mark(TokenType::RArrow),
        ] + spelled(*body),
        Term::App(f, x) => spelled(*f) + spelled(*x),
        Term::Parens(inner) => seq![mark(TokenType::LParen)] + spelled(*inner) + seq![
            mark(TokenType::RParen),
        ],
    }
}

/// Where reading `words` off the tokens ends, from the token at `pos` on:
/// each word must be the next token, after which white space is passed
/// over. `None` where the tokens say something else.
pub open spec fn reads(tokens: Seq<TokenView>, pos: int, words: Seq<Word>) -> Option<int>
    decreases words.len(),
{
    if words.len() == 0 {
        Some(pos)
    } else if 0 <= pos < tokens.len() - 1 && !is_space(tokens[pos].kind) && word(tokens[pos])
        == words[0] {
        reads(tokens, skip_spaces(tokens, pos + 1), words.drop_first())
    } else {
        None
    }
}

/// An identifier, or an expression in parentheses.
pub open spec fn is_atom(t: Term) -> bool
    decreases t, 0nat,
{
    match t {
        Term::Ident(_) => true,
        Term::Parens(inner) => is_expr(*inner),
        _ => false,
    }
}

/// Atoms applied from the left: `((a b) c) d`.
pub open spec fn is_app(t: Term) -> bool
    decreases t, 1nat,
{
    match t {
        Term::App(f, x) => is_app(*f) && is_atom(*x),
        _ => is_atom(t),
    }
}

/// What the grammar derives: an abstraction whose body is such a term, or
/// an application of atoms.
pub open spec fn is_expr(t: Term) -> bool
    decreases t, 2nat,
{
    match t {
        Term::Lam(_, body) => is_expr(*body),
        _ => is_app(t),
    }
}

/// The number of nodes of `t`.
pub open spec fn size(t: Term) -> nat
    decreases t,
{
    match t {
        Term::Ident(_) => 1,
        Term::Lam(_, body) => 1 + size(*body),
        Term::App(f, x) => 1 + size(*f) + size(*x),
        Term::Parens(inner) => 1 + size(*inner),
    }
}

/// The atom that an application starts with.
pub open spec fn head_of(t: Term) -> Term
    decreases t,
{
    match t {
        Term::App(f, _) => head_of(*f),
        _ => t,
    }
}

/// The words of the atoms that the head of an application is applied to.
pub open spec fn args_words(t: Term) -> Seq<Word>
    decreases t,
{
    match t {
        Term::App(f, x) => args_words(*f) + spelled(*x),
        _ => Seq::empty(),
    }
}

/// Reading two runs of words is reading the one and, from where that ends,
/// the other.
pub proof fn lemma_reads_concat(tokens: Seq<TokenView>, pos: int, a: Seq<Word>, b: Seq<Word>)
    ensures
        reads(tokens, pos, a + b) == match reads(tokens, pos, a) {
            Some(mid) => reads(tokens, mid, b),
            None => None,
        },
    decreases a.len(),
{
    if a.len() == 0 {
        assert(a + b =~= b);
    } else {
        assert((a + b).drop_first() =~= a.drop_first() + b);
        assert((a + b)[0] == a[0]);
        lemma_reads_concat(tokens, skip_spaces(tokens, pos + 1), a.drop_first(), b);
    }
}

/// Reading one word consumes the token at `pos`.
proof fn lemma_reads_one(tokens: Seq<TokenView>, pos: int, w: Word)
    ensures
        reads(tokens, pos, seq![w]) == if 0 <= pos < tokens.len() - 1 && !is_space(
            tokens[pos].kind,
        ) && word(tokens[pos]) == w {
            Some(skip_spaces(tokens, pos + 1))
        } else {
            None
        },
{
    assert(seq![w].drop_first() =~= Seq::<Word>::empty());
    assert(reads(tokens, skip_spaces(tokens, pos + 1), Seq::<Word>::empty()) == Some(
        skip_spaces(tokens, pos + 1),
    ));
}

/// An application is spelled by its head and then by the atoms that the
/// head is applied to; its head is an atom, and no larger.
proof fn lemma_head(t: Term)
    requires
        is_app(t),
    ensures
        is_atom(head_of(t)),
        spelled(t) == spelled(head_of(t)) + args_words(t),
        size(head_of(t)) <= size(t),
        !(t is Lam),
    decreases t,
{
    match t {
        Term::App(f, x) => {
            assert(is_app(t) == (is_app(*f) && is_atom(*x)));
            lemma_head(*f);
            assert(spelled(t) =~= spelled(head_of(t)) + args_words(t));
        },
        _ => {
            assert(is_app(t) == is_atom(t));
            assert(spelled(t) + Seq::<Word>::empty() =~= spelled(t));
        },
    }
}

/// An atom starts with an identifier or with `(`.
proof fn lemma_atom_starts(t: Term)
    requires
        is_atom(t),
    ensures
        spelled(t).len() > 0,
        spelled(t)[0].0 == TokenType::Ident || spelled(t)[0].0 == TokenType::LParen,
{
}

/// Soundness, for an atom: what `atom_spec` accepts is an atom, and the
/// tokens that it consumed read as its spelling.
proof fn lemma_atom_sound(tokens: Seq<TokenView>, c: Cursor)
    requires
        well_terminated(tokens),
        in_range(tokens, c),
    ensures
        atom_spec(tokens, c).1 matches Ok(Some(t)) ==> is_atom(t) && reads(
            tokens,
            c.pos,
            spelled(t),
        ) == Some(atom_spec(tokens, c).0.pos),
    decreases tokens.len() - c.pos, 1nat,
{
    let rp = Some(set![TokenType::RParen]);
    let (c1, hit1) = expect(tokens, c, TokenType::Ident);
    if hit1 {
        lemma_reads_one(tokens, c.pos, word(tokens[c.pos]));
    } else {
        let (c2, hit2) = expect(tokens, c1, TokenType::LParen);
        if hit2 {
            lemma_skip_spaces(tokens, c2.pos);
            let c3 = skipped(tokens, c2);
            lemma_progress(tokens, c3, rp);
            lemma_expr_sound(tokens, c3, rp);
            let (c4, inner) = expr_spec(tokens, c3, rp);
            match inner {
                Ok(term) => {
                    let (c5, hit5) = expect(tokens, c4, TokenType::RParen);
                    if hit5 {
                        lemma_skip_spaces(tokens, c5.pos);
                        let open = seq![mark(TokenType::LParen)];
                        let close = seq![mark(TokenType::RParen)];
                        lemma_reads_one(tokens, c.pos, mark(TokenType::LParen));
                        lemma_reads_one(tokens, c4.pos, mark(TokenType::RParen));
                        lemma_reads_concat(tokens, c.pos, open, spelled(term));
                        lemma_reads_concat(tokens, c.pos, open + spelled(term), close);
                    }
                },
                Err(_) => {},
            }
        }
    }
}

proof fn lemma_lam_tail_sound(
    tokens: Seq<TokenView>,
    c: Cursor,
    follow: Option<Set<TokenType>>,
)
    requires
        well_terminated(tokens),
        in_range(tokens, c),
    ensures
        lam_tail_spec(tokens, c, follow).1 matches Ok(t) ==> is_expr(t) && t is Lam && reads(
            tokens,
            c.pos,
            spelled(t).drop_first(),
        ) == Some(lam_tail_spec(tokens, c, follow).0.pos) && ended_by(
            tokens,
            lam_tail_spec(tokens, c, follow).0,
            follow,
        ),
    decreases tokens.len() - c.pos, 2nat,
{
    let (c1, hit1) = expect(tokens, c, TokenType::Ident);
    if hit1 {
        lemma_skip_spaces(tokens, c1.pos);
        let c2 = skipped(tokens, c1);
        let (c3, hit3) = expect(tokens, c2, TokenType::RArrow);
        if hit3 {
            lemma_skip_spaces(tokens, c3.pos);
            let c4 = skipped(tokens, c3);
            lemma_progress(tokens, c4, follow);
            lemma_expr_sound(tokens, c4, follow);
            let (c5, body) = expr_spec(tokens, c4, follow);
            match body {
                Ok(body) => {
                    let name = tokens[c.pos].text;
                    let t = Term::Lam(name, Box::new(body));
                    let binder = seq![(TokenType::Ident, name)];
                    let arrow = seq![mark(TokenType::RArrow)];
                    lemma_reads_one(tokens, c.pos, (TokenType::Ident, name));
                    lemma_reads_one(tokens, c2.pos, mark(TokenType::RArrow));
                    lemma_reads_concat(tokens, c.pos, binder, arrow);
                    lemma_reads_concat(tokens, c.pos, binder + arrow, spelled(body));
                    assert(spelled(t).drop_first() =~= (binder + arrow) + spelled(body));
                },
                Err(_) => {},
            }
        }
    }
}

/// The parser stands on a token of the follow set.
pub open spec fn ended_by(
    tokens: Seq<TokenView>,
    c: Cursor,
    follow: Option<Set<TokenType>>,
) -> bool {
    follow matches Some(followed_by) && followed_by.contains(tokens[c.pos].kind)
}

proof fn lemma_lam_sound(tokens: Seq<TokenView>, c: Cursor, follow: Option<Set<TokenType>>)
    requires
        well_terminated(tokens),
        in_range(tokens, c),
    ensures
        lam_spec(tokens, c, follow).1 matches Ok(Some(t)) ==> is_expr(t) && reads(
            tokens,
            c.pos,
            spelled(t),
        ) == Some(lam_spec(tokens, c, follow).0.pos) && ended_by(
            tokens,
            lam_spec(tokens, c, follow).0,
            follow,
        ),
    decreases tokens.len() - c.pos, 3nat,
{
    let (c1, hit1) = expect(tokens, c, TokenType::Backslash);
    if hit1 {
        lemma_skip_spaces(tokens, c1.pos);
        let c2 = skipped(tokens, c1);
        lemma_lam_tail_progress(tokens, c2, follow);
        lemma_lam_tail_sound(tokens, c2, follow);
        let (c3, r) = lam_tail_spec(tokens, c2, follow);
        match r {
            Ok(t) => {
                let slash = seq![mark(TokenType::Backslash)];
                lemma_reads_one(tokens, c.pos, mark(TokenType::Backslash));
                lemma_reads_concat(tokens, c.pos, slash, spelled(t).drop_first());
                assert(slash + spelled(t).drop_first() =~= spelled(t));
            },
            Err(_) => {},
        }
    }
}

proof fn lemma_app_rest_sound(
    tokens: Seq<TokenView>,
    c: Cursor,
    follow: Option<Set<TokenType>>,
    acc: Term,
    from: int,
)
    requires
        well_terminated(tokens),
        in_range(tokens, c),
        is_app(acc),
        reads(tokens, from, spelled(acc)) == Some(c.pos),
    ensures
        app_rest_spec(tokens, c, follow, acc).1 matches Ok(Some(t)) ==> is_app(t) && reads(
            tokens,
            from,
            spelled(t),
        ) == Some(app_rest_spec(tokens, c, follow, acc).0.pos) && ended_by(
            tokens,
            app_rest_spec(tokens, c, follow, acc).0,
            follow,
        ),
        !(app_rest_spec(tokens, c, follow, acc).1 matches Ok(None)),
    decreases tokens.len() - c.pos, 2nat,
{
    lemma_progress(tokens, c, follow);
    lemma_atom_sound(tokens, c);
    let (c1, atom) = atom_spec(tokens, c);
    match atom {
        Ok(Some(arg)) => {
            let next = Term::App(Box::new(acc), Box::new(arg));
            assert(is_app(next) == (is_app(acc) && is_atom(arg)));
            lemma_reads_concat(tokens, from, spelled(acc), spelled(arg));
            lemma_app_rest_progress(tokens, c1, follow, next);
            lemma_app_rest_sound(tokens, c1, follow, next, from);
        },
        _ => {},
    }
}

proof fn lemma_app_sound(tokens: Seq<TokenView>, c: Cursor, follow: Option<Set<TokenType>>)
    requires
        well_terminated(tokens),
        in_range(tokens, c),
    ensures
        app_spec(tokens, c, follow).1 matches Ok(Some(t)) ==> is_app(t) && reads(
            tokens,
            c.pos,
            spelled(t),
        ) == Some(app_spec(tokens, c, follow).0.pos) && ended_by(
            tokens,
            app_spec(tokens, c, follow).0,
            follow,
        ),
    decreases tokens.len() - c.pos, 3nat,
{
    lemma_progress(tokens, c, follow);
    lemma_atom_sound(tokens, c);
    let (c1, atom) = atom_spec(tokens, c);
    match atom {
        Ok(Some(head)) => {
            lemma_atom_is_app(head);
            lemma_app_rest_progress(tokens, c1, follow, head);
            lemma_app_rest_sound(tokens, c1, follow, head, c.pos);
        },
        _ => {},
    }
}

proof fn lemma_expr_sound(tokens: Seq<TokenView>, c: Cursor, follow: Option<Set<TokenType>>)
    requires
        well_terminated(tokens),
        in_range(tokens, c),
    ensures
        expr_spec(tokens, c, follow).1 matches Ok(t) ==> is_expr(t) && reads(
            tokens,
            c.pos,
            spelled(t),
        ) == Some(expr_spec(tokens, c, follow).0.pos) && ended_by(
            tokens,
            expr_spec(tokens, c, follow).0,
            follow,
        ),
    decreases tokens.len() - c.pos, 4nat,
{
    lemma_progress(tokens, c, follow);
    lemma_lam_sound(tokens, c, follow);
    let (c1, lam) = lam_spec(tokens, c, follow);
    if lam matches Ok(None) {
        lemma_app_sound(tokens, c1, follow);
        let (c2, app) = app_spec(tokens, c1, follow);
        match app {
            Ok(Some(t)) => {
                lemma_app_is_expr(t);
            },
            _ => {},
        }
    }
}

/// An application of atoms is an expression.
proof fn lemma_app_is_expr(t: Term)
    requires
        is_app(t),
    ensures
        is_expr(t),
        !(t is Lam),
{
    match t {
        Term::Lam(_, _) => {
            assert(!is_atom(t));
            assert(!is_app(t));
        },
        _ => {
            assert(is_expr(t) == is_app(t));
        },
    }
}

/// An atom is an application of atoms, to none.
proof fn lemma_atom_is_app(t: Term)
    requires
        is_atom(t),
    ensures
        is_app(t),
{
    match t {
        Term::App(_, _) => {
            assert(!is_atom(t));
        },
        _ => {
            assert(is_app(t) == is_atom(t));
        },
    }
}

/// The parser is sound. An expression that it returns is one that the
/// grammar derives, the tokens from where the parser started read as its
/// spelling up to where the parser stopped, and that is on an end marker.
pub proof fn lemma_parse_sound(tokens: Seq<TokenView>, c: Cursor)
    requires
        well_terminated(tokens),
        in_range(tokens, c),
    ensures
        expr_eof_spec(tokens, c).1 matches Ok(t) ==> {
            &&& is_expr(t)
            &&& reads(tokens, c.pos, spelled(t)) == Some(expr_eof_spec(tokens, c).0.pos)
            &&& tokens[expr_eof_spec(tokens, c).0.pos].kind == TokenType::Eof
        },
{
    lemma_expr_sound(tokens, c, Some(set![TokenType::Eof]));
}

/// Completeness, for an atom: where the tokens read as the spelling of an
/// atom, `atom_spec` returns the atom.
proof fn lemma_atom_complete(tokens: Seq<TokenView>, c: Cursor, t: Term, end: int)
    requires
        well_terminated(tokens),
        in_range(tokens, c),
        is_atom(t),
        reads(tokens, c.pos, spelled(t)) == Some(end),
    ensures
        atom_spec(tokens, c).1 == Ok::<Option<Term>, Failure>(Some(t)),
        atom_spec(tokens, c).0.pos == end,
    decreases size(t), 0nat,
{
    let rp = set![TokenType::RParen];
    match t {
        Term::Ident(name) => {
            lemma_reads_one(tokens, c.pos, (TokenType::Ident, name));
        },
        Term::Parens(inner) => {
            let open = seq![mark(TokenType::LParen)];
            let close = seq![mark(TokenType::RParen)];
            lemma_reads_concat(tokens, c.pos, open + spelled(*inner), close);
            lemma_reads_concat(tokens, c.pos, open, spelled(*inner));
            lemma_reads_one(tokens, c.pos, mark(TokenType::LParen));
            let (c1, hit1) = expect(tokens, c, TokenType::Ident);
            let (c2, hit2) = expect(tokens, c1, TokenType::LParen);
            assert(!hit1 && hit2);
            lemma_skip_spaces(tokens, c2.pos);
            let c3 = skipped(tokens, c2);
            let mid = reads(tokens, c3.pos, spelled(*inner))->Some_0;
            lemma_reads_one(tokens, mid, mark(TokenType::RParen));
            lemma_expr_complete(tokens, c3, *inner, rp, mid);
            let (c4, r4) = expr_spec(tokens, c3, Some(rp));
            let (c5, hit5) = expect(tokens, c4, TokenType::RParen);
            assert(hit5);
            assert(atom_spec(tokens, c) == close_paren(tokens, c4, r4));
        },
        _ => {},
    }
}

/// Along an application the parser moves from atom to atom: having the head
/// in hand where the further atoms start is as good as having the whole
/// application in hand where they end.
proof fn lemma_spine_complete(
    tokens: Seq<TokenView>,
    c: Cursor,
    follow: Option<Set<TokenType>>,
    t: Term,
    end: int,
)
    requires
        well_terminated(tokens),
        in_range(tokens, c),
        is_app(t),
        reads(tokens, c.pos, args_words(t)) == Some(end),
    ensures
        c.pos <= end < tokens.len(),
        exists|expected: Set<TokenType>|
            app_rest_spec(tokens, c, follow, head_of(t)) == #[trigger] app_rest_spec(
                tokens,
                Cursor { pos: end, expected },
                follow,
                t,
            ),
    decreases size(t), 1nat,
{
    match t {
        Term::App(f, x) => {
            assert(is_app(t) == (is_app(*f) && is_atom(*x)));
            lemma_reads_concat(tokens, c.pos, args_words(*f), spelled(*x));
            let mid = reads(tokens, c.pos, args_words(*f))->Some_0;
            lemma_spine_complete(tokens, c, follow, *f, mid);
            let expected = choose|expected: Set<TokenType>|
                app_rest_spec(tokens, c, follow, head_of(*f)) == #[trigger] app_rest_spec(
                    tokens,
                    Cursor { pos: mid, expected },
                    follow,
                    *f,
                );
            let cm = Cursor { pos: mid, expected };
            lemma_atom_complete(tokens, cm, *x, end);
            lemma_progress(tokens, cm, follow);
            let (c1, atom) = atom_spec(tokens, cm);
            assert(app_rest_spec(tokens, cm, follow, *f) == app_rest_spec(tokens, c1, follow, t));
            assert(c1 == Cursor { pos: end, expected: c1.expected });
        },
        _ => {
            assert(app_rest_spec(tokens, c, follow, head_of(t)) == app_rest_spec(
                tokens,
                Cursor { pos: end, expected: c.expected },
                follow,
                t,
            ));
        },
    }
}

proof fn lemma_app_complete(
    tokens: Seq<TokenView>,
    c: Cursor,
    t: Term,
    followed_by: Set<TokenType>,
    end: int,
)
    requires
        well_terminated(tokens),
        in_range(tokens, c),
        is_app(t),
        reads(tokens, c.pos, spelled(t)) == Some(end),
        0 <= end < tokens.len(),
        followed_by.contains(tokens[end].kind),
        !atom_start().contains(tokens[end].kind),
    ensures
        app_spec(tokens, c, Some(followed_by)).1 == Ok::<Option<Term>, Failure>(Some(t)),
        app_spec(tokens, c, Some(followed_by)).0.pos == end,
    decreases size(t), 2nat,
{
    let follow = Some(followed_by);
    lemma_head(t);
    let head = head_of(t);
    lemma_reads_concat(tokens, c.pos, spelled(head), args_words(t));
    let mid = reads(tokens, c.pos, spelled(head))->Some_0;
    lemma_atom_complete(tokens, c, head, mid);
    lemma_progress(tokens, c, follow);
    let (c1, atom) = atom_spec(tokens, c);
    lemma_spine_complete(tokens, c1, follow, t, end);
    let expected = choose|expected: Set<TokenType>|
        app_rest_spec(tokens, c1, follow, head) == #[trigger] app_rest_spec(
            tokens,
            Cursor { pos: end, expected },
            follow,
            t,
        );
    let ce = Cursor { pos: end, expected };
    // No further atom starts on the token at `end`, which is in the follow set.
    let (d1, hit1) = expect(tokens, ce, TokenType::Ident);
    let (d2, hit2) = expect(tokens, d1, TokenType::LParen);
    assert(!hit1 && !hit2);
    assert(atom_spec(tokens, ce) == (d2, Ok::<Option<Term>, Failure>(None)));
    assert(app_spec(tokens, c, follow) == app_rest_spec(tokens, c1, follow, head));
}

proof fn lemma_expr_complete(
    tokens: Seq<TokenView>,
    c: Cursor,
    t: Term,
    followed_by: Set<TokenType>,
    end: int,
)
    requires
        well_terminated(tokens),
        in_range(tokens, c),
        is_expr(t),
        reads(tokens, c.pos, spelled(t)) == Some(end),
        0 <= end < tokens.len(),
        followed_by.contains(tokens[end].kind),
        !atom_start().contains(tokens[end].kind),
    ensures
        expr_spec(tokens, c, Some(followed_by)).1 == Ok::<Term, Failure>(t),
        expr_spec(tokens, c, Some(followed_by)).0.pos == end,
    decreases size(t), 3nat,
{
    let follow = Some(followed_by);
    match t {
        Term::Lam(arg, body) => {
            let slash = seq![mark(TokenType::Backslash)];
            let binder = seq![(TokenType::Ident, arg)];
            let arrow = seq![mark(TokenType::RArrow)];
            assert(spelled(t) =~= ((slash + binder) + arrow) + spelled(*body));
            lemma_reads_concat(tokens, c.pos, (slash + binder) + arrow, spelled(*body));
            lemma_reads_concat(tokens, c.pos, slash + binder, arrow);
            lemma_reads_concat(tokens, c.pos, slash, binder);
            lemma_reads_one(tokens, c.pos, mark(TokenType::Backslash));
            let (c1, hit1) = expect(tokens, c, TokenType::Backslash);
            assert(hit1);
            lemma_skip_spaces(tokens, c1.pos);
            let c2 = skipped(tokens, c1);
            lemma_reads_one(tokens, c2.pos, (TokenType::Ident, arg));
            let (c3, hit3) = expect(tokens, c2, TokenType::Ident);
            assert(hit3);
            lemma_skip_spaces(tokens, c3.pos);
            let c4 = skipped(tokens, c3);
            lemma_reads_one(tokens, c4.pos, mark(TokenType::RArrow));
            let (c5, hit5) = expect(tokens, c4, TokenType::RArrow);
            assert(hit5);
            lemma_skip_spaces(tokens, c5.pos);
            let c6 = skipped(tokens, c5);
            lemma_expr_complete(tokens, c6, *body, followed_by, end);
            let (c7, r7) = expr_spec(tokens, c6, follow);
            assert(lam_tail_spec(tokens, c2, follow) == (c7, Ok::<Term, Failure>(t)));
            assert(lam_spec(tokens, c, follow) == (c7, Ok::<Option<Term>, Failure>(Some(t))));
        },
        _ => {
            assert(is_expr(t) == is_app(t));
            lemma_head(t);
            lemma_atom_starts(head_of(t));
            let (c1, hit1) = expect(tokens, c, TokenType::Backslash);
            assert(!hit1) by {
                assert(spelled(t)[0] == spelled(head_of(t))[0]);
            }
            assert(lam_spec(tokens, c, follow) == (c1, Ok::<Option<Term>, Failure>(None)));
            lemma_app_complete(tokens, c1, t, followed_by, end);
        },
    }
}

/// The parser is complete. Where the tokens, from the one the parser
/// stands on, read as the spelling of an expression that the grammar
/// derives and then hold the end marker, the parser returns that expression
/// and stops on the end marker.
pub proof fn lemma_parse_complete(tokens: Seq<TokenView>, c: Cursor, t: Term, end: int)
    requires
        well_terminated(tokens),
        in_range(tokens, c),
        is_expr(t),
        reads(tokens, c.pos, spelled(t)) == Some(end),
        0 <= end < tokens.len(),
        tokens[end].kind == TokenType::Eof,
    ensures
        expr_eof_spec(tokens, c).1 == Ok::<Term, Failure>(t),
        expr_eof_spec(tokens, c).0.pos == end,
{
    lemma_expr_complete(tokens, c, t, set![TokenType::Eof], end);
}

} // verus!
