//! The parser: tokens to a named syntax tree, by recursive descent.
//!
//! The parser keeps the set of kinds that it tried on the current token,
//! for its diagnostics, and a stack of follow sets: the kinds that may come
//! after the production that is being parsed. An application ends where no
//! further atom starts, and then the current token must be in the innermost
//! follow set.
pub mod closure;
pub mod expected;
pub mod grammar;
pub mod spelling;

pub use crate::parser::expected::ExpectedSet;

use crate::errors;
use crate::errors::Highlight;
use crate::lexer::{token_views, Token, TokenData, TokenType, TokenView};
use crate::parser::expected::{joined, ordered};
use crate::parser::grammar::{
    app_rest_spec, app_spec, atom_spec, atom_start, expect, expr_eof_spec, expr_spec, fail,
    fail_with, in_range, lam_spec, lemma_progress, lemma_skip_spaces, skip_spaces, skipped,
    well_terminated, Cursor, Failure,
};
use crate::span::Offset;
use crate::syntax::{ExprBuilder, ExprRef, Term};
use vstd::prelude::*;
use vstd::string::StringExecFns;

verus! {

/// Why parsing stopped.
#[derive(Debug, PartialEq, Eq)]
pub enum Error<'src, 'tokens> {
    UnexpectedEof(Offset),
    /// `actual` fits nowhere; a token of one of the kinds `expected` would
    /// have.
    Unexpected { actual: &'tokens Token<'src>, expected: ExpectedSet },
}

impl<'src, 'tokens> Error<'src, 'tokens> {
    /// What the diagnostic points at.
    pub open spec fn spec_highlight(self) -> Highlight {
        match self {
            Error::UnexpectedEof(offset) => Highlight::Point(offset),
            Error::Unexpected { actual, expected } => Highlight::Span(actual.span),
        }
    }

    /// What the diagnostic says.
    pub open spec fn spec_message(self) -> Seq<char> {
        match self {
            Error::UnexpectedEof(_) => "Unexpected end of input"@,
            Error::Unexpected { actual, expected } => "Unexpected "@ + actual@.kind.description()
                + ", expecting one of: "@ + joined(ordered(expected@)),
        }
    }

    /// The diagnostic for the error: the span of the token that fits
    /// nowhere, and the kinds that would have fitted, in the order of their
    /// indices.
    pub fn reportable(&self) -> (r: errors::Error)
        ensures
            r.highlight == self.spec_highlight(),
            r.message@ == self.spec_message(),
    {
        match self {
            Error::UnexpectedEof(offset) => errors::Error {
                highlight: Highlight::Point(*offset),
                message: String::from_str("Unexpected end of input"),
            },
            Error::Unexpected { actual, expected } => {
                let mut message = String::from_str("Unexpected ");
                let kind = actual.token_type().to_string();
                message.append(kind.as_str());
                message.append(", expecting one of: ");
                let kinds = expected.to_string();
                message.append(kinds.as_str());
                errors::Error { highlight: Highlight::Span(actual.span), message }
            },
        }
    }
}

pub type ParseResult<'src, 'tokens, T> = Result<T, Error<'src, 'tokens>>;

/// `error` reports `failure`: it names the token at the failure's index and
/// the same kinds.
pub open spec fn error_is<'src, 'tokens>(
    tokens: Seq<Token<'src>>,
    error: Error<'src, 'tokens>,
    failure: Failure,
) -> bool {
    &&& 0 <= failure.at < tokens.len()
    &&& error matches Error::Unexpected { actual, expected } && *actual == tokens[failure.at]
        && expected@ == failure.expected
}

/// The result of a function that may find nothing agrees with `spec`.
pub open spec fn agrees_opt<'src, 'tokens, 'expr>(
    tokens: Seq<Token<'src>>,
    r: ParseResult<'src, 'tokens, Option<ExprRef<'src, 'expr>>>,
    spec: Result<Option<Term>, Failure>,
) -> bool {
    match spec {
        Ok(Some(term)) => r matches Ok(Some(expr)) && expr@ == term,
        Ok(None) => r matches Ok(None),
        Err(failure) => r matches Err(error) && error_is(tokens, error, failure),
    }
}

/// The result of a function that finds an expression or fails agrees with
/// `spec`.
pub open spec fn agrees<'src, 'tokens, 'expr>(
    tokens: Seq<Token<'src>>,
    r: ParseResult<'src, 'tokens, ExprRef<'src, 'expr>>,
    spec: Result<Term, Failure>,
) -> bool {
    match spec {
        Ok(term) => r matches Ok(expr) && expr@ == term,
        Err(failure) => r matches Err(error) && error_is(tokens, error, failure),
    }
}

/// Parsing is deterministic. Two runs of `parse_expr_eof` from the same
/// place in tokens that denote the same end alike: both in an expression,
/// and the two denote the same term, or both in an error, on tokens that
/// denote the same and with the same expected kinds.
pub proof fn lemma_parse_deterministic<'src, 'tokens, 'expr>(
    first: Seq<Token<'src>>,
    second: Seq<Token<'src>>,
    c: Cursor,
    r1: ParseResult<'src, 'tokens, ExprRef<'src, 'expr>>,
    r2: ParseResult<'src, 'tokens, ExprRef<'src, 'expr>>,
)
    requires
        token_views(first) == token_views(second),
        agrees(first, r1, expr_eof_spec(token_views(first), c).1),
        agrees(second, r2, expr_eof_spec(token_views(second), c).1),
    ensures
        match (r1, r2) {
            (Ok(e1), Ok(e2)) => e1@ == e2@,
            (
                Err(Error::Unexpected { actual: a1, expected: x1 }),
                Err(Error::Unexpected { actual: a2, expected: x2 }),
            ) => a1@ == a2@ && x1@ == x2@,
            _ => false,
        },
{
    match expr_eof_spec(token_views(first), c).1 {
        Ok(_) => {},
        Err(failure) => {
            assert(token_views(first)[failure.at] == first[failure.at]@);
            assert(token_views(second)[failure.at] == second[failure.at]@);
        },
    }
}

/// What a stack of follow sets denotes.
pub open spec fn follows_view(follows: Seq<ExpectedSet>) -> Seq<Set<TokenType>> {
    Seq::new(follows.len(), |i: int| follows[i]@)
}

/// The set for `)`.
fn expected_rparen() -> (set: ExpectedSet)
    ensures
        set@ == set![TokenType::RParen],
{
    let mut set = ExpectedSet::new();
    set.insert(&TokenType::RParen);
    assert(set@ =~= set![TokenType::RParen]);
    set
}

/// The set of the kinds that start an atom.
fn atom_start_set() -> (set: ExpectedSet)
    ensures
        set@ == atom_start(),
{
    let mut set = ExpectedSet::new();
    set.insert(&TokenType::Ident);
    set.insert(&TokenType::LParen);
    assert(set@ =~= atom_start());
    set
}

/// The set for the end marker.
fn expected_eof() -> (set: ExpectedSet)
    ensures
        set@ == set![TokenType::Eof],
{
    let mut set = ExpectedSet::new();
    set.insert(&TokenType::Eof);
    assert(set@ =~= set![TokenType::Eof]);
    set
}

/// A parser at some token of a token sequence. The expressions that it
/// builds live in the arena of `builder`.
pub struct Parser<'src, 'tokens, 'builder, 'expr> {
    builder: &'builder ExprBuilder<'src, 'expr>,
    tokens: &'tokens Vec<Token<'src>>,
    /// Index of the current token.
    position: usize,
    expected: ExpectedSet,
    follows: Vec<ExpectedSet>,
}

impl<'src, 'tokens, 'builder, 'expr> Parser<'src, 'tokens, 'builder, 'expr> {
    /// The tokens that are being parsed.
    pub closed spec fn input(&self) -> Seq<Token<'src>> {
        self.tokens@
    }

    /// What the tokens denote.
    pub open spec fn tokens(&self) -> Seq<TokenView> {
        token_views(self.input())
    }

    /// Where the parser stands.
    pub closed spec fn cursor(&self) -> Cursor {
        Cursor { pos: self.position as int, expected: self.expected@ }
    }

    /// The stack of follow sets, innermost last.
    pub closed spec fn follows(&self) -> Seq<Set<TokenType>> {
        follows_view(self.follows@)
    }

    /// The innermost follow set, if there is one.
    pub open spec fn follow(&self) -> Option<Set<TokenType>> {
        if self.follows().len() == 0 {
            None
        } else {
            Some(self.follows().last())
        }
    }

    /// The tokens end in the end marker and the parser stands on one of
    /// them.
    pub open spec fn wf(&self) -> bool {
        &&& well_terminated(self.tokens())
        &&& in_range(self.tokens(), self.cursor())
    }

    /// `self` reads the same tokens as `other`, with the same stack of
    /// follow sets.
    pub closed spec fn continues(&self, other: &Self) -> bool {
        &&& self.tokens == other.tokens
        &&& self.builder == other.builder
        &&& follows_view(self.follows@) == follows_view(other.follows@)
    }

    /// `input` must be terminated by a `TokenType::Eof`
    pub fn new(
        builder: &'builder ExprBuilder<'src, 'expr>,
        input: &'tokens Vec<Token<'src>>,
    ) -> (parser: Self)
        requires
            well_terminated(token_views(input@)),
        ensures
            parser.wf(),
            parser.input() == input@,
            parser.cursor() == (Cursor { pos: 0, expected: Set::empty() }),
            parser.follows() == Seq::<Set<TokenType>>::empty(),
    {
        let expected = ExpectedSet::new();
        let follows: Vec<ExpectedSet> = Vec::new();
        assert(follows_view(follows@) =~= Seq::<Set<TokenType>>::empty());
        Parser { builder, tokens: input, position: 0, expected, follows }
    }

    #[inline]
    fn current_token(&self) -> (token: &'tokens Token<'src>)
        requires
            self.wf(),
        ensures
            *token == self.input()[self.cursor().pos],
            token@ == self.tokens()[self.cursor().pos],
    {
        let tokens: &'tokens Vec<Token<'src>> = self.tokens;
        &tokens[self.position]
    }

    /// Moves on to the next token and hands it out; there is one, since the
    /// current token is not the end marker.
    #[inline]
    fn consume(&mut self) -> (next: Option<&'tokens Token<'src>>)
        requires
            old(self).wf(),
            old(self).tokens()[old(self).cursor().pos].kind != TokenType::Eof,
        ensures
            final(self).wf(),
            final(self).continues(old(self)),
            final(self).cursor() == (Cursor {
                pos: old(self).cursor().pos + 1,
                expected: old(self).cursor().expected,
            }),
            next is Some,
    {
        let tokens: &'tokens Vec<Token<'src>> = self.tokens;
        let len = tokens.len();
        assert(self.tokens().len() == len);
        if self.position + 1 < len {
            self.position = self.position + 1;
            Option::Some(&tokens[self.position])
        } else {
            Option::None
        }
    }

    fn expect(&mut self, tt: &TokenType) -> (hit: Option<&'tokens Token<'src>>)
        requires
            old(self).wf(),
            *tt != TokenType::Eof,
        ensures
            final(self).wf(),
            final(self).continues(old(self)),
            (final(self).cursor(), hit is Some) == expect(
                old(self).tokens(),
                old(self).cursor(),
                *tt,
            ),
            hit matches Some(token) ==> *token == old(self).input()[old(self).cursor().pos],
    {
        self.expected.insert(tt);
        let token = self.current_token();
        if token.token_type() == *tt {
            match self.consume() {
                Option::Some(_) => {
                    self.expected.clear();
                },
                Option::None => (),
            }
            Option::Some(token)
        } else {
            Option::None
        }
    }

    fn unexpected_with<T>(&self, extra: &ExpectedSet) -> (r: ParseResult<'src, 'tokens, T>)
        requires
            self.wf(),
        ensures
            r matches Err(error) && error_is(
                self.input(),
                error,
                fail_with(self.cursor(), extra@),
            ),
    {
        let actual = self.current_token();
        let mut expected = self.expected.clone();
        expected.union(extra);
        Result::Err(Error::Unexpected { actual, expected })
    }

    #[inline]
    fn unexpected<T>(&mut self) -> (r: ParseResult<'src, 'tokens, T>)
        requires
            old(self).wf(),
        ensures
            *final(self) == *old(self),
            r matches Err(error) && error_is(old(self).input(), error, fail(old(self).cursor())),
    {
        let r = self.unexpected_with(&ExpectedSet::new());
        assert(self.cursor().expected.union(Set::<TokenType>::empty()) =~= self.cursor().expected);
        r
    }

    fn expect_ident(&mut self) -> (hit: Option<&'src str>)
        requires
            old(self).wf(),
        ensures
            final(self).wf(),
            final(self).continues(old(self)),
            (final(self).cursor(), hit is Some) == expect(
                old(self).tokens(),
                old(self).cursor(),
                TokenType::Ident,
            ),
            hit matches Some(name) ==> name@ == old(self).tokens()[old(self).cursor().pos].text,
    {
        match self.expect(&TokenType::Ident) {
            Option::Some(token) => match token.data {
                TokenData::Ident(ident) => Option::Some(ident),
                _ => Option::None,
            },
            Option::None => Option::None,
        }
    }

    fn require(&mut self, tt: &TokenType) -> (r: ParseResult<'src, 'tokens, &'tokens Token<'src>>)
        requires
            old(self).wf(),
            *tt != TokenType::Eof,
        ensures
            final(self).wf(),
            final(self).continues(old(self)),
            final(self).cursor() == expect(old(self).tokens(), old(self).cursor(), *tt).0,
            expect(old(self).tokens(), old(self).cursor(), *tt).1 ==> r is Ok,
            !expect(old(self).tokens(), old(self).cursor(), *tt).1 ==> (r matches Err(error)
                && error_is(old(self).input(), error, fail(final(self).cursor()))),
    {
        match self.expect(tt) {
            Option::Some(token) => Result::Ok(token),
            Option::None => self.unexpected(),
        }
    }

    fn require_ident(&mut self) -> (r: ParseResult<'src, 'tokens, &'src str>)
        requires
            old(self).wf(),
        ensures
            final(self).wf(),
            final(self).continues(old(self)),
            final(self).cursor() == expect(
                old(self).tokens(),
                old(self).cursor(),
                TokenType::Ident,
            ).0,
            expect(old(self).tokens(), old(self).cursor(), TokenType::Ident).1 ==> (r matches Ok(
                name,
            ) && name@ == old(self).tokens()[old(self).cursor().pos].text),
            !expect(old(self).tokens(), old(self).cursor(), TokenType::Ident).1 ==> (
            r matches Err(error) && error_is(old(self).input(), error, fail(final(self).cursor()))),
    {
        match self.expect_ident() {
            Option::Some(ident) => Result::Ok(ident),
            Option::None => self.unexpected(),
        }
    }

    /// Skips the white space at the current token and counts it.
    fn ignore_spaces(&mut self) -> (count: usize)
        requires
            old(self).wf(),
        ensures
            final(self).wf(),
            final(self).continues(old(self)),
            final(self).cursor() == skipped(old(self).tokens(), old(self).cursor()),
            count == final(self).cursor().pos - old(self).cursor().pos,
    {
        let mut count: usize = 0;
        loop
            invariant
                self.wf(),
                self.continues(old(self)),
                self.tokens() == old(self).tokens(),
                self.cursor().expected == old(self).cursor().expected,
                self.cursor().pos == old(self).cursor().pos + count,
                skip_spaces(self.tokens(), self.cursor().pos) == skip_spaces(
                    old(self).tokens(),
                    old(self).cursor().pos,
                ),
            ensures
                skip_spaces(self.tokens(), self.cursor().pos) == self.cursor().pos,
            decreases self.tokens().len() - self.cursor().pos,
        {
            match self.current_token().data {
                TokenData::Space | TokenData::Newline => {
                    let _ = self.consume();
                    count += 1;
                },
                _ => {
                    break ;
                },
            }
        }
        count
    }

    fn push_follows(&mut self, followed_by: ExpectedSet)
        requires
            old(self).wf(),
        ensures
            final(self).wf(),
            final(self).tokens() == old(self).tokens(),
            final(self).input() == old(self).input(),
            final(self).cursor() == old(self).cursor(),
            final(self).follows() == old(self).follows().push(followed_by@),
            final(self).builder == old(self).builder,
            final(self).tokens == old(self).tokens,
    {
        self.follows.push(followed_by);
        assert(follows_view(self.follows@) =~= follows_view(old(self).follows@).push(
            followed_by@,
        ));
    }

    /// Pushes the innermost follow set extended by `followed_by`.
    fn push_follows_extended(&mut self, followed_by: &ExpectedSet)
        requires
            old(self).wf(),
        ensures
            final(self).wf(),
            final(self).tokens() == old(self).tokens(),
            final(self).input() == old(self).input(),
            final(self).cursor() == old(self).cursor(),
            final(self).follows().len() == old(self).follows().len() + 1,
            final(self).follows().drop_last() == old(self).follows(),
            final(self).builder == old(self).builder,
            final(self).tokens == old(self).tokens,
    {
        let last_follows = if self.follows.len() == 0 {
            followed_by.clone()
        } else {
            let mut last_follows = self.follows[self.follows.len() - 1].clone();
            last_follows.union(followed_by);
            last_follows
        };
        self.follows.push(last_follows);
        assert(follows_view(self.follows@).drop_last() =~= follows_view(old(self).follows@));
    }

    fn pop_follows(&mut self)
        requires
            old(self).wf(),
            old(self).follows().len() > 0,
        ensures
            final(self).wf(),
            final(self).tokens() == old(self).tokens(),
            final(self).input() == old(self).input(),
            final(self).cursor() == old(self).cursor(),
            final(self).follows() == old(self).follows().drop_last(),
            final(self).builder == old(self).builder,
            final(self).tokens == old(self).tokens,
    {
        let _ = self.follows.pop();
        assert(follows_view(self.follows@) =~= follows_view(old(self).follows@).drop_last());
    }

    /// ```text
    /// atom ::=
    ///   ident
    ///   '(' expr ')'
    /// ```
    fn try_parse_atom(&mut self) -> (r: ParseResult<'src, 'tokens, Option<ExprRef<'src, 'expr>>>)
        where 'builder: 'expr
        requires
            old(self).wf(),
        ensures
            final(self).wf(),
            final(self).continues(old(self)),
            final(self).cursor() == atom_spec(old(self).tokens(), old(self).cursor()).0,
            agrees_opt(old(self).input(), r, atom_spec(old(self).tokens(), old(self).cursor()).1),
        decreases old(self).tokens().len() - old(self).cursor().pos, 1nat,
    {
        let ghost tokens = self.tokens();
        let ghost start = self.cursor();
        match self.expect_ident() {
            Option::Some(ident) => {
                self.ignore_spaces();
                Result::Ok(Option::Some(self.builder.mk_ident(ident)))
            },
            Option::None => match self.expect(&TokenType::LParen) {
                Option::Some(_) => {
                    proof {
                        lemma_skip_spaces(tokens, self.cursor().pos);
                    }
                    self.ignore_spaces();
                    let ghost inside = self.cursor();
                    let ghost before = *self;

                    self.push_follows(expected_rparen());
                    assert(self.follow() == Some(set![TokenType::RParen]));
                    let res = self.parse_expr();
                    proof {
                        lemma_progress(tokens, inside, Some(set![TokenType::RParen]));
                    }
                    self.pop_follows();
                    assert(self.follows() =~= before.follows());
                    let inner = match res {
                        Result::Ok(inner) => inner,
                        Result::Err(err) => {
                            return Result::Err(err);
                        },
                    };

                    match self.require(&TokenType::RParen) {
                        Result::Ok(_) => {},
                        Result::Err(err) => {
                            return Result::Err(err);
                        },
                    }
                    let _ = self.ignore_spaces();

                    Result::Ok(Option::Some(self.builder.mk_parens(inner)))
                },
                Option::None => Result::Ok(Option::None),
            },
        }
    }

    /// ```text
    /// lambda ::=
    ///   '\' ident '->' expr
    /// ```
    fn try_parse_lam(&mut self) -> (r: ParseResult<'src, 'tokens, Option<ExprRef<'src, 'expr>>>)
        where 'builder: 'expr
        requires
            old(self).wf(),
        ensures
            final(self).wf(),
            final(self).continues(old(self)),
            final(self).cursor() == lam_spec(
                old(self).tokens(),
                old(self).cursor(),
                old(self).follow(),
            ).0,
            agrees_opt(
                old(self).input(),
                r,
                lam_spec(old(self).tokens(), old(self).cursor(), old(self).follow()).1,
            ),
        decreases old(self).tokens().len() - old(self).cursor().pos, 3nat,
    {
        let ghost tokens = self.tokens();
        let ghost follow = self.follow();
        match self.expect(&TokenType::Backslash) {
            Option::Some(_) => {
                proof {
                    lemma_skip_spaces(tokens, self.cursor().pos);
                }
                let _ = self.ignore_spaces();

                let arg = match self.require_ident() {
                    Result::Ok(arg) => arg,
                    Result::Err(err) => {
                        return Result::Err(err);
                    },
                };
                proof {
                    lemma_skip_spaces(tokens, self.cursor().pos);
                }
                let _ = self.ignore_spaces();

                match self.require(&TokenType::RArrow) {
                    Result::Ok(_) => {},
                    Result::Err(err) => {
                        return Result::Err(err);
                    },
                }
                proof {
                    lemma_skip_spaces(tokens, self.cursor().pos);
                }
                let _ = self.ignore_spaces();

                let body = match self.parse_expr() {
                    Result::Ok(body) => body,
                    Result::Err(err) => {
                        return Result::Err(err);
                    },
                };

                Result::Ok(Option::Some(self.builder.mk_lam(arg, body)))
            },
            Option::None => Result::Ok(Option::None),
        }
    }

    /// ```text
    /// app ::=
    ///   atom atom*
    /// ```
    fn try_parse_app(&mut self) -> (r: ParseResult<'src, 'tokens, Option<ExprRef<'src, 'expr>>>)
        where 'builder: 'expr
        requires
            old(self).wf(),
        ensures
            final(self).wf(),
            final(self).continues(old(self)),
            final(self).cursor() == app_spec(
                old(self).tokens(),
                old(self).cursor(),
                old(self).follow(),
            ).0,
            agrees_opt(
                old(self).input(),
                r,
                app_spec(old(self).tokens(), old(self).cursor(), old(self).follow()).1,
            ),
        decreases old(self).tokens().len() - old(self).cursor().pos, 3nat,
    {
        let ghost tokens = self.tokens();
        let ghost follow = self.follow();
        let ghost start = self.cursor();
        let ghost outer = self.follows();
        proof {
            lemma_progress(tokens, start, follow);
        }
        self.push_follows_extended(&atom_start_set());
        let atom_res = self.try_parse_atom();
        self.pop_follows();
        assert(self.follows() =~= outer);
        let head = match atom_res {
            Result::Err(err) => {
                return Result::Err(err);
            },
            Result::Ok(Option::None) => {
                return Result::Ok(Option::None);
            },
            Result::Ok(Option::Some(head)) => head,
        };
        let mut result = head;
        let ghost goal = app_rest_spec(tokens, self.cursor(), follow, head@);
        loop
            invariant
                self.wf(),
                self.continues(old(self)),
                self.tokens() == tokens,
                self.input() == old(self).input(),
                self.follows() == outer,
                self.follow() == follow,
                tokens == old(self).tokens(),
                start == old(self).cursor(),
                follow == old(self).follow(),
                start.pos <= self.cursor().pos,
                goal == app_spec(tokens, start, follow),
                goal == app_rest_spec(tokens, self.cursor(), follow, result@),
            decreases tokens.len() - self.cursor().pos,
        {
            let ghost here = self.cursor();
            proof {
                lemma_progress(tokens, here, follow);
            }
            self.push_follows_extended(&atom_start_set());
            let atom_res = self.try_parse_atom();
            self.pop_follows();
            assert(self.follows() =~= outer);
            match atom_res {
                Result::Err(err) => {
                    return Result::Err(err);
                },
                Result::Ok(Option::None) => {
                    let token = self.current_token();
                    if self.follows.len() == 0 {
                        return self.unexpected();
                    } else {
                        let followed_by = &self.follows[self.follows.len() - 1];
                        if followed_by.contains(&token.token_type()) {
                            return Result::Ok(Option::Some(result));
                        } else {
                            return self.unexpected_with(followed_by);
                        }
                    }
                },
                Result::Ok(Option::Some(expr)) => {
                    result = self.builder.mk_app(result, expr);
                },
            }
        }
    }

    /// ```text
    /// expr ::=
    ///   lambda
    ///   app
    /// ```
    fn parse_expr(&mut self) -> (r: ParseResult<'src, 'tokens, ExprRef<'src, 'expr>>) where
        'builder: 'expr,

        requires
            old(self).wf(),
        ensures
            final(self).wf(),
            final(self).continues(old(self)),
            final(self).cursor() == expr_spec(
                old(self).tokens(),
                old(self).cursor(),
                old(self).follow(),
            ).0,
            agrees(
                old(self).input(),
                r,
                expr_spec(old(self).tokens(), old(self).cursor(), old(self).follow()).1,
            ),
        decreases old(self).tokens().len() - old(self).cursor().pos, 4nat,
    {
        let ghost tokens = self.tokens();
        let ghost follow = self.follow();
        proof {
            lemma_progress(tokens, self.cursor(), follow);
        }
        let lam_result = match self.try_parse_lam() {
            Result::Ok(lam_result) => lam_result,
            Result::Err(err) => {
                return Result::Err(err);
            },
        };
        match lam_result {
            Option::Some(expr) => Result::Ok(expr),
            Option::None => {
                let app_result = match self.try_parse_app() {
                    Result::Ok(app_result) => app_result,
                    Result::Err(err) => {
                        return Result::Err(err);
                    },
                };
                match app_result {
                    Option::Some(expr) => Result::Ok(expr),
                    Option::None => self.unexpected(),
                }
            },
        }
    }

    /// Parses one expression, after which the end marker must follow. The
    /// stack of follow sets is afterwards as it was before, whatever the
    /// result.
    pub fn parse_expr_eof(&mut self) -> (r: ParseResult<'src, 'tokens, ExprRef<'src, 'expr>>) where
        'builder: 'expr,

        requires
            old(self).wf(),
        ensures
            final(self).wf(),
            final(self).input() == old(self).input(),
            final(self).follows() == old(self).follows(),
            final(self).cursor() == expr_eof_spec(old(self).tokens(), old(self).cursor()).0,
            agrees(old(self).input(), r, expr_eof_spec(old(self).tokens(), old(self).cursor()).1),
    {
        let ghost outer = self.follows();
        self.push_follows(expected_eof());
        let res = self.parse_expr();
        self.pop_follows();
        assert(self.follows() =~= outer);
        res
    }
}

} // verus!
