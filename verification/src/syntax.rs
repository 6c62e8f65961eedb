//! The named syntax tree that the parser builds.
use crate::arena::{arena_alloc, arena_new};
use typed_arena::Arena;
use vstd::prelude::*;

verus! {

/// An expression that lives in an arena.
pub type ExprRef<'src, 'expr> = &'expr Expr<'src, 'expr>;

/// A term with named variables. Names are slices of the source text.
/// `Parens` keeps the shape of the source.
#[derive(Debug, PartialEq, Eq)]
pub enum Expr<'src, 'expr> {
    Ident(&'src str),
    Lam(&'src str, ExprRef<'src, 'expr>),
    App(ExprRef<'src, 'expr>, ExprRef<'src, 'expr>),
    Parens(ExprRef<'src, 'expr>),
}

/// What an `Expr` denotes: the same tree with each name as its characters.
pub enum Term {
    Ident(Seq<char>),
    Lam(Seq<char>, Box<Term>),
    App(Box<Term>, Box<Term>),
    Parens(Box<Term>),
}

/// The term that `e` denotes.
pub open spec fn term_of<'src, 'expr>(e: Expr<'src, 'expr>) -> Term
    decreases e,
{
    match e {
        Expr::Ident(name) => Term::Ident(name@),
        Expr::Lam(arg, body) => Term::Lam(arg@, Box::new(term_of(*body))),
        Expr::App(f, x) => Term::App(Box::new(term_of(*f)), Box::new(term_of(*x))),
        Expr::Parens(inner) => Term::Parens(Box::new(term_of(*inner))),
    }
}

impl<'src, 'expr> View for Expr<'src, 'expr> {
    type V = Term;

    open spec fn view(&self) -> Term {
        term_of(*self)
    }
}

/// `f` applied to each of `xs` in turn, associating to the left.
pub open spec fn apply_all(f: Term, xs: Seq<Term>) -> Term
    decreases xs.len(),
{
    if xs.len() == 0 {
        f
    } else {
        Term::App(Box::new(apply_all(f, xs.drop_last())), Box::new(xs.last()))
    }
}

/// The terms that a sequence of expressions denotes.
pub open spec fn views<'src, 'expr>(xs: Seq<ExprRef<'src, 'expr>>) -> Seq<Term> {
    Seq::new(xs.len(), |i: int| xs[i]@)
}

/// Allocates expressions in an arena and hands out references that live as
/// long as the builder.
pub struct ExprBuilder<'src, 'expr> {
    arena: Arena<Expr<'src, 'expr>>,
}

impl<'src, 'expr> ExprBuilder<'src, 'expr> {
    /// A builder with an empty arena.
    pub fn new() -> Self {
        ExprBuilder { arena: arena_new() }
    }

    /// Allocates the application of `f` to `x`.
    pub fn mk_app<'builder>(
        &'builder self,
        f: ExprRef<'src, 'expr>,
        x: ExprRef<'src, 'expr>,
    ) -> (e: ExprRef<'src, 'expr>) where 'builder: 'expr
        ensures
            *e == Expr::App(f, x),
            e@ == Term::App(Box::new(f@), Box::new(x@)),
    {
        arena_alloc(&self.arena, Expr::App(f, x))
    }

    /// Applies `f` to each of `xs` in turn: `f x0 x1 ..`, associating to the
    /// left.
    pub fn mk_apps<'builder>(
        &'builder self,
        f: ExprRef<'src, 'expr>,
        xs: Vec<ExprRef<'src, 'expr>>,
    ) -> (e: ExprRef<'src, 'expr>) where 'builder: 'expr
        ensures
            e@ == apply_all(f@, views(xs@)),
    {
        let mut expr = f;
        let mut i: usize = 0;
        assert(views(xs@).take(0) =~= Seq::<Term>::empty());
        while i < xs.len()
            invariant
                i <= xs.len(),
                expr@ == apply_all(f@, views(xs@).take(i as int)),
            decreases xs.len() - i,
        {
            expr = self.mk_app(expr, xs[i]);
            proof {
                let next = views(xs@).take(i + 1);
                assert(next.drop_last() =~= views(xs@).take(i as int));
                assert(next.last() == xs[i as int]@);
            }
            i += 1;
        }
        assert(views(xs@).take(xs.len() as int) =~= views(xs@));
        expr
    }

    /// Allocates the abstraction that binds `arg` in `x`.
    pub fn mk_lam<'builder>(&'builder self, arg: &'src str, x: ExprRef<'src, 'expr>) -> (e: ExprRef<
        'src,
        'expr,
    >) where 'builder: 'expr
        ensures
            *e == Expr::Lam(arg, x),
            e@ == Term::Lam(arg@, Box::new(x@)),
    {
        arena_alloc(&self.arena, Expr::Lam(arg, x))
    }

    /// Allocates `inner` in parentheses.
    pub fn mk_parens<'builder>(&'builder self, inner: ExprRef<'src, 'expr>) -> (e: ExprRef<
        'src,
        'expr,
    >) where 'builder: 'expr
        ensures
            *e == Expr::Parens(inner),
            e@ == Term::Parens(Box::new(inner@)),
    {
        arena_alloc(&self.arena, Expr::Parens(inner))
    }

    /// Allocates the identifier `ident`.
    pub fn mk_ident<'builder>(&'builder self, ident: &'src str) -> (e: ExprRef<'src, 'expr>) where
        'builder: 'expr,

        ensures
            *e == Expr::Ident(ident),
            e@ == Term::Ident(ident@),
    {
        arena_alloc(&self.arena, Expr::Ident(ident))
    }
}

} // verus!
