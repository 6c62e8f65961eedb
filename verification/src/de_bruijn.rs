//! The nameless intermediate representation: variables are de Bruijn indices.
use crate::arena::{arena_alloc, arena_new};
use crate::syntax;
use crate::syntax::Term;
use crate::text::str_eq;
use typed_arena::Arena;
use vstd::prelude::*;

verus! {

/// A term that lives in an arena.
pub type ExprRef<'expr> = &'expr Expr<'expr>;

/// A term whose variables count the binders between use and binding site:
/// `Var(0)` is bound by the nearest enclosing `Lam`.
#[derive(Debug, PartialEq, Eq)]
pub enum Expr<'expr> {
    Var(usize),
    Lam(ExprRef<'expr>),
    App(ExprRef<'expr>, ExprRef<'expr>),
    U64(u64),
    AddU64(ExprRef<'expr>, ExprRef<'expr>),
}

impl<'expr> Expr<'expr> {
    /// Every `Var(i)` in `self` lies under more than `i` binders, counting
    /// `depth` binders around `self` itself.
    pub open spec fn well_scoped(self, depth: nat) -> bool
        decreases self,
    {
        match self {
            Expr::Var(i) => i < depth,
            Expr::Lam(body) => body.well_scoped(depth + 1),
            Expr::App(f, x) => f.well_scoped(depth) && x.well_scoped(depth),
            Expr::U64(_) => true,
            Expr::AddU64(l, r) => l.well_scoped(depth) && r.well_scoped(depth),
        }
    }

    /// No variable of `self` is free.
    pub open spec fn closed(self) -> bool {
        self.well_scoped(0)
    }
}

/// Allocates terms in an arena and hands out references that live as long as
/// the builder.
pub struct ExprBuilder<'expr> {
    arena: Arena<Expr<'expr>>,
}

impl<'expr> ExprBuilder<'expr> {
    /// A builder with an empty arena.
    pub fn new() -> Self {
        ExprBuilder { arena: arena_new() }
    }

    /// Allocates the application of `f` to `x`.
    pub fn mk_app<'builder>(&'builder self, f: ExprRef<'expr>, x: ExprRef<'expr>) -> (e: ExprRef<
        'expr,
    >) where 'builder: 'expr
        ensures
            *e == Expr::App(f, x),
    {
        arena_alloc(&self.arena, Expr::App(f, x))
    }

    /// Allocates the abstraction with body `x`.
    pub fn mk_lam<'builder>(&'builder self, x: ExprRef<'expr>) -> (e: ExprRef<'expr>) where
        'builder: 'expr,

        ensures
            *e == Expr::Lam(x),
    {
        arena_alloc(&self.arena, Expr::Lam(x))
    }

    /// Allocates the variable with index `var`.
    pub fn mk_var<'builder>(&'builder self, var: usize) -> (e: ExprRef<'expr>) where
        'builder: 'expr,

        ensures
            *e == Expr::Var(var),
    {
        arena_alloc(&self.arena, Expr::Var(var))
    }

    /// Allocates the integer `n`.
    pub fn mk_u64<'builder>(&'builder self, n: u64) -> (e: ExprRef<'expr>) where 'builder: 'expr
        ensures
            *e == Expr::U64(n),
    {
        arena_alloc(&self.arena, Expr::U64(n))
    }

    /// Allocates the sum of `l` and `r`.
    pub fn mk_addu64<'builder>(&'builder self, l: ExprRef<'expr>, r: ExprRef<'expr>) -> (e:
        ExprRef<'expr>) where 'builder: 'expr
        ensures
            *e == Expr::AddU64(l, r),
    {
        arena_alloc(&self.arena, Expr::AddU64(l, r))
    }
}

/// How many binders lie between a use of `name` and the binder of that name
/// that is nearest to it, where `scope` lists the binders around the use,
/// outermost first. `None` where no binder has the name.
pub open spec fn index_of(scope: Seq<Seq<char>>, name: Seq<char>) -> Option<nat>
    decreases scope.len(),
{
    if scope.len() == 0 {
        None
    } else if scope.last() == name {
        Some(0)
    } else {
        match index_of(scope.drop_last(), name) {
            Some(i) => Some(i + 1),
            None => None,
        }
    }
}

/// Every identifier of `t` is bound, by a binder of `t` or by one of
/// `scope`.
pub open spec fn closed_under(t: Term, scope: Seq<Seq<char>>) -> bool
    decreases t,
{
    match t {
        Term::Ident(name) => index_of(scope, name) is Some,
        Term::Lam(arg, body) => closed_under(*body, scope.push(arg)),
        Term::App(f, x) => closed_under(*f, scope) && closed_under(*x, scope),
        Term::Parens(inner) => closed_under(*inner, scope),
    }
}

/// The nameless form of `t` under the binders `scope`: each identifier
/// becomes the index of its nearest binder, and parentheses disappear.
pub open spec fn lower<'expr>(t: Term, scope: Seq<Seq<char>>) -> Expr<'expr>
    decreases t,
{
    match t {
        Term::Ident(name) => Expr::Var(index_of(scope, name).unwrap() as usize),
        Term::Lam(arg, body) => Expr::Lam(&lower(*body, scope.push(arg))),
        Term::App(f, x) => Expr::App(&lower(*f, scope), &lower(*x, scope)),
        Term::Parens(inner) => lower(*inner, scope),
    }
}

/// An index that `index_of` finds lies inside the scope and leads to a
/// binder of the name.
pub proof fn lemma_index_of_bound(scope: Seq<Seq<char>>, name: Seq<char>)
    ensures
        index_of(scope, name) matches Some(i) ==> i < scope.len() && scope[scope.len() - 1 - i]
            == name,
    decreases scope.len(),
{
    if scope.len() > 0 && scope.last() != name {
        lemma_index_of_bound(scope.drop_last(), name);
    }
}

/// Lowering a term without free identifiers gives a term in which every
/// variable lies under more binders than its index.
pub proof fn lemma_lower_well_scoped(t: Term, scope: Seq<Seq<char>>)
    requires
        closed_under(t, scope),
    ensures
        lower(t, scope).well_scoped(scope.len()),
    decreases t,
{
    match t {
        Term::Ident(name) => {
            lemma_index_of_bound(scope, name);
        },
        Term::Lam(arg, body) => {
            lemma_lower_well_scoped(*body, scope.push(arg));
        },
        Term::App(f, x) => {
            lemma_lower_well_scoped(*f, scope);
            lemma_lower_well_scoped(*x, scope);
        },
        Term::Parens(inner) => {
            lemma_lower_well_scoped(*inner, scope);
        },
    }
}

/// The names that a stack of binders holds.
pub open spec fn names<'src>(scope: Seq<&'src str>) -> Seq<Seq<char>> {
    Seq::new(scope.len(), |i: int| scope[i]@)
}

/// Finds the nearest binder of `name` in `scope`, innermost last.
fn lookup_binder<'src>(scope: &Vec<&'src str>, name: &str) -> (found: Option<usize>)
    ensures
        match index_of(names(scope@), name@) {
            Some(i) => found == Some(i as usize) && i < scope.len(),
            None => found is None,
        },
{
    let mut i: usize = scope.len();
    proof {
        assert(names(scope@).take(scope.len() as int) =~= names(scope@));
    }
    while i > 0
        invariant
            i <= scope.len(),
            match index_of(names(scope@).take(i as int), name@) {
                Some(k) => index_of(names(scope@), name@) == Some((k + scope.len() - i) as nat),
                None => index_of(names(scope@), name@) is None,
            },
        decreases i,
    {
        proof {
            let prefix = names(scope@).take(i as int);
            assert(prefix.last() == scope@[i - 1]@);
            assert(prefix.drop_last() =~= names(scope@).take(i - 1));
        }
        if str_eq(scope[i - 1], name) {
            proof {
                lemma_index_of_bound(names(scope@), name@);
            }
            return Some(scope.len() - i);
        }
        i -= 1;
    }
    None
}

fn __from_ast<'src, 'ast, 'builder, 'expr>(
    scope: &mut Vec<&'src str>,
    builder: &'builder ExprBuilder<'expr>,
    expr: syntax::ExprRef<'src, 'ast>,
) -> (r: ExprRef<'expr>) where 'builder: 'expr
    requires
        closed_under(expr@, names(old(scope)@)),
    ensures
        final(scope)@ == old(scope)@,
        *r == lower::<'expr>(expr@, names(old(scope)@)),
    decreases *expr,
{
    match expr {
        syntax::Expr::Parens(inner) => __from_ast(scope, builder, inner),
        syntax::Expr::Ident(ident) => {
            let index = lookup_binder(scope, ident).unwrap();
            builder.mk_var(index)
        },
        syntax::Expr::App(l, r) => {
            let f = __from_ast(scope, builder, l);
            let x = __from_ast(scope, builder, r);
            builder.mk_app(f, x)
        },
        syntax::Expr::Lam(arg, body) => {
            scope.push(arg);
            assert(names(scope@) =~= names(old(scope)@).push(arg@));
            let inner = __from_ast(scope, builder, body);
            let _ = scope.pop();
            assert(scope@ =~= old(scope)@);
            builder.mk_lam(inner)
        },
    }
}

/// Lowers an expression without free identifiers to its nameless form: each
/// identifier becomes the number of binders between it and the nearest
/// binder of its name, and `Parens` nodes are dropped.
pub fn from_ast<'src, 'ast, 'builder, 'expr>(
    builder: &'builder ExprBuilder<'expr>,
    expr: syntax::ExprRef<'src, 'ast>,
) -> (r: ExprRef<'expr>) where 'builder: 'expr
    requires
        closed_under(expr@, Seq::empty()),
    ensures
        *r == lower::<'expr>(expr@, Seq::empty()),
        r.closed(),
{
    let mut scope: Vec<&'src str> = Vec::new();
    assert(names(scope@) =~= Seq::<Seq<char>>::empty());
    proof {
        lemma_lower_well_scoped(expr@, Seq::empty());
    }
    __from_ast(&mut scope, builder, expr)
}

fn closed_in<'src, 'ast>(scope: &mut Vec<&'src str>, expr: syntax::ExprRef<'src, 'ast>) -> (r: bool)
    ensures
        final(scope)@ == old(scope)@,
        r == closed_under(expr@, names(old(scope)@)),
    decreases *expr,
{
    match expr {
        syntax::Expr::Parens(inner) => closed_in(scope, inner),
        syntax::Expr::Ident(ident) => lookup_binder(scope, ident).is_some(),
        syntax::Expr::App(l, r) => {
            let left = closed_in(scope, l);
            let right = closed_in(scope, r);
            left && right
        },
        syntax::Expr::Lam(arg, body) => {
            scope.push(arg);
            assert(names(scope@) =~= names(old(scope)@).push(arg@));
            let inner = closed_in(scope, body);
            let _ = scope.pop();
            assert(scope@ =~= old(scope)@);
            inner
        },
    }
}

/// Decides whether `expr` is without free identifiers, which is what
/// `from_ast` asks of it.
pub fn is_closed<'src, 'ast>(expr: syntax::ExprRef<'src, 'ast>) -> (r: bool)
    ensures
        r == closed_under(expr@, Seq::empty()),
{
    let mut scope: Vec<&'src str> = Vec::new();
    assert(names(scope@) =~= Seq::<Seq<char>>::empty());
    closed_in(&mut scope, expr)
}

} // verus!
