//! Terms as text.
use crate::de_bruijn;
use crate::syntax;
use crate::syntax::Term;
use crate::text::{decimal, push_char, push_decimal};
use vstd::prelude::*;
use vstd::string::StringExecFns;

verus! {

/// `text`, in parentheses where `wrap` holds.
pub open spec fn wrapped(wrap: bool, text: Seq<char>) -> Seq<char> {
    if wrap {
        seq!['('] + text + seq![')']
    } else {
        text
    }
}

/// The source text of a named term. In an application a function that is
/// an abstraction, and an argument that is an abstraction or an
/// application, stand in parentheses; the body of an abstraction reaches as
/// far as it can; a `Parens` node prints its own pair.
pub open spec fn syntax_text(t: Term) -> Seq<char>
    decreases t,
{
    match t {
        Term::Ident(name) => name,
        Term::App(l, r) => wrapped(*l is Lam, syntax_text(*l)) + seq![' '] + wrapped(
            *r is Lam || *r is App,
            syntax_text(*r),
        ),
        Term::Lam(arg, body) => seq!['\\'] + arg + seq![' ', '-', '>', ' '] + syntax_text(*body),
        Term::Parens(inner) => seq!['('] + syntax_text(*inner) + seq![')'],
    }
}

/// The text of a nameless term: `#i` for a variable, `\. body` for an
/// abstraction, `l + r` for an addition, with parentheses as for named
/// terms (round a right operand that is itself an addition).
pub open spec fn de_bruijn_text(e: de_bruijn::Expr) -> Seq<char>
    decreases e,
{
    match e {
        de_bruijn::Expr::Var(ix) => seq!['#'] + decimal(ix as nat),
        de_bruijn::Expr::U64(n) => decimal(n as nat),
        de_bruijn::Expr::App(l, r) => wrapped(*l is Lam, de_bruijn_text(*l)) + seq![' ']
            + wrapped(*r is Lam || *r is App, de_bruijn_text(*r)),
        de_bruijn::Expr::AddU64(l, r) => wrapped(*l is Lam, de_bruijn_text(*l)) + seq![
            ' ',
            '+',
            ' ',
        ] + wrapped(*r is Lam || *r is AddU64, de_bruijn_text(*r)),
        de_bruijn::Expr::Lam(body) => seq!['\\', '.', ' '] + de_bruijn_text(*body),
    }
}

/// Appends `text` to `out`, in parentheses where `wrap` holds.
fn push_wrapped(out: &mut String, wrap: bool, text: &str)
    ensures
        final(out)@ == old(out)@ + wrapped(wrap, text@),
{
    if wrap {
        push_char(out, '(');
    }
    out.append(text);
    if wrap {
        push_char(out, ')');
    }
    assert(out@ =~= old(out)@ + wrapped(wrap, text@));
}

/// The source text of a named expression: see `syntax_text`.
pub fn pretty_syntax<'src, 'expr>(expr: syntax::ExprRef<'src, 'expr>) -> (text: String)
    ensures
        text@ == syntax_text(expr@),
    decreases *expr,
{
    match expr {
        syntax::Expr::Ident(ident) => {
            let mut string = String::new();
            string.append(ident);
            assert(string@ =~= ident@);
            string
        },
        syntax::Expr::App(l, r) => {
            let parens_l = match l {
                syntax::Expr::Lam(_, _) => true,
                _ => false,
            };
            let parens_r = match r {
                syntax::Expr::Lam(_, _) => true,
                syntax::Expr::App(_, _) => true,
                _ => false,
            };
            let left = pretty_syntax(l);
            let right = pretty_syntax(r);
            let mut string = String::new();
            push_wrapped(&mut string, parens_l, left.as_str());
            push_char(&mut string, ' ');
            push_wrapped(&mut string, parens_r, right.as_str());
            assert(string@ =~= syntax_text(expr@));
            string
        },
        syntax::Expr::Lam(arg, body) => {
            let inner = pretty_syntax(body);
            let mut string = String::new();
            push_char(&mut string, '\\');
            string.append(arg);
            push_char(&mut string, ' ');
            push_char(&mut string, '-');
            push_char(&mut string, '>');
            push_char(&mut string, ' ');
            string.append(inner.as_str());
            assert(string@ =~= syntax_text(expr@));
            string
        },
        syntax::Expr::Parens(inner) => {
            let text = pretty_syntax(inner);
            let mut string = String::new();
            push_wrapped(&mut string, true, text.as_str());
            assert(string@ =~= syntax_text(expr@));
            string
        },
    }
}

/// The text of a nameless term: see `de_bruijn_text`.
pub fn pretty_de_bruijn<'expr>(expr: de_bruijn::ExprRef<'expr>) -> (text: String)
    ensures
        text@ == de_bruijn_text(*expr),
    decreases *expr,
{
    match expr {
        de_bruijn::Expr::Var(ix) => {
            let mut string = String::new();
            push_char(&mut string, '#');
            push_decimal(&mut string, *ix as u64);
            assert(string@ =~= de_bruijn_text(*expr));
            string
        },
        de_bruijn::Expr::U64(n) => {
            let mut string = String::new();
            push_decimal(&mut string, *n);
            assert(string@ =~= de_bruijn_text(*expr));
            string
        },
        de_bruijn::Expr::App(l, r) => {
            let parens_l = match l {
                de_bruijn::Expr::Lam(_) => true,
                _ => false,
            };
            let parens_r = match r {
                de_bruijn::Expr::Lam(_) => true,
                de_bruijn::Expr::App(_, _) => true,
                _ => false,
            };
            let left = pretty_de_bruijn(l);
            let right = pretty_de_bruijn(r);
            let mut string = String::new();
            push_wrapped(&mut string, parens_l, left.as_str());
            push_char(&mut string, ' ');
            push_wrapped(&mut string, parens_r, right.as_str());
            assert(string@ =~= de_bruijn_text(*expr));
            string
        },
        de_bruijn::Expr::AddU64(l, r) => {
            let parens_l = match l {
                de_bruijn::Expr::Lam(_) => true,
                _ => false,
            };
            let parens_r = match r {
                de_bruijn::Expr::Lam(_) => true,
                de_bruijn::Expr::AddU64(_, _) => true,
                _ => false,
            };
            let left = pretty_de_bruijn(l);
            let right = pretty_de_bruijn(r);
            let mut string = String::new();
            push_wrapped(&mut string, parens_l, left.as_str());
            push_char(&mut string, ' ');
            push_char(&mut string, '+');
            push_char(&mut string, ' ');
            push_wrapped(&mut string, parens_r, right.as_str());
            assert(string@ =~= de_bruijn_text(*expr));
            string
        },
        de_bruijn::Expr::Lam(body) => {
            let inner = pretty_de_bruijn(body);
            let mut string = String::new();
            push_char(&mut string, '\\');
            push_char(&mut string, '.');
            push_char(&mut string, ' ');
            string.append(inner.as_str());
            assert(string@ =~= de_bruijn_text(*expr));
            string
        },
    }
}

} // verus!
