//! Random expressions of a given depth, for tests and benchmarks.
//!
//! The random numbers come from the `rand` crate. Nothing can be said of
//! them, so what this module promises holds whatever they are.
use crate::syntax::{ExprBuilder, ExprRef, Term};
use crate::text::push_char;
use vstd::prelude::*;

verus! {

/// `rand::random::<u8>()`: any byte.
#[verifier::external_body]
fn random_u8() -> u8 {
    rand::random::<u8>()
}

/// `rand::random::<u64>()`: any 64-bit number.
#[verifier::external_body]
fn random_u64() -> u64 {
    rand::random::<u64>()
}

/// How many identifiers a generator holds.
pub const IDENT_COUNT: usize = 100;

/// `chars` is between one and ten lower-case letters.
pub open spec fn is_generated_name(chars: Seq<char>) -> bool {
    &&& 1 <= chars.len() <= 10
    &&& forall|i: int| 0 <= i < chars.len() ==> 'a' <= #[trigger] chars[i] <= 'z'
}

/// `t` is a term that `gen_expr` may build for `size` from the names
/// `idents`: an identifier where `size` is 0, else an abstraction or an
/// application whose parts are such terms for `size - 1`.
pub open spec fn generated(t: Term, idents: Seq<Seq<char>>, size: nat) -> bool
    decreases t,
{
    match t {
        Term::Ident(name) => size == 0 && idents.contains(name),
        Term::Lam(arg, body) => size > 0 && idents.contains(arg) && generated(
            *body,
            idents,
            (size - 1) as nat,
        ),
        Term::App(f, x) => size > 0 && generated(*f, idents, (size - 1) as nat) && generated(
            *x,
            idents,
            (size - 1) as nat,
        ),
        Term::Parens(_) => false,
    }
}

/// The letter that a random number selects: the letters in order, round
/// and round.
pub fn letter(r: u64) -> (c: char)
    ensures
        c as u32 == 'a' as u32 + r % 26,
        'a' <= c <= 'z',
{
    let offset: u8 = (r % 26) as u8;
    (97u8 + offset) as char
}

/// The length that a random byte selects for an identifier: 1 to 10.
pub fn ident_length(r: u8) -> (n: u8)
    ensures
        n == r % 10 + 1,
{
    (r % 10) + 1
}

/// A source of random expressions over a fixed stock of identifiers.
pub struct Generator {
    idents: Vec<String>,
}

impl Generator {
    /// The identifiers that the generator draws from.
    pub closed spec fn idents(&self) -> Seq<Seq<char>> {
        Seq::new(self.idents@.len(), |i: int| self.idents@[i]@)
    }

    /// There are `IDENT_COUNT` identifiers, each between one and ten
    /// lower-case letters.
    pub open spec fn wf(&self) -> bool {
        &&& self.idents().len() == IDENT_COUNT
        &&& forall|i: int|
            0 <= i < self.idents().len() ==> is_generated_name(#[trigger] self.idents()[i])
    }

    /// A generator with identifiers chosen at random.
    pub fn new() -> (generator: Self)
        ensures
            generator.wf(),
    {
        let mut idents: Vec<String> = Vec::new();
        let mut n: usize = 0;
        while n < IDENT_COUNT
            invariant
                n <= IDENT_COUNT,
                idents@.len() == n,
                forall|i: int| 0 <= i < n ==> is_generated_name(#[trigger] idents@[i]@),
            decreases IDENT_COUNT - n,
        {
            let length = ident_length(random_u8());
            let mut ident = String::new();
            let mut k: u8 = 0;
            while k < length
                invariant
                    k <= length <= 10,
                    ident@.len() == k,
                    forall|i: int| 0 <= i < k ==> 'a' <= #[trigger] ident@[i] <= 'z',
                decreases length - k,
            {
                push_char(&mut ident, letter(random_u64()));
                k += 1;
            }
            idents.push(ident);
            n += 1;
        }
        Generator { idents }
    }

    /// The identifier that a random number selects: the identifiers in
    /// order, round and round.
    pub fn pick_ident<'gen>(&'gen self, r: u64) -> (ident: &'gen str)
        requires
            self.wf(),
        ensures
            ident@ == self.idents()[(r % (IDENT_COUNT as u64)) as int],
            self.idents().contains(ident@),
    {
        let index = (r % (IDENT_COUNT as u64)) as usize;
        assert(self.idents()[index as int] == self.idents@[index as int]@);
        self.idents[index].as_str()
    }

    fn gen_ident<'gen>(&'gen self) -> (ident: &'gen str)
        requires
            self.wf(),
        ensures
            self.idents().contains(ident@),
    {
        self.pick_ident(random_u64())
    }

    /// A random expression in which every identifier lies under `size`
    /// abstractions and applications. It is allocated by `builder`.
    pub fn gen_expr<'gen, 'builder, 'expr>(
        &'gen self,
        builder: &'builder ExprBuilder<'gen, 'expr>,
        size: u32,
    ) -> (expr: ExprRef<'gen, 'expr>) where 'builder: 'expr
        requires
            self.wf(),
        ensures
            generated(expr@, self.idents(), size as nat),
        decreases size, 1nat,
    {
        if size > 0 {
            match random_u8() % 2 {
                0 => self.gen_lambda(builder, size),
                _ => self.gen_app(builder, size),
            }
        } else {
            builder.mk_ident(self.gen_ident())
        }
    }

    fn gen_app<'gen, 'builder, 'expr>(
        &'gen self,
        builder: &'builder ExprBuilder<'gen, 'expr>,
        size: u32,
    ) -> (expr: ExprRef<'gen, 'expr>) where 'builder: 'expr
        requires
            self.wf(),
            size > 0,
        ensures
            generated(expr@, self.idents(), size as nat),
        decreases size, 0nat,
    {
        let l = self.gen_expr(builder, size - 1);
        let r = self.gen_expr(builder, size - 1);
        builder.mk_app(l, r)
    }

    fn gen_lambda<'gen, 'builder, 'expr>(
        &'gen self,
        builder: &'builder ExprBuilder<'gen, 'expr>,
        size: u32,
    ) -> (expr: ExprRef<'gen, 'expr>) where 'builder: 'expr
        requires
            self.wf(),
            size > 0,
        ensures
            generated(expr@, self.idents(), size as nat),
        decreases size, 0nat,
    {
        let arg = self.gen_ident();
        let body = self.gen_expr(builder, size - 1);
        builder.mk_lam(arg, body)
    }
}

} // verus!
