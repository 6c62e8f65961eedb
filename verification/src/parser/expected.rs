//! Sets of token kinds, for "expected one of ..." diagnostics.
//!
//! The set is a `BitSet` of the `bit_set` crate over the kinds' indices.
//! `Bits` and the functions on it are not verified: their contracts state
//! what the crate's methods do to the members of the set.
use crate::lexer::TokenType;
use crate::text::push_char;
use bit_set::BitSet;
use vstd::prelude::*;
use vstd::string::StringExecFns;

verus! {

/// A `BitSet`, opaque to the verifier.
#[derive(PartialEq, Eq, Debug)]
#[verifier::external_body]
pub struct Bits {
    inner: BitSet,
}

/// The integers that are in the bit set.
pub uninterp spec fn bits_members(bits: Bits) -> Set<usize>;

/// `BitSet::with_capacity`: a set without members, with room for the
/// integers below `nbits`.
#[verifier::external_body]
fn bits_with_capacity(nbits: usize) -> (bits: Bits)
    ensures
        bits_members(bits) == Set::<usize>::empty(),
{
    Bits { inner: BitSet::with_capacity(nbits) }
}

/// `BitSet::make_empty`: removes every member. It does not panic.
#[verifier::external_body]
fn bits_clear(bits: &mut Bits)
    ensures
        bits_members(*final(bits)) == Set::<usize>::empty(),
    no_unwind
{
    bits.inner.make_empty();
}

/// `BitSet::insert`: adds `value` and keeps the other members. It does not
/// panic on a value this small.
#[verifier::external_body]
fn bits_insert(bits: &mut Bits, value: usize)
    requires
        value < 64,
    ensures
        bits_members(*final(bits)) == bits_members(*old(bits)).insert(value),
    no_unwind
{
    bits.inner.insert(value);
}

/// `BitSet::union_with`: adds the members of `other`. It does not panic.
#[verifier::external_body]
fn bits_union_with(bits: &mut Bits, other: &Bits)
    ensures
        bits_members(*final(bits)) == bits_members(*old(bits)).union(
            bits_members(*other),
        ),
    no_unwind
{
    bits.inner.union_with(&other.inner);
}

/// `BitSet::remove`: takes `value` out and keeps the other members. It does
/// not panic.
#[verifier::external_body]
fn bits_remove(bits: &mut Bits, value: usize)
    ensures
        bits_members(*final(bits)) == bits_members(*old(bits)).remove(value),
    no_unwind
{
    bits.inner.remove(value);
}

/// `BitSet::contains`: whether `value` is a member.
#[verifier::external_body]
fn bits_contains(bits: &Bits, value: usize) -> (found: bool)
    ensures
        found == bits_members(*bits).contains(value),
{
    bits.inner.contains(value)
}

/// `BitSet::iter`, collected: the members in increasing order, each once.
#[verifier::external_body]
fn bits_to_vec(bits: &Bits) -> (members: Vec<usize>)
    ensures
        forall|i: int, j: int| 0 <= i < j < members@.len() ==> members@[i] < members@[j],
        forall|value: usize| members@.contains(value) <==> bits_members(*bits).contains(value),
{
    bits.inner.iter().collect()
}

/// `BitSet::clone`: a set with the same members.
#[verifier::external_body]
fn bits_clone(bits: &Bits) -> (copy: Bits)
    ensures
        bits_members(copy) == bits_members(*bits),
{
    Bits { inner: bits.inner.clone() }
}

/// The token kinds in the order of their indices.
pub open spec fn all_kinds() -> Seq<TokenType> {
    seq![
        TokenType::Space,
        TokenType::Newline,
        TokenType::Backslash,
        TokenType::Ident,
        TokenType::RArrow,
        TokenType::LParen,
        TokenType::RParen,
        TokenType::Equals,
        TokenType::Eof,
    ]
}

/// The members of `set` among the first `n` kinds, in the order of their
/// indices.
pub open spec fn members_below(set: Set<TokenType>, n: nat) -> Seq<TokenType>
    decreases n,
{
    if n == 0 {
        Seq::empty()
    } else {
        let rest = members_below(set, (n - 1) as nat);
        if set.contains(all_kinds()[n - 1]) {
            rest.push(all_kinds()[n - 1])
        } else {
            rest
        }
    }
}

/// The members of `set` in the order of their indices.
pub open spec fn ordered(set: Set<TokenType>) -> Seq<TokenType> {
    members_below(set, 9)
}

/// The descriptions of `kinds`, separated by a comma and a space.
pub open spec fn joined(kinds: Seq<TokenType>) -> Seq<char>
    decreases kinds.len(),
{
    if kinds.len() == 0 {
        Seq::empty()
    } else if kinds.len() == 1 {
        kinds[0].description()
    } else {
        joined(kinds.drop_last()) + seq![',', ' '] + kinds.last().description()
    }
}

/// `kinds` lists the members of `set`, each once, in the order of their
/// indices.
pub open spec fn lists_in_order(kinds: Seq<TokenType>, set: Set<TokenType>) -> bool {
    &&& forall|i: int, j: int|
        0 <= i < j < kinds.len() ==> (#[trigger] kinds[i]).index() < (#[trigger] kinds[j]).index()
    &&& forall|kind: TokenType| kinds.contains(kind) <==> set.contains(kind)
}

/// `members_below` lists the members among the first `n` kinds in order.
proof fn lemma_members_below(set: Set<TokenType>, n: nat)
    requires
        n <= 9,
    ensures
        forall|i: int, j: int|
            0 <= i < j < members_below(set, n).len() ==> (#[trigger] members_below(
                set,
                n,
            )[i]).index() < (#[trigger] members_below(set, n)[j]).index(),
        forall|kind: TokenType|
            #![trigger members_below(set, n).contains(kind)]
            members_below(set, n).contains(kind) <==> set.contains(kind) && kind.index() < n,
    decreases n,
{
    if n > 0 {
        let rest = members_below(set, (n - 1) as nat);
        let last = all_kinds()[n - 1];
        let now = members_below(set, n);
        lemma_members_below(set, (n - 1) as nat);
        lemma_all_kinds(n - 1);
        if set.contains(last) {
            assert(now == rest.push(last));
            assert forall|kind: TokenType| #![trigger now.contains(kind)]
                now.contains(kind) <==> set.contains(kind) && kind.index() < n by {
                assert(rest.contains(kind) <==> set.contains(kind) && kind.index() < n - 1);
                if now.contains(kind) {
                    let i = choose|i: int| 0 <= i < now.len() && now[i] == kind;
                    if i < rest.len() {
                        assert(rest[i] == kind);
                        assert(rest.contains(kind));
                    } else {
                        assert(kind == last);
                    }
                }
                if set.contains(kind) && kind.index() < n {
                    if kind.index() == n - 1 {
                        crate::lexer::lemma_index_injective(kind, last);
                        assert(now[rest.len() as int] == kind);
                    } else {
                        assert(rest.contains(kind));
                        let i = choose|i: int| 0 <= i < rest.len() && rest[i] == kind;
                        assert(now[i] == kind);
                    }
                }
            }
            assert forall|i: int, j: int| 0 <= i < j < now.len() implies (
            #[trigger] now[i]).index() < (#[trigger] now[j]).index() by {
                assert(now[i] == rest[i]);
                if j == rest.len() {
                    assert(now[j] == last);
                    assert(rest.contains(rest[i]));
                    assert(rest[i].index() < n - 1);
                } else {
                    assert(now[j] == rest[j]);
                    assert(rest[i].index() < rest[j].index());
                }
            }
        } else {
            assert(now == rest);
            assert forall|kind: TokenType| #![trigger now.contains(kind)]
                now.contains(kind) <==> set.contains(kind) && kind.index() < n by {
                assert(rest.contains(kind) <==> set.contains(kind) && kind.index() < n - 1);
                if kind.index() == n - 1 {
                    crate::lexer::lemma_index_injective(kind, last);
                }
            }
        }
    }
}

proof fn lemma_all_kinds(i: int)
    requires
        0 <= i < 9,
    ensures
        all_kinds().len() == 9,
        all_kinds()[i].index() == i,
{
    let kinds = all_kinds();
    assert(kinds[0].index() == 0 && kinds[1].index() == 1 && kinds[2].index() == 2
        && kinds[3].index() == 3 && kinds[4].index() == 4 && kinds[5].index() == 5
        && kinds[6].index() == 6 && kinds[7].index() == 7 && kinds[8].index() == 8);
}

/// A set has one listing in order: `ordered`.
pub proof fn lemma_ordered_unique(kinds: Seq<TokenType>, set: Set<TokenType>)
    requires
        lists_in_order(kinds, set),
    ensures
        kinds == ordered(set),
{
    lemma_members_below(set, 9);
    lemma_listing_unique(kinds, ordered(set));
    assert(kinds =~= ordered(set));
}

/// Two listings in order with the same members are the same listing.
proof fn lemma_listing_unique(a: Seq<TokenType>, b: Seq<TokenType>)
    requires
        forall|i: int, j: int|
            0 <= i < j < a.len() ==> (#[trigger] a[i]).index() < (#[trigger] a[j]).index(),
        forall|i: int, j: int|
            0 <= i < j < b.len() ==> (#[trigger] b[i]).index() < (#[trigger] b[j]).index(),
        forall|kind: TokenType| a.contains(kind) <==> b.contains(kind),
    ensures
        a =~= b,
    decreases a.len(),
{
    if a.len() == 0 {
        if b.len() > 0 {
            assert(b.contains(b[0]));
        }
    } else {
        // The last of each is the member with the greatest index.
        let x = a.last();
        assert(a.contains(x));
        let jx = choose|j: int| 0 <= j < b.len() && b[j] == x;
        let y = b.last();
        assert(b.contains(y));
        let iy = choose|i: int| 0 <= i < a.len() && a[i] == y;
        assert(x == y) by {
            if iy < a.len() - 1 {
                assert(a[iy].index() < a[a.len() - 1].index());
            }
            if jx < b.len() - 1 {
                assert(b[jx].index() < b[b.len() - 1].index());
            }
        }
        let a0 = a.drop_last();
        let b0 = b.drop_last();
        assert forall|kind: TokenType| a0.contains(kind) <==> b0.contains(kind) by {
            if a0.contains(kind) {
                let i = choose|i: int| 0 <= i < a0.len() && a0[i] == kind;
                assert(a[i] == kind);
                assert(a[i].index() < a[a.len() - 1].index());
                assert(a.contains(kind));
                let j = choose|j: int| 0 <= j < b.len() && b[j] == kind;
                assert(b0[j] == kind);
            }
            if b0.contains(kind) {
                let j = choose|j: int| 0 <= j < b0.len() && b0[j] == kind;
                assert(b[j] == kind);
                assert(b[j].index() < b[b.len() - 1].index());
                assert(b.contains(kind));
                let i = choose|i: int| 0 <= i < a.len() && a[i] == kind;
                assert(a0[i] == kind);
            }
        }
        assert forall|i: int, j: int| 0 <= i < j < a0.len() implies (#[trigger] a0[i]).index() < (
        #[trigger] a0[j]).index() by {
            assert(a0[i] == a[i] && a0[j] == a[j]);
        }
        assert forall|i: int, j: int| 0 <= i < j < b0.len() implies (#[trigger] b0[i]).index() < (
        #[trigger] b0[j]).index() by {
            assert(b0[i] == b[i] && b0[j] == b[j]);
        }
        lemma_listing_unique(a0, b0);
        assert(a =~= a0.push(x));
        assert(b =~= b0.push(y));
    }
}

/// A set of token kinds.
#[derive(PartialEq, Eq, Debug)]
pub struct ExpectedSet {
    bits: Bits,
}

impl View for ExpectedSet {
    type V = Set<TokenType>;

    closed spec fn view(&self) -> Set<TokenType> {
        Set::new(|kind: TokenType| bits_members(self.bits).contains(kind.index() as usize))
    }
}

impl Clone for ExpectedSet {
    fn clone(&self) -> (copy: Self)
        ensures
            copy@ == self@,
    {
        proof {
            use_type_invariant(self);
        }
        ExpectedSet { bits: bits_clone(&self.bits) }
    }
}

impl ExpectedSet {
    /// Every member of the bit set is the index of a kind.
    #[verifier::type_invariant]
    spec fn only_kinds(&self) -> bool {
        forall|value: usize| bits_members(self.bits).contains(value) ==> value < 9
    }

    /// The empty set.
    pub fn new() -> (set: Self)
        ensures
            set@ == Set::<TokenType>::empty(),
    {
        let set = ExpectedSet { bits: bits_with_capacity(1) };
        assert(set@ =~= Set::<TokenType>::empty());
        set
    }

    /// Removes every member.
    #[inline]
    pub fn clear(&mut self)
        ensures
            final(self)@ == Set::<TokenType>::empty(),
    {
        bits_clear(&mut self.bits);
        assert(self@ =~= Set::<TokenType>::empty());
    }

    /// Adds `tt`.
    #[inline]
    pub fn insert(&mut self, tt: &TokenType)
        ensures
            final(self)@ == old(self)@.insert(*tt),
    {
        proof {
            use_type_invariant(&*self);
        }
        bits_insert(&mut self.bits, tt.to_usize());
        assert(self@ =~= old(self)@.insert(*tt));
    }

    /// Adds the members of `other`.
    #[inline]
    pub fn union(&mut self, other: &ExpectedSet)
        ensures
            final(self)@ == old(self)@.union(other@),
    {
        proof {
            use_type_invariant(&*self);
            use_type_invariant(other);
        }
        bits_union_with(&mut self.bits, &other.bits);
        assert(self@ =~= old(self)@.union(other@));
    }

    /// Takes `tt` out.
    #[inline]
    pub fn remove(&mut self, tt: &TokenType)
        ensures
            final(self)@ == old(self)@.remove(*tt),
    {
        proof {
            use_type_invariant(&*self);
        }
        bits_remove(&mut self.bits, tt.to_usize());
        assert(self@ =~= old(self)@.remove(*tt));
    }

    /// Whether `tt` is a member.
    #[inline]
    pub fn contains(&self, tt: &TokenType) -> (found: bool)
        ensures
            found == self@.contains(*tt),
    {
        bits_contains(&self.bits, tt.to_usize())
    }

    /// The members in the order of their indices.
    pub fn as_vec(&self) -> (kinds: Vec<TokenType>)
        ensures
            kinds@ == ordered(self@),
    {
        let members = bits_to_vec(&self.bits);
        let mut kinds: Vec<TokenType> = Vec::new();
        let mut i: usize = 0;
        proof {
            use_type_invariant(self);
            assert forall|j: int| 0 <= j < members@.len() implies members@[j] < 9 by {
                assert(members@.contains(members@[j]));
            }
        }
        while i < members.len()
            invariant
                i <= members.len(),
                kinds@.len() == i,
                forall|j: int| 0 <= j < members@.len() ==> members@[j] < 9,
                forall|j: int| 0 <= j < i ==> (#[trigger] kinds@[j]).index() == members@[j],
            decreases members.len() - i,
        {
            kinds.push(TokenType::unsafe_from_usize(members[i]));
            i += 1;
        }
        proof {
            assert forall|kind: TokenType| kinds@.contains(kind) <==> self@.contains(kind) by {
                if kinds@.contains(kind) {
                    let j = choose|j: int| 0 <= j < kinds@.len() && kinds@[j] == kind;
                    assert(members@.contains(members@[j]));
                }
                if self@.contains(kind) {
                    let value = kind.index() as usize;
                    assert(members@.contains(value));
                    let j = choose|j: int| 0 <= j < members@.len() && members@[j] == value;
                    assert(kinds@[j].index() == kind.index());
                    assert(kinds@[j] == kind);
                }
            }
            lemma_ordered_unique(kinds@, self@);
        }
        kinds
    }

    /// The members' descriptions in the order of their indices, separated
    /// by a comma and a space.
    pub fn to_string(&self) -> (text: String)
        ensures
            text@ == joined(ordered(self@)),
    {
        let kinds = self.as_vec();
        let mut text = String::new();
        let mut i: usize = 0;
        assert(kinds@.take(0) =~= Seq::<TokenType>::empty());
        while i < kinds.len()
            invariant
                i <= kinds.len(),
                text@ == joined(kinds@.take(i as int)),
            decreases kinds.len() - i,
        {
            if i > 0 {
                push_char(&mut text, ',');
                push_char(&mut text, ' ');
            }
            let item = kinds[i].to_string();
            text.append(item.as_str());
            proof {
                let next = kinds@.take(i + 1);
                assert(next.drop_last() =~= kinds@.take(i as int));
                assert(next.last() == kinds@[i as int]);
                if i == 0 {
                    assert(text@ =~= kinds@[0].description());
                } else {
                    assert(text@ =~= joined(kinds@.take(i as int)) + seq![',', ' ']
                        + kinds@[i as int].description());
                }
            }
            i += 1;
        }
        assert(kinds@.take(kinds.len() as int) =~= kinds@);
        text
    }
}

} // verus!
