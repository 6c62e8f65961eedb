//! The bump arena that holds syntax trees and values.
//!
//! The arena comes from the `typed_arena` crate. Nothing in it is verified
//! here: the three functions below state what the rest of the library relies on.
use typed_arena::Arena;
use vstd::prelude::*;

verus! {

/// `typed_arena::Arena`, declared so that it can stand in fields and
/// signatures. Its contents are opaque.
#[verifier::external_type_specification]
#[verifier::external_body]
#[verifier::reject_recursive_types(T)]
pub struct ExArena<T>(Arena<T>);

/// `Arena::new`: an arena with the crate's default first chunk. Nothing is
/// claimed of the result.
#[verifier::external_body]
pub(crate) fn arena_new<T>() -> Arena<T> {
    Arena::new()
}

/// `Arena::with_capacity`: an arena whose first chunk has room for `n` values
/// (for one, where `n` is zero). Nothing is claimed of the result.
#[verifier::external_body]
pub(crate) fn arena_with_capacity<T>(n: usize) -> Arena<T> {
    Arena::with_capacity(n)
}

/// `Arena::alloc`: moves `value` into the arena and hands back a reference to
/// it that lives as long as the arena. The value behind the reference is the
/// one that was passed in.
#[verifier::external_body]
pub(crate) fn arena_alloc<'a, T>(arena: &'a Arena<T>, value: T) -> (slot: &'a T)
    ensures
        *slot == value,
{
    arena.alloc(value)
}

} // verus!
