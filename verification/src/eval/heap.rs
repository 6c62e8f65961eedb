//! The arena that owns every value an evaluation creates.
use crate::arena::{arena_alloc, arena_with_capacity};
use crate::eval::value::Value;
use num::Integer;
use typed_arena::Arena;
use vstd::prelude::*;

verus! {

/// `num::Integer::div_rem` for `usize`: the quotient and the remainder of
/// `a` by `b`, which is not zero.
#[verifier::external_body]
pub(crate) fn div_rem(a: usize, b: usize) -> (qr: (usize, usize))
    requires
        b != 0,
    ensures
        qr.0 == a / b,
        qr.1 == a % b,
{
    a.div_rem(&b)
}

/// The least number of items of `item_size` bytes that take `size_bytes`
/// bytes or more.
pub open spec fn items_for(size_bytes: int, item_size: int) -> int {
    if size_bytes % item_size == 0 {
        size_bytes / item_size
    } else {
        size_bytes / item_size + 1
    }
}

/// Computes `items_for`.
pub fn size_in_items(size_bytes: usize, item_size: usize) -> (items: usize)
    requires
        item_size > 0,
    ensures
        items == items_for(size_bytes as int, item_size as int),
        (items - 1) * item_size < size_bytes <= items * item_size,
{
    let (q, r) = div_rem(size_bytes, item_size);
    assert(size_bytes == q * item_size + r && (r != 0 ==> q < usize::MAX)) by (nonlinear_arith)
        requires
            q == size_bytes as int / item_size as int,
            r == size_bytes as int % item_size as int,
            item_size > 0,
            size_bytes <= usize::MAX,
    ;
    let items = q + match r == 0 {
        true => 0,
        false => 1,
    };
    assert((items - 1) * item_size < size_bytes <= items * item_size) by (nonlinear_arith)
        requires
            size_bytes == q * item_size + r,
            0 <= r < item_size,
            items == if r == 0 {
                q as int
            } else {
                q + 1
            },
    ;
    items
}

/// An arena of values. References into it stay valid for as long as the
/// heap lives; nothing is freed before.
pub struct Heap<'expr, 'value> {
    arena: Arena<Value<'expr, 'value>>,
    /// The number of values that room was asked for when the arena was made.
    room: Ghost<nat>,
}

impl<'expr, 'value> Heap<'expr, 'value> {
    /// The number of values that the heap was made to hold before it grows
    /// for the first time: what `with_capacity` asked of the arena.
    pub closed spec fn initial_room(&self) -> nat {
        self.room@
    }

    /// Create a heap with the given initial capacity in bytes. Grows if the capacity is exceeded.
    ///
    /// The capacity is rounded up to whole values: the arena is asked for
    /// room for the least number of values that take `size_bytes` bytes or
    /// more.
    pub fn with_capacity(size_bytes: usize) -> (heap: Self)
        ensures
            heap.initial_room() == if vstd::layout::size_of::<Value<'expr, 'value>>() == 0 {
                size_bytes as int
            } else {
                items_for(
                    size_bytes as int,
                    vstd::layout::size_of::<Value<'expr, 'value>>() as int,
                )
            },
    {
        let item_size = core::mem::size_of::<Value<'expr, 'value>>();
        // A value takes at least one byte; the layout is not known here.
        let size_items = if item_size == 0 {
            size_bytes
        } else {
            size_in_items(size_bytes, item_size)
        };
        Heap { arena: arena_with_capacity(size_items), room: Ghost(size_items as nat) }
    }

    /// Moves `val` onto the heap. The reference stays valid for as long as the
    /// heap does; the value behind it never changes.
    pub fn allocate<'heap>(&'heap self, val: Value<'expr, 'value>) -> (r: &'value Value<
        'expr,
        'value,
    >) where 'heap: 'value
        ensures
            *r == val,
    {
        arena_alloc(&self.arena, val)
    }
}

} // verus!
