//! A bounded stack of value references.
use crate::eval::heap::{items_for, size_in_items};
use crate::eval::machine::{snapshot, ValueRef};
use vstd::prelude::*;

verus! {

/// A stack that holds at most `capacity` references.
pub struct Stack<'expr, 'value> {
    capacity: usize,
    items: Vec<ValueRef<'expr, 'value>>,
}

/// Hands out the items of a stack from the one pushed last to the one
/// pushed first.
pub struct IterFromTop<'expr, 'value> {
    remaining: usize,
    items: Vec<ValueRef<'expr, 'value>>,
}

/// Hands out the items of a stack from the one pushed first to the one
/// pushed last.
pub struct IterFromBottom<'expr, 'value> {
    current: usize,
    items: Vec<ValueRef<'expr, 'value>>,
}

impl<'expr, 'value> IterFromTop<'expr, 'value> {
    /// What is still to come, first to last.
    pub closed spec fn view(&self) -> Seq<ValueRef<'expr, 'value>> {
        self.items@.take(self.remaining as int).reverse()
    }

    /// The count of what is to come does not exceed what there is.
    pub closed spec fn wf(&self) -> bool {
        self.remaining <= self.items@.len()
    }

    /// Hands out the next item, if one is left.
    pub fn next(&mut self) -> (item: Option<ValueRef<'expr, 'value>>)
        requires
            old(self).wf(),
        ensures
            final(self).wf(),
            old(self)@.len() == 0 ==> item is None && final(self)@ == old(self)@,
            old(self)@.len() > 0 ==> item == Some(old(self)@[0]) && final(self)@
                == old(self)@.drop_first(),
    {
        match self.remaining {
            0 => Option::None,
            _ => {
                self.remaining = self.remaining - 1;
                assert(self@ =~= old(self)@.drop_first());
                Option::Some(self.items[self.remaining])
            },
        }
    }
}

impl<'expr, 'value> IterFromBottom<'expr, 'value> {
    /// What is still to come, first to last.
    pub closed spec fn view(&self) -> Seq<ValueRef<'expr, 'value>> {
        self.items@.skip(self.current as int)
    }

    /// The position lies inside the items or at their end.
    pub closed spec fn wf(&self) -> bool {
        self.current <= self.items@.len()
    }

    /// Hands out the next item, if one is left.
    pub fn next(&mut self) -> (item: Option<ValueRef<'expr, 'value>>)
        requires
            old(self).wf(),
        ensures
            final(self).wf(),
            old(self)@.len() == 0 ==> item is None && final(self)@ == old(self)@,
            old(self)@.len() > 0 ==> item == Some(old(self)@[0]) && final(self)@
                == old(self)@.drop_first(),
    {
        if self.current == self.items.len() {
            Option::None
        } else {
            let item = self.items[self.current];
            self.current = self.current + 1;
            assert(self@ =~= old(self)@.drop_first());
            Option::Some(item)
        }
    }
}

impl<'expr, 'value> Stack<'expr, 'value> {
    /// The items, from the one pushed first to the one pushed last.
    pub closed spec fn view(&self) -> Seq<ValueRef<'expr, 'value>> {
        self.items@
    }

    /// The number of items that the stack can hold.
    pub closed spec fn capacity(&self) -> nat {
        self.capacity as nat
    }

    /// The stack holds no more than its capacity.
    pub open spec fn wf(&self) -> bool {
        self@.len() <= self.capacity()
    }

    /// Create a stack with the given capacity in bytes. Panics if the capacity is exceeded.
    pub fn with_capacity(size_bytes: usize) -> (stack: Self)
        ensures
            stack.wf(),
            stack@.len() == 0,
            vstd::layout::size_of::<ValueRef<'expr, 'value>>() > 0 ==> stack.capacity()
                == items_for(
                size_bytes as int,
                vstd::layout::size_of::<ValueRef<'expr, 'value>>() as int,
            ),
    {
        let item_size = core::mem::size_of::<ValueRef<'expr, 'value>>();
        // A reference takes at least one byte; the layout is not known here.
        let size_items = if item_size == 0 {
            size_bytes
        } else {
            size_in_items(size_bytes, item_size)
        };
        Stack { capacity: size_items, items: Vec::with_capacity(size_items) }
    }

    /// The number of items that the stack can hold.
    pub fn max_size(&self) -> (n: usize)
        ensures
            n == self.capacity(),
    {
        self.capacity
    }

    /// Puts `val` on top of a stack that is not full.
    pub fn push(&mut self, val: ValueRef<'expr, 'value>)
        requires
            old(self).wf(),
            old(self)@.len() < old(self).capacity(),
        ensures
            final(self).wf(),
            final(self).capacity() == old(self).capacity(),
            final(self)@ == old(self)@.push(val),
    {
        self.items.push(val);
    }

    /// Takes the top item off a stack that is not empty.
    pub fn pop(&mut self) -> (val: ValueRef<'expr, 'value>)
        requires
            old(self).wf(),
            old(self)@.len() > 0,
        ensures
            final(self).wf(),
            final(self).capacity() == old(self).capacity(),
            val == old(self)@.last(),
            final(self)@ == old(self)@.drop_last(),
    {
        self.items.pop().unwrap()
    }

    /// The top item of a stack that is not empty.
    pub fn peek(&self) -> (val: ValueRef<'expr, 'value>)
        requires
            self@.len() > 0,
        ensures
            val == self@.last(),
    {
        self.items[self.items.len() - 1]
    }

    /// The number of items on the stack.
    pub fn size(&self) -> (n: usize)
        ensures
            n == self@.len(),
    {
        self.items.len()
    }

    /// The item `ix` places below the top: `index(0)` is the item pushed
    /// last.
    pub fn index(&self, ix: usize) -> (val: ValueRef<'expr, 'value>)
        requires
            ix < self@.len(),
        ensures
            val == self@[self@.len() - ix - 1],
    {
        self.items[self.items.len() - ix - 1]
    }

    /// The items from the top down. The iterator keeps its own copy of the
    /// references.
    pub fn iter_from_top(&self) -> (iter: IterFromTop<'expr, 'value>)
        ensures
            iter.wf(),
            iter@ == self@.reverse(),
    {
        let items = snapshot(&self.items);
        assert(items@.take(items@.len() as int) =~= items@);
        IterFromTop { remaining: items.len(), items }
    }

    /// The items from the bottom up. The iterator keeps its own copy of the
    /// references.
    pub fn iter_from_bottom(&self) -> (iter: IterFromBottom<'expr, 'value>)
        ensures
            iter.wf(),
            iter@ == self@,
    {
        let items = snapshot(&self.items);
        assert(items@.skip(0) =~= items@);
        IterFromBottom { current: 0, items }
    }
}

} // verus!
