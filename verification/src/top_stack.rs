//! A stack that is never empty.

use vstd::prelude::*;

verus! {

/// A stack which is guaranteed always to have a top value.
pub struct TopStack<T> {
    pub top: T,
    pub lower: Vec<T>,
}

impl<T> View for TopStack<T> {
    type V = Seq<T>;

    /// The entries from the lowest to the top one.
    open spec fn view(&self) -> Seq<T> {
        self.lower@.push(self.top)
    }
}

impl<T> TopStack<T> {
    /// A stack that holds one value.
    pub fn new(top: T) -> (stack: TopStack<T>)
        ensures
            stack@ == seq![top],
            stack.top == top,
    {
        TopStack { top, lower: Vec::new() }
    }

    /// Puts a value on top of the stack.
    pub fn push(&mut self, t: T)
        ensures
            final(self)@ == old(self)@.push(t),
            final(self).top == t,
    {
        let mut below: T = t;
        core::mem::swap(&mut self.top, &mut below);
        self.lower.push(below);
    }

    /// Takes the top value off a stack that holds another one below it.
    pub fn pop(&mut self) -> (popped: T)
        requires
            old(self)@.len() > 1,
        ensures
            popped == old(self)@.last(),
            final(self)@ == old(self)@.drop_last(),
    {
        let mut popped: T = self.lower.pop().unwrap();
        core::mem::swap(&mut self.top, &mut popped);
        assert(self@ =~= old(self)@.drop_last());
        popped
    }

    /// The number of values on the stack.
    pub fn len(&self) -> (len: usize)
        requires
            self@.len() <= usize::MAX,
        ensures
            len == self@.len(),
            len > 0,
    {
        self.lower.len() + 1
    }

    /// The value at index `i`, counted from the bottom.
    pub fn get(&self, i: usize) -> (t: &T)
        requires
            i < self@.len(),
        ensures
            *t == self@[i as int],
    {
        let lower_len: usize = self.lower.len();
        if i < lower_len {
            &self.lower[i]
        } else {
            &self.top
        }
    }

    /// The value at index `i`, counted from the bottom, to be changed in place.
    pub fn get_mut(&mut self, i: usize) -> (t: &mut T)
        requires
            i < old(self)@.len(),
        ensures
            *t == old(self)@[i as int],
            final(self)@ == old(self)@.update(i as int, *final(t)),
    {
        let lower_len: usize = self.lower.len();
        if i < lower_len {
            &mut self.lower[i]
        } else {
            &mut self.top
        }
    }
}

/// To take off what was put on a stack gives it back, and leaves the stack as it was.
pub proof fn law_pop_undoes_push<T>(stack: Seq<T>, t: T)
    ensures
        stack.push(t).last() == t,
        stack.push(t).drop_last() == stack,
{
    assert(stack.push(t).drop_last() =~= stack);
}

/// There is always a value on a stack, the top one is the last, and those below it stand in their
/// order before it.
pub proof fn law_never_empty<T>(stack: TopStack<T>)
    ensures
        stack@.len() > 0,
        stack@.last() == stack.top,
        stack@.len() == stack.lower@.len() + 1,
        forall|i: int| 0 <= i < stack.lower@.len() ==> #[trigger] stack@[i] == stack.lower@[i],
{
}

} // verus!
