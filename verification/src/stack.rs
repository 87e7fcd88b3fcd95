use vstd::prelude::*;

use crate::literal::{literal_eq, seq_lit_view, Literal};

verus! {

/// A last-in-first-out stack, the interpreter's central data structure.
///
/// Its view is the sequence of elements from bottom to top.
#[derive(Debug)]
pub struct Stack<T> {
    stack: Vec<T>,
}

impl<T> View for Stack<T> {
    type V = Seq<T>;

    closed spec fn view(&self) -> Seq<T> {
        self.stack@
    }
}

impl<T> Stack<T> {
    /// The empty stack.
    pub fn new() -> (s: Self)
        ensures
            s@ == Seq::<T>::empty(),
    {
        Stack { stack: Vec::new() }
    }

    /// Puts `value` on top of the stack.
    pub fn push(&mut self, value: T)
        ensures
            final(self)@ == old(self)@.push(value),
    {
        self.stack.push(value);
    }

    /// Removes and returns the top element, or `None` on an empty stack.
    pub fn pop(&mut self) -> (r: Option<T>)
        ensures
            old(self)@.len() == 0 ==> r is None && final(self)@ == old(self)@,
            old(self)@.len() > 0 ==> r == Some(old(self)@.last()) && final(self)@ == old(
                self,
            )@.drop_last(),
    {
        self.stack.pop()
    }

    /// Returns the top element without removing it.
    pub fn last(&self) -> (r: Option<&T>)
        ensures
            self@.len() == 0 ==> r is None,
            self@.len() > 0 ==> (r matches Some(v) && *v == self@.last()),
    {
        self.stack.last()
    }

    /// The number of elements currently on the stack.
    pub fn length(&self) -> (n: usize)
        ensures
            n == self@.len(),
    {
        self.stack.len()
    }

    /// The element at position `a`, counted from the bottom.
    pub(crate) fn get(&self, a: usize) -> (r: &T)
        requires
            a < self@.len(),
        ensures
            *r == self@[a as int],
    {
        &self.stack[a]
    }

    /// Removes and returns the element at position `a`, shifting the
    /// elements above it down.
    pub(crate) fn remove(&mut self, a: usize) -> (r: T)
        requires
            a < old(self)@.len(),
        ensures
            r == old(self)@[a as int],
            final(self)@ == old(self)@.remove(a as int),
    {
        self.stack.remove(a)
    }

    /// Whether the stack holds no elements.
    pub(crate) fn is_empty(&self) -> (r: bool)
        ensures
            r == (self@.len() == 0),
    {
        self.stack.len() == 0
    }

}

/// Element-by-element equality of literal stacks; coincides with
/// equality of the mathematical views.
fn stack_lits_eq(a: &Stack<Literal>, b: &Stack<Literal>) -> (r: bool)
    ensures
        r == (seq_lit_view(a@) == seq_lit_view(b@)),
{
    let n = a.length();
    if n != b.length() {
        proof {
            assert(seq_lit_view(a@).len() == a@.len());
            assert(seq_lit_view(b@).len() == b@.len());
        }
        return false;
    }
    let mut i: usize = 0;
    while i < n
        invariant
            i <= n,
            n == a@.len(),
            n == b@.len(),
            forall|j: int| 0 <= j < i ==> seq_lit_view(a@)[j] == seq_lit_view(b@)[j],
        decreases n - i,
    {
        proof {
            assert(seq_lit_view(a@)[i as int] == a@[i as int]@);
            assert(seq_lit_view(b@)[i as int] == b@[i as int]@);
        }
        if !literal_eq(a.get(i), b.get(i)) {
            return false;
        }
        i += 1;
    }
    proof {
        assert(seq_lit_view(a@) =~= seq_lit_view(b@));
    }
    true
}

impl PartialEq for Stack<Literal> {
    fn eq(&self, other: &Self) -> bool {
        stack_lits_eq(self, other)
    }
}

impl vstd::std_specs::cmp::PartialEqSpecImpl for Stack<Literal> {
    open spec fn obeys_eq_spec() -> bool {
        true
    }

    open spec fn eq_spec(&self, other: &Self) -> bool {
        seq_lit_view(self@) == seq_lit_view(other@)
    }
}

impl<T> From<Vec<T>> for Stack<T> {
    /// Builds a stack whose bottom-to-top order is the order of `value`.
    fn from(value: Vec<T>) -> (s: Self) {
        Stack { stack: value }
    }
}

impl<T> vstd::std_specs::convert::FromSpecImpl<Vec<T>> for Stack<T> {
    open spec fn obeys_from_spec() -> bool {
        true
    }

    closed spec fn from_spec(value: Vec<T>) -> Self {
        Stack { stack: value }
    }
}

} // verus!
