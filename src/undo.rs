//! A linear undo/redo history over whole values.

use vstd::prelude::*;
use vstd::std_specs::cmp::PartialEqSpec;

verus! {

/// Past values, the present one, and the values undone since the last edit.
#[derive(Debug)]
pub struct UndoStack<T> {
    past: Vec<T>,
    present: T,
    future: Vec<T>,
}

impl<T> View for UndoStack<T> {
    type V = (Seq<T>, T, Seq<T>);

    closed spec fn view(&self) -> (Seq<T>, T, Seq<T>) {
        (self.past@, self.present, self.future@)
    }
}

impl<T: PartialEq> UndoStack<T> {
    pub fn new(initial: T) -> (r: Self)
        ensures
            r@ == (Seq::<T>::empty(), initial, Seq::<T>::empty()),
    {
        UndoStack { past: Vec::new(), present: initial, future: Vec::new() }
    }

    pub fn present(&self) -> (r: &T)
        ensures
            *r == self@.1,
    {
        &self.present
    }

    /// Makes `next` the present value; the old one goes to the past and the
    /// undone values are dropped. A value equal to the present one is no edit.
    pub fn apply(&mut self, next: T)
        ensures
            final(self)@ == old(self)@ || final(self)@ == (
                old(self)@.0.push(old(self)@.1),
                next,
                Seq::<T>::empty(),
            ),
            T::obeys_eq_spec() && next.eq_spec(&old(self)@.1) ==> final(self)@ == old(self)@,
            T::obeys_eq_spec() && !next.eq_spec(&old(self)@.1) ==> final(self)@ == (
                old(self)@.0.push(old(self)@.1),
                next,
                Seq::<T>::empty(),
            ),
    {
        if next == self.present {
            return;
        }
        let mut prev = next;
        core::mem::swap(&mut self.present, &mut prev);
        self.past.push(prev);
        self.future.clear();
    }

    /// Steps back to the latest past value; false when there is none.
    pub fn undo(&mut self) -> (r: bool)
        ensures
            r == (old(self)@.0.len() > 0),
            r ==> final(self)@ == (
                old(self)@.0.drop_last(),
                old(self)@.0.last(),
                old(self)@.2.push(old(self)@.1),
            ),
            !r ==> final(self)@ == old(self)@,
    {
        match self.past.pop() {
            Some(prev) => {
                let mut cur = prev;
                core::mem::swap(&mut self.present, &mut cur);
                self.future.push(cur);
                true
            },
            None => false,
        }
    }

    /// Steps forward to the latest undone value; false when there is none.
    pub fn redo(&mut self) -> (r: bool)
        ensures
            r == (old(self)@.2.len() > 0),
            r ==> final(self)@ == (
                old(self)@.0.push(old(self)@.1),
                old(self)@.2.last(),
                old(self)@.2.drop_last(),
            ),
            !r ==> final(self)@ == old(self)@,
    {
        match self.future.pop() {
            Some(next) => {
                let mut cur = next;
                core::mem::swap(&mut self.present, &mut cur);
                self.past.push(cur);
                true
            },
            None => false,
        }
    }
}

} // verus!
