//! A worklist that holds each pending value once.

use std::fmt::Debug;
use vstd::prelude::*;
use vstd::std_specs::cmp::PartialEqSpec;

verus! {

/// Values waiting to be worked on.  Adding a value that is already waiting
/// changes nothing; the value added last is handed out first.
pub struct ChangeQueue<T: PartialEq + Debug> {
    pending: Vec<T>,
}

impl<T: PartialEq + Debug> View for ChangeQueue<T> {
    type V = Seq<T>;

    closed spec fn view(&self) -> Seq<T> {
        self.pending@
    }
}

/// Whether some entry of `pending` compares equal to `value`.
pub open spec fn is_pending<T: PartialEq>(pending: Seq<T>, value: T) -> bool {
    exists|i: int| 0 <= i < pending.len() && (#[trigger] pending[i]).eq_spec(&value)
}

/// Whether no two entries of `pending` compare equal.
pub open spec fn no_repeats<T: PartialEq>(pending: Seq<T>) -> bool {
    forall|i: int, j: int|
        #![trigger pending[i], pending[j]]
        0 <= i < j < pending.len() ==> !pending[i].eq_spec(&pending[j])
}

impl<T: PartialEq + Debug> ChangeQueue<T> {
    pub fn new() -> (q: ChangeQueue<T>)
        ensures
            q@ == Seq::<T>::empty(),
    {
        ChangeQueue { pending: Vec::new() }
    }

    /// Puts `value` on the worklist unless an equal value is already there.
    pub fn add(&mut self, value: T)
        ensures
            final(self)@ == old(self)@ || final(self)@ == old(self)@.push(value),
            T::obeys_eq_spec() ==> final(self)@ == if is_pending(old(self)@, value) {
                old(self)@
            } else {
                old(self)@.push(value)
            },
            T::obeys_eq_spec() && no_repeats(old(self)@) ==> no_repeats(final(self)@),
    {
        let mut i: usize = 0;
        while i < self.pending.len()
            invariant
                i <= self.pending.len(),
                self.pending@ == old(self).pending@,
                T::obeys_eq_spec() ==> forall|j: int|
                    0 <= j < i ==> !(#[trigger] self.pending@[j]).eq_spec(&value),
            decreases self.pending.len() - i,
        {
            if self.pending[i] == value {
                return ;
            }
            i += 1;
        }
        self.pending.push(value);
    }

    /// Takes the value added last off the worklist.
    pub fn next(&mut self) -> (r: Option<T>)
        ensures
            match r {
                Some(v) => old(self)@.len() > 0 && v == old(self)@.last() && final(self)@
                    == old(self)@.drop_last(),
                None => old(self)@.len() == 0 && final(self)@ == old(self)@,
            },
            no_repeats(old(self)@) ==> no_repeats(final(self)@),
    {
        self.pending.pop()
    }

    pub fn is_empty(&self) -> (r: bool)
        ensures
            r == (self@.len() == 0),
    {
        self.pending.len() == 0
    }
}

} // verus!
