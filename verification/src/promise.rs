//! The state of a promise: a value that is given once, or never.
//!
//! The state is shared by the side that waits for the value and the side
//! that gives it; how they wait for and wake each other is not decided
//! here.

use vstd::prelude::*;

verus! {

/// The state of a promise.
#[derive(Debug)]
pub struct PromiseState<T> {
    /// Whether the promise was given up.
    pub rejected: bool,
    /// The value, once it is given and until it is taken.
    pub item: Option<T>,
}

/// What a waiting side finds when it looks at a promise.
#[derive(Debug)]
pub enum Polled<T> {
    /// The value.
    Ready(T),
    /// The promise was given up: no value will come.
    Rejected,
    /// The value has not come yet.
    Pending,
}

impl<T> Default for PromiseState<T> {
    /// A promise without a value that was not given up.
    fn default() -> (r: Self)
        ensures
            !r.rejected,
            r.item is None,
    {
        PromiseState { rejected: false, item: None }
    }
}

impl<T> PromiseState<T> {
    /// Whether the promise holds its value.
    pub fn filled(&self) -> (r: bool)
        ensures
            r == self.item is Some,
    {
        self.item.is_some()
    }

    /// Whether a waiting side has to wait no longer: the value is there, or
    /// the promise was given up.
    pub fn settled(&self) -> (r: bool)
        ensures
            r == (self.item is Some || self.rejected),
    {
        self.filled() || self.rejected
    }

    /// Gives the value of the promise. A value that was given before and
    /// not taken is replaced.
    pub fn resolve(&mut self, item: T)
        ensures
            final(self).item == Some(item),
            final(self).rejected == old(self).rejected,
    {
        self.item = Some(item);
    }

    /// Gives the promise up.
    pub fn reject(&mut self)
        ensures
            final(self).rejected,
            final(self).item == old(self).item,
    {
        self.rejected = true;
    }

    /// Takes the value out of the promise, if it is there.
    pub fn take(&mut self) -> (r: Option<T>)
        ensures
            r == old(self).item,
            final(self).item is None,
            final(self).rejected == old(self).rejected,
    {
        self.item.take()
    }

    /// What a waiting side finds: the value, which is taken out of the
    /// promise; else that the promise was given up; else that it has to
    /// wait.
    pub fn poll(&mut self) -> (r: Polled<T>)
        ensures
            final(self).rejected == old(self).rejected,
            final(self).item is None,
            match old(self).item {
                Some(item) => r == Polled::Ready(item),
                None => if old(self).rejected {
                    r == Polled::<T>::Rejected
                } else {
                    r == Polled::<T>::Pending
                },
            },
    {
        match self.item.take() {
            Some(item) => Polled::Ready(item),
            None => if self.rejected {
                Polled::Rejected
            } else {
                Polled::Pending
            },
        }
    }
}

} // verus!
