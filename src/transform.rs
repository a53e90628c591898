//! Transformations of values and their repetition.

use vstd::prelude::*;

use std::marker::PhantomData;

verus! {

/// A transformation of values of type `T`.
pub trait Transform<T> {
    /// Transforms `value`.
    fn transform(&self, value: T) -> T;
}

impl<T1, T2, Tr1: Transform<T1>, Tr2: Transform<T2>> Transform<(T1, T2)> for (Tr1, Tr2) {
    /// Transforms each component with the transformation at the same place.
    fn transform(&self, value: (T1, T2)) -> (T1, T2) {
        let (v1, v2) = value;
        (self.0.transform(v1), self.1.transform(v2))
    }
}

/// The transformation that changes nothing.
#[derive(Debug, Clone, Copy)]
pub struct Identity;

impl<T> Transform<T> for Identity {
    fn transform(&self, value: T) -> (r: T)
        ensures
            r == value,
    {
        value
    }
}

/// Applies an inner transformation `n` times in a row.
#[derive(Debug)]
pub struct Repeat<T, Tr: Transform<T>> {
    inner: Tr,
    n: u32,
    _marker: PhantomData<T>,
}

impl<T, Tr: Transform<T>> Repeat<T, Tr> {
    pub closed spec fn inner(&self) -> Tr {
        self.inner
    }

    pub closed spec fn times(&self) -> u32 {
        self.n
    }

    /// Repeats `inner` `n` times.
    pub fn new(inner: Tr, n: u32) -> (r: Self)
        ensures
            r.inner() == inner,
            r.times() == n,
    {
        Repeat { inner, n, _marker: PhantomData }
    }
}

impl<T, Tr: Transform<T>> Transform<T> for Repeat<T, Tr> {
    fn transform(&self, value: T) -> T {
        let mut value = value;
        let mut i: u32 = 0;
        while i < self.n
            decreases self.n - i,
        {
            value = self.inner.transform(value);
            i += 1;
        }
        value
    }
}

} // verus!
