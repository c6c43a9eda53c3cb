//! An owned, read-only array of fixed capacity `C` that exposes only its
//! first `len` elements.

use vstd::prelude::*;

use crate::StackError;

verus! {

/// A variable-sized immutable view over a full backing array: positions at
/// or past `len` are hidden.
pub struct VariableSizeImmutableArray<T, const C: usize> {
    pub(crate) data: [T; C],
    pub(crate) len: usize,
}

impl<T, const C: usize> View for VariableSizeImmutableArray<T, C> {
    type V = Seq<T>;

    closed spec fn view(&self) -> Seq<T> {
        self.data@.take(self.len as int)
    }
}

impl<T, const C: usize> VariableSizeImmutableArray<T, C> {
    /// The visible length never exceeds the capacity.
    pub closed spec fn wf(self) -> bool {
        self.len <= C
    }

    /// Wraps `data`, exposing only its first `len` elements; fails with
    /// `IndexOutOfBounds` when `len` exceeds the capacity.
    pub fn new(data: [T; C], len: usize) -> (r: Result<Self, StackError>)
        ensures
            match r {
                Ok(a) => len <= C && a.wf() && a@ == data@.take(len as int),
                Err(e) => e == StackError::IndexOutOfBounds && len > C,
            },
    {
        if len > C {
            return Err(StackError::IndexOutOfBounds);
        }
        Ok(Self { data, len })
    }

    /// Number of visible elements.
    pub fn len(&self) -> (r: usize)
        requires
            self.wf(),
        ensures
            r == self@.len(),
    {
        self.len
    }

    /// Borrows the element at `index`, or nothing when `index` lies beyond
    /// the visible prefix.
    pub fn get(&self, index: usize) -> (r: Option<&T>)
        requires
            self.wf(),
        ensures
            match r {
                Some(v) => index < self@.len() && *v == self@[index as int],
                None => index >= self@.len(),
            },
    {
        if index >= self.len {
            return None;
        }
        Some(&self.data[index])
    }
}

} // verus!
