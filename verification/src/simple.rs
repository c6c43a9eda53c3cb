//! A fixed-capacity, variable-length array: the output-buffer collaborator
//! that windowed traversals fill one chunk at a time.

use vstd::prelude::*;

use crate::StackError;

verus! {

/// An owned, variable-length array with fixed capacity `C`.  The first
/// `len()` positions hold elements; the remaining capacity stays hidden.
pub struct StackSimple<T, const C: usize> {
    pub(crate) data: Vec<T>,
}

impl<T, const C: usize> View for StackSimple<T, C> {
    type V = Seq<T>;

    closed spec fn view(&self) -> Seq<T> {
        self.data@
    }
}

impl<T, const C: usize> StackSimple<T, C> {
    /// The stored prefix never exceeds the capacity.
    pub closed spec fn wf(self) -> bool {
        self.data@.len() <= C
    }

    /// Builds an empty container.
    pub fn new() -> (r: Self)
        ensures
            r.wf(),
            r@ == Seq::<T>::empty(),
    {
        Self { data: Vec::new() }
    }

    /// Builds a full container from an array of exactly `C` elements.
    pub fn from_array(a: [T; C]) -> (r: Self) where T: Copy
        ensures
            r.wf(),
            r@ == a@,
    {
        Self { data: vstd::slice::slice_to_vec(vstd::array::array_as_slice(&a)) }
    }

    /// Number of elements currently stored.
    pub fn len(&self) -> (r: usize)
        requires
            self.wf(),
        ensures
            r == self@.len(),
    {
        self.data.len()
    }

    /// Appends `value`; fails with `CapacityExceeded` when the container
    /// already holds `C` elements, leaving it untouched.
    pub fn push(&mut self, value: T) -> (r: Result<(), StackError>)
        requires
            old(self).wf(),
        ensures
            final(self).wf(),
            match r {
                Ok(()) => old(self)@.len() < C && final(self)@ == old(self)@.push(value),
                Err(e) => e == StackError::CapacityExceeded && old(self)@.len() == C && *final(self)
                    == *old(self),
            },
    {
        if self.data.len() == C {
            return Err(StackError::CapacityExceeded);
        }
        self.data.push(value);
        Ok(())
    }

    /// Removes and returns the last element, if any.
    pub fn pop(&mut self) -> (r: Option<T>)
        requires
            old(self).wf(),
        ensures
            final(self).wf(),
            match r {
                Some(v) => old(self)@.len() > 0 && v == old(self)@.last() && final(self)@ == old(
                    self,
                )@.drop_last(),
                None => old(self)@.len() == 0 && *final(self) == *old(self),
            },
    {
        if self.data.len() == 0 {
            return None;
        }
        let r = self.data.pop();
        proof {
            assert(final(self)@ =~= old(self)@.drop_last());
        }
        r
    }

    /// Borrows the element at `index`, or nothing when `index` lies beyond
    /// the stored prefix.
    pub fn get(&self, index: usize) -> (r: Option<&T>)
        requires
            self.wf(),
        ensures
            match r {
                Some(v) => index < self@.len() && *v == self@[index as int],
                None => index >= self@.len(),
            },
    {
        if index >= self.data.len() {
            return None;
        }
        Some(&self.data[index])
    }

    /// Borrows the element at `index` mutably, or nothing when `index` lies
    /// beyond the stored prefix; writing through the reference replaces
    /// exactly that element.
    pub fn get_mut(&mut self, index: usize) -> (r: Option<&mut T>)
        requires
            old(self).wf(),
        ensures
            match r {
                Some(m) => index < old(self)@.len() && *m == old(self)@[index as int]
                    && final(self).wf() && final(self)@ == old(self)@.update(
                    index as int,
                    *final(m),
                ),
                None => index >= old(self)@.len() && *final(self) == *old(self),
            },
    {
        if index >= self.data.len() {
            return None;
        }
        Some(&mut self.data[index])
    }

    /// Borrows the stored prefix as a slice.
    pub fn as_slice(&self) -> (r: &[T])
        requires
            self.wf(),
        ensures
            r@ == self@,
    {
        self.data.as_slice()
    }

    /// Iterates the stored prefix backwards in windows of `chunk_size`
    /// elements (each window itself in forward order); the first window may
    /// be smaller when the length is no multiple of `chunk_size`.
    pub fn rchunks(&self, chunk_size: usize) -> (r: StackSimpleRChunks<'_, T, C>)
        requires
            self.wf(),
            chunk_size >= 1,
        ensures
            r.wf(),
            r.remaining() == self@,
            r.chunk_width() == chunk_size,
    {
        StackSimpleRChunks::new(self, chunk_size)
    }

    /// Builds a container from the elements of `items`, in order, stopping
    /// early once the capacity `C` is reached.
    pub fn from_iter<const M: usize>(items: [T; M]) -> (r: Self) where T: Copy
        ensures
            r.wf(),
            r@ == items@.take(if M <= C { M as int } else { C as int }),
    {
        let take_count = if M <= C {
            M
        } else {
            C
        };
        let mut simple = Self::new();
        for i in 0..take_count
            invariant
                take_count <= M,
                take_count <= C,
                simple.wf(),
                simple@ == items@.take(i as int),
        {
            let pr = simple.push(items[i]);
            proof {
                assert(pr is Ok);
                assert(simple@ =~= items@.take(i + 1));
            }
        }
        simple
    }

    /// A borrowed iterator over the stored prefix.
    pub fn iter<'a>(&'a self) -> (r: StackSimpleIteratorRef<'a, T, C>)
        requires
            self.wf(),
        ensures
            r.wf(),
            r.remaining() == self@,
    {
        let r = StackSimpleIteratorRef { s: self, front: 0, end: self.data.len() };
        proof {
            assert(r.remaining() =~= self@);
        }
        r
    }

    /// A lending mutable iterator over the stored prefix.
    pub fn iter_mut<'a>(&'a mut self) -> (r: StackSimpleIteratorRefMut<'a, T, C>)
        requires
            old(self).wf(),
        ensures
            r.wf(),
            r.remaining() == old(self)@,
            r.underlying() == old(self)@,
            r.front_count() == 0,
    {
        StackSimpleIteratorRefMut { s: self, front: 0 }
    }

    /// Consumes the container into an iterator over its elements.
    pub fn into_iter(self) -> (r: StackSimpleIterator<T, C>)
        requires
            self.wf(),
        ensures
            r.wf(),
            r.remaining() == self@,
    {
        StackSimpleIterator { s: self }
    }
}

/// A double-ended owning iterator over a [`StackSimple`]: each step moves
/// one element out of the container.
pub struct StackSimpleIterator<T, const C: usize> {
    pub(crate) s: StackSimple<T, C>,
}

impl<T, const C: usize> StackSimpleIterator<T, C> {
    /// The iterator is intact as long as its container is.
    pub closed spec fn wf(self) -> bool {
        self.s.wf()
    }

    /// The elements not yet handed out, in forward order.
    pub closed spec fn remaining(self) -> Seq<T> {
        self.s@
    }

    /// How many elements are left.
    pub fn len(&self) -> (r: usize)
        requires
            self.wf(),
        ensures
            r == self.remaining().len(),
    {
        self.s.len()
    }

    /// Yields the front element, or nothing once exhausted (and then keeps
    /// yielding nothing).
    pub fn next(&mut self) -> (r: Option<T>)
        requires
            old(self).wf(),
        ensures
            final(self).wf(),
            match r {
                Some(v) => old(self).remaining().len() > 0 && v == old(self).remaining()[0]
                    && final(self).remaining() == old(self).remaining().drop_first(),
                None => old(self).remaining().len() == 0 && *final(self) == *old(self),
            },
    {
        if self.s.data.len() == 0 {
            return None;
        }
        let v = self.s.data.remove(0);
        proof {
            assert(final(self).remaining() =~= old(self).remaining().drop_first());
        }
        Some(v)
    }

    /// Yields the back element, or nothing once exhausted (and then keeps
    /// yielding nothing).
    pub fn next_back(&mut self) -> (r: Option<T>)
        requires
            old(self).wf(),
        ensures
            final(self).wf(),
            match r {
                Some(v) => old(self).remaining().len() > 0 && v == old(self).remaining().last()
                    && final(self).remaining() == old(self).remaining().drop_last(),
                None => old(self).remaining().len() == 0 && *final(self) == *old(self),
            },
    {
        self.s.pop()
    }
}

/// A borrowed double-ended iterator over a [`StackSimple`].
pub struct StackSimpleIteratorRef<'a, T, const C: usize> {
    pub(crate) s: &'a StackSimple<T, C>,
    pub(crate) front: usize,
    pub(crate) end: usize,
}

impl<'a, T, const C: usize> StackSimpleIteratorRef<'a, T, C> {
    /// The cursors bracket an untraversed middle part of the prefix.
    pub closed spec fn wf(self) -> bool {
        &&& self.s.wf()
        &&& self.front <= self.end
        &&& self.end <= self.s@.len()
    }

    /// The elements not yet yielded, in order.
    pub closed spec fn remaining(self) -> Seq<T> {
        self.s@.subrange(self.front as int, self.end as int)
    }

    /// How many elements are left.
    pub fn len(&self) -> (r: usize)
        requires
            self.wf(),
        ensures
            r == self.remaining().len(),
    {
        self.end - self.front
    }

    /// Yields the front remaining element, or nothing once exhausted.
    pub fn next(&mut self) -> (r: Option<&'a T>)
        requires
            old(self).wf(),
        ensures
            final(self).wf(),
            match r {
                Some(v) => old(self).remaining().len() > 0 && *v == old(self).remaining()[0]
                    && final(self).remaining() == old(self).remaining().drop_first(),
                None => old(self).remaining().len() == 0 && *final(self) == *old(self),
            },
    {
        if self.front >= self.end {
            return None;
        }
        let v = &self.s.data[self.front];
        self.front = self.front + 1;
        proof {
            assert(self.remaining() =~= old(self).remaining().drop_first());
        }
        Some(v)
    }

    /// Yields the back remaining element, or nothing once exhausted.
    pub fn next_back(&mut self) -> (r: Option<&'a T>)
        requires
            old(self).wf(),
        ensures
            final(self).wf(),
            match r {
                Some(v) => old(self).remaining().len() > 0 && *v == old(self).remaining().last()
                    && final(self).remaining() == old(self).remaining().drop_last(),
                None => old(self).remaining().len() == 0 && *final(self) == *old(self),
            },
    {
        if self.front >= self.end {
            return None;
        }
        self.end = self.end - 1;
        let v = &self.s.data[self.end];
        proof {
            assert(self.remaining() =~= old(self).remaining().drop_last());
        }
        Some(v)
    }
}

/// A lending mutable iterator over a [`StackSimple`]: each step borrows one
/// element mutably, so no two handed-out references can ever alias.
pub struct StackSimpleIteratorRefMut<'a, T, const C: usize> {
    pub(crate) s: &'a mut StackSimple<T, C>,
    pub(crate) front: usize,
}

impl<'a, T, const C: usize> StackSimpleIteratorRefMut<'a, T, C> {
    /// The cursor stays within the stored prefix.
    pub closed spec fn wf(self) -> bool {
        &&& (*self.s).wf()
        &&& self.front <= (*self.s)@.len()
    }

    /// The elements not yet yielded, in order.
    pub closed spec fn remaining(self) -> Seq<T> {
        (*self.s)@.subrange(self.front as int, (*self.s)@.len() as int)
    }

    /// The whole prefix being traversed, already-served elements included.
    pub closed spec fn underlying(self) -> Seq<T> {
        (*self.s)@
    }

    /// The position the next step will borrow.
    pub closed spec fn front_count(self) -> int {
        self.front as int
    }

    /// How many elements are left.
    pub fn len(&self) -> (r: usize)
        requires
            self.wf(),
        ensures
            r == self.remaining().len(),
    {
        self.s.data.len() - self.front
    }

    /// Borrows the front remaining element mutably, or yields nothing once
    /// exhausted.  Writing through the reference replaces exactly that
    /// element.
    pub fn next_mut(&mut self) -> (r: Option<&mut T>)
        requires
            old(self).wf(),
        ensures
            final(self).wf(),
            match r {
                Some(m) => {
                    &&& old(self).remaining().len() > 0
                    &&& *m == old(self).remaining()[0]
                    &&& final(self).remaining() == old(self).remaining().drop_first()
                    &&& final(self).underlying() == old(self).underlying().update(
                        old(self).front_count(),
                        *final(m),
                    )
                    &&& final(self).front_count() == old(self).front_count() + 1
                },
                None => old(self).remaining().len() == 0 && *final(self) == *old(self),
            },
    {
        if self.front >= self.s.data.len() {
            return None;
        }
        let i = self.front;
        self.front = self.front + 1;
        proof {
            assert(old(self).remaining()[0] == (*old(self).s)@[i as int]);
        }
        let m = &mut self.s.data[i];
        Some(m)
    }
}

/// A backward window iterator over a borrowed [`StackSimple`]: each step
/// yields the next `chunk_width` elements from the back, as a slice in
/// forward order; the final (frontmost) window may be shorter.
pub struct StackSimpleRChunks<'a, T, const C: usize> {
    pub(crate) s: &'a StackSimple<T, C>,
    pub(crate) chunk_size: usize,
    pub(crate) number_of_items_served: usize,
}

impl<'a, T, const C: usize> StackSimpleRChunks<'a, T, C> {
    /// The window width is positive and the served count never exceeds the
    /// container's length.
    pub closed spec fn wf(self) -> bool {
        &&& self.s.wf()
        &&& self.chunk_size >= 1
        &&& self.number_of_items_served <= self.s@.len()
    }

    /// The elements not yet handed out: the front part of the container.
    pub closed spec fn remaining(self) -> Seq<T> {
        self.s@.take(self.s@.len() - self.number_of_items_served)
    }

    /// The width the iterator was built with.
    pub closed spec fn chunk_width(self) -> int {
        self.chunk_size as int
    }

    /// Builds the iterator positioned at the back of `s`.
    pub fn new(s: &'a StackSimple<T, C>, chunk_size: usize) -> (r: Self)
        requires
            s.wf(),
            chunk_size >= 1,
        ensures
            r.wf(),
            r.remaining() == s@,
            r.chunk_width() == chunk_size,
    {
        proof {
            assert(s@.take(s@.len() as int) =~= s@);
        }
        Self { s, chunk_size, number_of_items_served: 0 }
    }

    /// How many windows are left: the remaining length divided by the width,
    /// rounded up.
    pub fn len(&self) -> (r: usize)
        requires
            self.wf(),
        ensures
            r == (self.remaining().len() as int) / self.chunk_width() + (
            if (self.remaining().len() as int) % self.chunk_width() == 0 {
                0int
            } else {
                1int
            }),
    {
        let number_of_items_left = self.s.data.len() - self.number_of_items_served;
        let mut number_of_chunks_left = number_of_items_left / self.chunk_size;
        if number_of_items_left % self.chunk_size != 0 {
            proof {
                let n = number_of_items_left as int;
                let c = self.chunk_size as int;
                assert(c >= 2) by (nonlinear_arith)
                    requires
                        c >= 1,
                        n >= 0,
                        n % c != 0,
                ;
                assert(n / c <= n / 2) by (nonlinear_arith)
                    requires
                        n >= 0,
                        c >= 2,
                ;
            }
            number_of_chunks_left = number_of_chunks_left + 1;
        }
        number_of_chunks_left
    }

    /// Yields the backmost window of the remaining elements, or nothing once
    /// exhausted (and then keeps yielding nothing).
    pub fn next(&mut self) -> (r: Option<&'a [T]>)
        requires
            old(self).wf(),
        ensures
            final(self).wf(),
            final(self).chunk_width() == old(self).chunk_width(),
            match r {
                Some(chunk) => {
                    let rem = old(self).remaining();
                    let start = if rem.len() >= old(self).chunk_width() {
                        rem.len() - old(self).chunk_width()
                    } else {
                        0
                    };
                    &&& rem.len() > 0
                    &&& chunk@ == rem.subrange(start, rem.len() as int)
                    &&& final(self).remaining() == rem.take(start)
                },
                None => old(self).remaining().len() == 0 && *final(self) == *old(self),
            },
    {
        let end = self.s.data.len() - self.number_of_items_served;
        if end == 0 {
            return None;
        }
        let start = if end >= self.chunk_size {
            end - self.chunk_size
        } else {
            0
        };
        self.number_of_items_served = self.number_of_items_served + (end - start);
        let chunk = vstd::slice::slice_subrange(self.s.data.as_slice(), start, end);
        proof {
            assert(chunk@ =~= old(self).remaining().subrange(
                start as int,
                old(self).remaining().len() as int,
            ));
            assert(final(self).remaining() =~= old(self).remaining().take(start as int));
        }
        Some(chunk)
    }
}

} // verus!
