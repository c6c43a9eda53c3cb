//! Traversal over the arena-backed sequence: borrowed double-ended
//! iteration, owning (draining) iteration, and backward chunk windows.

use vstd::prelude::*;

use crate::StackStructure;
use crate::simple::StackSimple;

verus! {

/// A borrowed double-ended iterator over a [`StackStructure`]: walks the
/// live chain from both ends, never touching links or elements.
pub struct StackStructureIteratorRef<'a, T, const N: usize> {
    pub(crate) ms: &'a StackStructure<T, N>,
    /// Slots of the next element at each end; absent once exhausted.
    pub(crate) current_nodes: Option<(usize, usize)>,
    pub(crate) number_of_items_served: usize,
    /// How many of the served items were taken from the front.
    pub(crate) front_served: Ghost<int>,
}

impl<'a, T, const N: usize> StackStructureIteratorRef<'a, T, N> {
    /// The cursors sit at the ends of the untraversed middle part of the
    /// live chain.
    pub closed spec fn wf(self) -> bool {
        let n = self.ms@.len();
        let front = self.front_served@;
        let back = self.number_of_items_served - front;
        &&& self.ms.wf()
        &&& 0 <= front
        &&& front <= self.number_of_items_served
        &&& self.number_of_items_served <= n
        &&& (self.current_nodes is Some <==> self.number_of_items_served < n)
        &&& (self.current_nodes is Some ==> self.current_nodes.unwrap().0
            == self.ms.live_order@[front] && self.current_nodes.unwrap().1
            == self.ms.live_order@[n - 1 - back])
    }

    /// The elements not yet yielded, in logical order.
    pub closed spec fn remaining(self) -> Seq<T> {
        let n = self.ms@.len();
        let front = self.front_served@;
        let back = self.number_of_items_served - front;
        self.ms@.subrange(front, n - back)
    }

    /// The sequence being traversed.
    pub closed spec fn underlying(self) -> Seq<T> {
        self.ms@
    }

    /// How many elements are left; exact, and zero exactly when the iterator
    /// is exhausted.
    pub fn len(&self) -> (r: usize)
        requires
            self.wf(),
        ensures
            r == self.remaining().len(),
    {
        self.ms.len() - self.number_of_items_served
    }

    /// Yields the front element of what remains, or nothing once exhausted
    /// (and then keeps yielding nothing).
    pub fn next(&mut self) -> (r: Option<&'a T>)
        requires
            old(self).wf(),
        ensures
            final(self).wf(),
            final(self).underlying() == old(self).underlying(),
            match r {
                Some(v) => old(self).remaining().len() > 0 && *v == old(self).remaining()[0]
                    && final(self).remaining() == old(self).remaining().drop_first(),
                None => old(self).remaining().len() == 0 && *final(self) == *old(self),
            },
    {
        match self.current_nodes {
            None => None,
            Some((fwd, bwd)) => {
                let ghost front = self.front_served@;
                let ghost back = self.number_of_items_served - front;
                let ghost n = self.ms@.len();
                let item = self.ms.element_at(fwd, Ghost(front));
                proof {
                    self.ms.lemma_live_distinct();
                }
                if fwd == bwd {
                    self.current_nodes = None;
                } else {
                    let nx = self.ms.next_slot(fwd, Ghost(front));
                    let nx_slot = match nx {
                        Some(x) => x,
                        None => {
                            proof {
                                assert(false);
                            }
                            0
                        },
                    };
                    self.current_nodes = Some((nx_slot, bwd));
                }
                self.number_of_items_served = self.number_of_items_served + 1;
                self.front_served = Ghost(front + 1);
                proof {
                    assert(self.remaining() =~= old(self).remaining().drop_first());
                }
                Some(item)
            },
        }
    }

    /// Yields the back element of what remains, or nothing once exhausted
    /// (and then keeps yielding nothing).
    pub fn next_back(&mut self) -> (r: Option<&'a T>)
        requires
            old(self).wf(),
        ensures
            final(self).wf(),
            final(self).underlying() == old(self).underlying(),
            match r {
                Some(v) => old(self).remaining().len() > 0 && *v == old(self).remaining().last()
                    && final(self).remaining() == old(self).remaining().drop_last(),
                None => old(self).remaining().len() == 0 && *final(self) == *old(self),
            },
    {
        match self.current_nodes {
            None => None,
            Some((fwd, bwd)) => {
                let ghost front = self.front_served@;
                let ghost back = self.number_of_items_served - front;
                let ghost n = self.ms@.len();
                let item = self.ms.element_at(bwd, Ghost(n - 1 - back));
                proof {
                    self.ms.lemma_live_distinct();
                }
                if fwd == bwd {
                    self.current_nodes = None;
                } else {
                    let pv = self.ms.prev_slot(bwd, Ghost(n - 1 - back));
                    let pv_slot = match pv {
                        Some(x) => x,
                        None => {
                            proof {
                                assert(false);
                            }
                            0
                        },
                    };
                    self.current_nodes = Some((fwd, pv_slot));
                }
                self.number_of_items_served = self.number_of_items_served + 1;
                proof {
                    assert(self.remaining() =~= old(self).remaining().drop_last());
                }
                Some(item)
            },
        }
    }
}

/// A lending mutable iterator over a [`StackStructure`]: each step borrows
/// the next element mutably, one at a time, so no two handed-out references
/// can ever alias.  Links are never touched, so the traversal order is the
/// logical order at the time the iterator was built.
pub struct StackStructureIteratorRefMut<'a, T, const N: usize> {
    pub(crate) ms: &'a mut StackStructure<T, N>,
    /// Slots of the next element at each end; absent once exhausted.
    pub(crate) current_nodes: Option<(usize, usize)>,
    pub(crate) number_of_items_served: usize,
    /// How many of the served items were taken from the front.
    pub(crate) front_served: Ghost<int>,
}

impl<'a, T, const N: usize> StackStructureIteratorRefMut<'a, T, N> {
    /// The cursors sit at the ends of the untraversed middle part of the
    /// live chain.
    pub closed spec fn wf(self) -> bool {
        let n = (*self.ms)@.len();
        let front = self.front_served@;
        let back = self.number_of_items_served - front;
        &&& (*self.ms).wf()
        &&& 0 <= front
        &&& front <= self.number_of_items_served
        &&& self.number_of_items_served <= n
        &&& (self.current_nodes is Some <==> self.number_of_items_served < n)
        &&& (self.current_nodes is Some ==> self.current_nodes.unwrap().0
            == (*self.ms).live_order@[front] && self.current_nodes.unwrap().1
            == (*self.ms).live_order@[n - 1 - back])
    }

    /// The elements not yet yielded, in logical order.
    pub closed spec fn remaining(self) -> Seq<T> {
        let n = (*self.ms)@.len();
        let front = self.front_served@;
        let back = self.number_of_items_served - front;
        (*self.ms)@.subrange(front, n - back)
    }

    /// The whole sequence being traversed, already-served elements included.
    pub closed spec fn underlying(self) -> Seq<T> {
        (*self.ms)@
    }

    /// How many elements were already served from the front: the position in
    /// the underlying sequence that the next `next_mut` will borrow.
    pub closed spec fn front_count(self) -> int {
        self.front_served@
    }

    /// How many elements were already served from the back.
    pub closed spec fn back_count(self) -> int {
        self.number_of_items_served - self.front_served@
    }


    /// How many elements are left; exact, and zero exactly when the iterator
    /// is exhausted.
    pub fn len(&self) -> (r: usize)
        requires
            self.wf(),
        ensures
            r == self.remaining().len(),
    {
        self.ms.len() - self.number_of_items_served
    }

    /// Borrows the front element of what remains mutably, or yields nothing
    /// once exhausted (and then keeps yielding nothing).  Writing through
    /// the reference replaces exactly the element at the front position of
    /// the underlying sequence; each element is borrowed at most once, so no
    /// two handed-out references alias.
    pub fn next_mut(&mut self) -> (r: Option<&mut T>)
        requires
            old(self).wf(),
        ensures
            final(self).wf(),
            match r {
                Some(m) => {
                    &&& old(self).remaining().len() > 0
                    &&& *m == old(self).remaining()[0]
                    &&& final(self).remaining() == old(self).remaining().drop_first()
                    &&& final(self).underlying() == old(self).underlying().update(
                        old(self).front_count(),
                        *final(m),
                    )
                    &&& final(self).front_count() == old(self).front_count() + 1
                },
                None => old(self).remaining().len() == 0 && *final(self) == *old(self)
                    && final(self).underlying() == old(self).underlying(),
            },
    {
        match self.current_nodes {
            None => None,
            Some((fwd, bwd)) => {
                let ghost front = self.front_served@;
                let ghost back = self.number_of_items_served - front;
                let ghost n = (*self.ms)@.len();
                proof {
                    self.ms.lemma_live_distinct();
                }
                if fwd == bwd {
                    self.current_nodes = None;
                } else {
                    let nx = self.ms.next_slot(fwd, Ghost(front));
                    let nx_slot = match nx {
                        Some(x) => x,
                        None => {
                            proof {
                                assert(false);
                            }
                            0
                        },
                    };
                    self.current_nodes = Some((nx_slot, bwd));
                }
                self.number_of_items_served = self.number_of_items_served + 1;
                self.front_served = Ghost(front + 1);
                let item = self.ms.element_mut_at(fwd, Ghost(front));
                Some(item)
            },
        }
    }

    /// Borrows the back element of what remains mutably, or yields nothing
    /// once exhausted (and then keeps yielding nothing).  Writing through
    /// the reference replaces exactly the element at the back position of
    /// the underlying sequence.
    pub fn next_back_mut(&mut self) -> (r: Option<&mut T>)
        requires
            old(self).wf(),
        ensures
            final(self).wf(),
            match r {
                Some(m) => {
                    &&& old(self).remaining().len() > 0
                    &&& *m == old(self).remaining().last()
                    &&& final(self).remaining() == old(self).remaining().drop_last()
                    &&& final(self).underlying() == old(self).underlying().update(
                        old(self).underlying().len() - 1 - old(self).back_count(),
                        *final(m),
                    )
                    &&& final(self).back_count() == old(self).back_count() + 1
                    &&& final(self).front_count() == old(self).front_count()
                },
                None => old(self).remaining().len() == 0 && *final(self) == *old(self),
            },
    {
        match self.current_nodes {
            None => None,
            Some((fwd, bwd)) => {
                let ghost front = self.front_served@;
                let ghost back = self.number_of_items_served - front;
                let ghost n = (*self.ms)@.len();
                proof {
                    self.ms.lemma_live_distinct();
                }
                if fwd == bwd {
                    self.current_nodes = None;
                } else {
                    let pv = self.ms.prev_slot(bwd, Ghost(n - 1 - back));
                    let pv_slot = match pv {
                        Some(x) => x,
                        None => {
                            proof {
                                assert(false);
                            }
                            0
                        },
                    };
                    self.current_nodes = Some((fwd, pv_slot));
                }
                self.number_of_items_served = self.number_of_items_served + 1;
                let item = self.ms.element_mut_at(bwd, Ghost(n - 1 - back));
                Some(item)
            },
        }
    }
}

/// An owning double-ended iterator over a [`StackStructure`]: each step
/// deletes an end of the sequence and hands the element out.
pub struct StackStructureIterator<T, const N: usize> {
    pub(crate) ms: StackStructure<T, N>,
}

impl<T, const N: usize> StackStructureIterator<T, N> {
    /// The drained structure stays well-formed.
    pub closed spec fn wf(self) -> bool {
        self.ms.wf()
    }

    /// The elements not yet yielded, in logical order.
    pub closed spec fn remaining(self) -> Seq<T> {
        self.ms@
    }

    /// How many elements are left; exact, and zero exactly when the iterator
    /// is exhausted.
    pub fn len(&self) -> (r: usize)
        requires
            self.wf(),
        ensures
            r == self.remaining().len(),
    {
        self.ms.len()
    }

    /// Yields (and deletes) the front element, or nothing once exhausted
    /// (and then keeps yielding nothing).
    pub fn next(&mut self) -> (r: Option<T>)
        requires
            old(self).wf(),
        ensures
            final(self).wf(),
            match r {
                Some(v) => old(self).remaining().len() > 0 && v == old(self).remaining()[0]
                    && final(self).remaining() == old(self).remaining().drop_first(),
                None => old(self).remaining().len() == 0 && *final(self) == *old(self),
            },
    {
        if self.ms.len() == 0 {
            return None;
        }
        match self.ms.delete(0) {
            Ok(v) => {
                proof {
                    assert(final(self).remaining() =~= old(self).remaining().drop_first());
                }
                Some(v)
            },
            Err(_) => {
                proof {
                    assert(false);
                }
                None
            },
        }
    }

    /// Yields (and deletes) the back element, or nothing once exhausted (and
    /// then keeps yielding nothing).
    pub fn next_back(&mut self) -> (r: Option<T>)
        requires
            old(self).wf(),
        ensures
            final(self).wf(),
            match r {
                Some(v) => old(self).remaining().len() > 0 && v == old(self).remaining().last()
                    && final(self).remaining() == old(self).remaining().drop_last(),
                None => old(self).remaining().len() == 0 && *final(self) == *old(self),
            },
    {
        let l = self.ms.len();
        if l == 0 {
            return None;
        }
        match self.ms.delete(l - 1) {
            Ok(v) => {
                proof {
                    assert(final(self).remaining() =~= old(self).remaining().drop_last());
                }
                Some(v)
            },
            Err(_) => {
                proof {
                    assert(false);
                }
                None
            },
        }
    }
}

/// A backward window iterator over a borrowed [`StackStructure`]: each step
/// yields the next `C` elements from the back as a [`StackSimple`] of
/// references in forward order; the final (frontmost) window may be shorter.
pub struct StackStructureRChunks<'a, T, const N: usize, const C: usize> {
    pub(crate) iterator: StackStructureIteratorRef<'a, T, N>,
}

impl<'a, T, const N: usize, const C: usize> StackStructureRChunks<'a, T, N, C> {
    /// The window width is positive and the traversal is intact.
    pub closed spec fn wf(self) -> bool {
        &&& self.iterator.wf()
        &&& C >= 1
    }

    /// The elements not yet windowed, in logical order.
    pub closed spec fn remaining(self) -> Seq<T> {
        self.iterator.remaining()
    }

    /// How many windows are left: the remaining length divided by `C`,
    /// rounded up.
    pub fn len(&self) -> (r: usize)
        requires
            self.wf(),
        ensures
            r == (self.remaining().len() as int) / (C as int) + (
            if (self.remaining().len() as int) % (C as int) == 0 {
                0int
            } else {
                1int
            }),
    {
        let number_of_items_left = self.iterator.len();
        let mut number_of_chunks_left = number_of_items_left / C;
        if number_of_items_left % C != 0 {
            proof {
                let n = number_of_items_left as int;
                let c = C as int;
                assert(c >= 2) by (nonlinear_arith)
                    requires
                        c >= 1,
                        n >= 0,
                        n % c != 0,
                ;
                assert(n / c <= n / 2) by (nonlinear_arith)
                    requires
                        n >= 0,
                        c >= 2,
                ;
            }
            number_of_chunks_left = number_of_chunks_left + 1;
        }
        number_of_chunks_left
    }

    /// Yields the backmost window of the remaining elements, filled in
    /// forward order, or nothing once exhausted (and then keeps yielding
    /// nothing).
    pub fn next(&mut self) -> (r: Option<StackSimple<&'a T, C>>)
        requires
            old(self).wf(),
        ensures
            final(self).wf(),
            match r {
                Some(chunk) => {
                    let rem = old(self).remaining();
                    let width = chunk@.len();
                    &&& rem.len() > 0
                    &&& chunk.wf()
                    &&& width == (if rem.len() < C { rem.len() as int } else { C as int })
                    &&& (forall|i: int|
                        0 <= i < width ==> *(#[trigger] chunk@[i]) == rem[rem.len() - width + i])
                    &&& final(self).remaining() == rem.take(rem.len() - width)
                },
                None => old(self).remaining().len() == 0 && *final(self) == *old(self),
            },
    {
        let ghost rem = self.remaining();
        let the_len = self.iterator.len();
        if the_len == 0 {
            return None;
        }
        let chunk_len = if the_len < C {
            the_len
        } else {
            C
        };
        let mut rev: Vec<&'a T> = Vec::new();
        for k in 0..chunk_len
            invariant
                self.iterator.wf(),
                chunk_len <= rem.len(),
                chunk_len <= C,
                rem == old(self).remaining(),
                rev@.len() == k,
                self.iterator.remaining() == rem.take(rem.len() - k),
                forall|t: int| 0 <= t < k ==> *(#[trigger] rev@[t]) == rem[rem.len() - 1 - t],
        {
            match self.iterator.next_back() {
                Some(v) => {
                    rev.push(v);
                    proof {
                        assert(self.iterator.remaining() =~= rem.take(rem.len() - (k + 1)));
                    }
                },
                None => {
                    proof {
                        assert(false);
                    }
                },
            }
        }
        let mut chunk: StackSimple<&'a T, C> = StackSimple::new();
        let mut i: usize = 0;
        while i < chunk_len
            invariant
                chunk_len <= rem.len(),
                chunk_len <= C,
                i <= chunk_len,
                rev@.len() == chunk_len,
                forall|t: int| 0 <= t < chunk_len ==> *(#[trigger] rev@[t]) == rem[rem.len() - 1 - t],
                chunk.wf(),
                chunk@.len() == i,
                forall|t: int|
                    0 <= t < i ==> *(#[trigger] chunk@[t]) == rem[rem.len() - chunk_len + t],
            decreases chunk_len - i,
        {
            let item = rev[chunk_len - 1 - i];
            let pr = chunk.push(item);
            proof {
                assert(pr is Ok);
            }
            i = i + 1;
        }
        Some(chunk)
    }
}

impl<T, const N: usize> StackStructure<T, N> {
    /// Consumes the structure into a draining iterator.
    pub fn into_iter(self) -> (r: StackStructureIterator<T, N>)
        requires
            self.wf(),
        ensures
            r.wf(),
            r.remaining() == self@,
    {
        StackStructureIterator { ms: self }
    }

    /// Builds a sequence from the elements of `items`, in order, stopping
    /// early once the capacity `N` is reached.
    pub fn from_iter<const M: usize>(items: [T; M]) -> (r: Self) where T: Copy
        ensures
            r.wf(),
            r@ == items@.take(if M <= N { M as int } else { N as int }),
    {
        let take_count = if M <= N {
            M
        } else {
            N
        };
        let mut ms = Self::new();
        for i in 0..take_count
            invariant
                take_count <= M,
                take_count <= N,
                ms.wf(),
                ms@ == items@.take(i as int),
        {
            let pr = ms.push(items[i]);
            proof {
                assert(pr is Ok);
                assert(ms@ =~= items@.take(i + 1));
            }
        }
        ms
    }

    /// Iterates the sequence backwards in windows of `C` elements (each
    /// window itself in forward order); the final window may be shorter.
    pub fn rchunks<'a, const C: usize>(&'a self) -> (r: StackStructureRChunks<'a, T, N, C>)
        requires
            self.wf(),
            C >= 1,
        ensures
            r.wf(),
            r.remaining() == self@,
    {
        StackStructureRChunks::<'a, T, N, C> { iterator: self.iter() }
    }

    /// A lending mutable iterator over the whole sequence: what the
    /// structure holds after the iterator's borrow expires is its eventual
    /// value.
    pub fn iter_mut<'a>(&'a mut self) -> (r: StackStructureIteratorRefMut<'a, T, N>)
        requires
            old(self).wf(),
        ensures
            r.wf(),
            r.remaining() == old(self)@,
            r.underlying() == old(self)@,
            r.front_count() == 0,
    {
        let ht = self.head_tail();
        let r = StackStructureIteratorRefMut {
            ms: self,
            current_nodes: ht,
            number_of_items_served: 0,
            front_served: Ghost(0),
        };
        proof {
            assert(r.remaining() =~= r.underlying());
        }
        r
    }

    /// A borrowed iterator over the whole sequence.
    pub fn iter<'a>(&'a self) -> (r: StackStructureIteratorRef<'a, T, N>)
        requires
            self.wf(),
        ensures
            r.wf(),
            r.remaining() == self@,
            r.underlying() == self@,
    {
        let ht = self.head_tail();
        let r = StackStructureIteratorRef {
            ms: self,
            current_nodes: ht,
            number_of_items_served: 0,
            front_served: Ghost(0),
        };
        proof {
            assert(r.remaining() =~= self@);
        }
        r
    }
}

} // verus!

