//! Fixed-capacity, heap-free ordered collections backed by an arena of slots.
//!
//! The central type, [`StackStructure`], keeps a doubly-linked logical
//! ordering over a fixed block of `N` slots; free slots are recycled through
//! an intrusive free list.  An ordered map ([`map::StackMap`]) is layered on
//! top of it, locating keys with an index-translating binary search.

use core::cmp::Ordering;
use vstd::prelude::*;
use vstd::std_specs::cmp::OrdSpec;

pub mod iterators;
pub mod map;
pub mod simple;
pub mod variable_size_immutable_array;

pub use iterators::StackStructureIterator;
pub use iterators::StackStructureIteratorRef;
pub use iterators::StackStructureIteratorRefMut;
pub use iterators::StackStructureRChunks;
pub use map::StackMap;
pub use simple::StackSimple;
pub use simple::StackSimpleIterator;
pub use simple::StackSimpleRChunks;
pub use variable_size_immutable_array::VariableSizeImmutableArray;

verus! {

/// `K`'s `Ord` implementation is faithfully described by its vstd
/// specification: `cmp` agrees with `cmp_spec`, spec equality coincides with
/// comparison equality, and the order is total and transitive.  vstd's law
/// lemmas establish this for the primitive integer types and for tuples of
/// them.
pub open spec fn cmp_reliable<K: Ord>() -> bool {
    &&& vstd::laws_cmp::obeys_cmp::<K>()
    &&& vstd::laws_eq::obeys_concrete_eq::<K>()
}

/// The consequences of [`cmp_reliable`] that the search and the ordered map
/// lean on: comparison equality is spec equality, `Less` and `Greater` are
/// mirror images, and `Less` chains transitively.
pub proof fn lemma_cmp_reliable_facts<K: Ord>()
    requires
        cmp_reliable::<K>(),
    ensures
        K::obeys_cmp_spec(),
        forall|x: K, y: K| (#[trigger] x.cmp_spec(&y)) == Ordering::Equal <==> x == y,
        forall|x: K, y: K| (#[trigger] x.cmp_spec(&y)) == Ordering::Less <==> y.cmp_spec(&x)
            == Ordering::Greater,
        forall|x: K, y: K, z: K|
            #![trigger x.cmp_spec(&y), y.cmp_spec(&z)]
            x.cmp_spec(&y) == Ordering::Less && y.cmp_spec(&z) == Ordering::Less ==> x.cmp_spec(&z)
                == Ordering::Less,
{
    reveal(vstd::laws_eq::obeys_eq_spec_properties);
    reveal(vstd::laws_eq::obeys_concrete_eq);
    reveal(vstd::laws_cmp::obeys_partial_cmp_spec_properties);
    reveal(vstd::laws_cmp::obeys_cmp_partial_ord);
    reveal(vstd::laws_cmp::obeys_cmp_ord);
}

/// A key projection: how to read the search key of an element.  The
/// executable projection is pinned to the spec-level one, so a search's
/// contract can speak about the key of every element.
pub trait KeyOf<T, K>: Sized {
    spec fn spec_key(t: T) -> K;

    fn key<'a>(&self, t: &'a T) -> (k: &'a K)
        ensures
            *k == Self::spec_key(*t),
    ;
}

/// The element is its own key; used when searching a sequence of plain
/// ordered values.
pub struct IdentityKey;

impl<T> KeyOf<T, T> for IdentityKey {
    open spec fn spec_key(t: T) -> T {
        t
    }

    fn key<'a>(&self, t: &'a T) -> (k: &'a T) {
        t
    }
}

/// The first component of a pair is the key; used by the ordered map over
/// key/value entries.
pub struct EntryKey;

impl<K, V> KeyOf<(K, V), K> for EntryKey {
    open spec fn spec_key(t: (K, V)) -> K {
        t.0
    }

    fn key<'a>(&self, t: &'a (K, V)) -> (k: &'a K) {
        &t.0
    }
}

/// The sequence is sorted (duplicates allowed) by the keys that `F` projects
/// out of its elements.
pub open spec fn sorted_by_key<T, K: Ord, F: KeyOf<T, K>>(s: Seq<T>) -> bool {
    forall|i: int, j: int|
        0 <= i < j < s.len() ==> (#[trigger] F::spec_key(s[i]).cmp_spec(&F::spec_key(s[j])))
            != Ordering::Greater
}

/// Order preservation, insertion half: inserting `x` at logical index `i`
/// and immediately reading index `i` back yields `x`.
pub proof fn lemma_insert_then_get<T>(s: Seq<T>, i: int, x: T)
    requires
        0 <= i <= s.len(),
    ensures
        s.insert(i, x)[i] == x,
{
}

/// Order preservation, deletion half: after deleting logical index `i`, the
/// element found at `i` (while still in bounds) is the one that stood at
/// `i + 1`.
pub proof fn lemma_delete_then_get<T>(s: Seq<T>, i: int)
    requires
        0 <= i,
        i + 1 < s.len(),
    ensures
        s.remove(i)[i] == s[i + 1],
{
}

/// Search correctness, miss half: inserting an element carrying `key` at the
/// insertion point a failed search reports keeps the sequence sorted.
pub proof fn lemma_insertion_point_sorted<T, K: Ord, F: KeyOf<T, K>>(s: Seq<T>, key: K, x: T, ip: int)
    requires
        cmp_reliable::<K>(),
        sorted_by_key::<T, K, F>(s),
        0 <= ip <= s.len(),
        forall|j: int| 0 <= j < ip ==> (#[trigger] F::spec_key(s[j]).cmp_spec(&key)) == Ordering::Less,
        forall|j: int|
            ip <= j < s.len() ==> (#[trigger] F::spec_key(s[j]).cmp_spec(&key)) == Ordering::Greater,
        F::spec_key(x) == key,
    ensures
        sorted_by_key::<T, K, F>(s.insert(ip, x)),
{
    lemma_cmp_reliable_facts::<K>();
    let t = s.insert(ip, x);
    assert forall|a: int, b: int|
        0 <= a < b < t.len() implies (#[trigger] F::spec_key(t[a]).cmp_spec(&F::spec_key(t[b])))
        != Ordering::Greater by {
        if a < ip && b == ip {
            assert(F::spec_key(s[a]).cmp_spec(&key) == Ordering::Less);
        } else if a == ip && b > ip {
            assert(F::spec_key(s[b - 1]).cmp_spec(&key) == Ordering::Greater);
        } else if a < ip && b > ip {
            assert(F::spec_key(s[a]).cmp_spec(&F::spec_key(s[b - 1])) != Ordering::Greater);
        } else if a < ip && b < ip {
            assert(F::spec_key(s[a]).cmp_spec(&F::spec_key(s[b])) != Ordering::Greater);
        } else if a > ip && b > ip {
            assert(F::spec_key(s[a - 1]).cmp_spec(&F::spec_key(s[b - 1])) != Ordering::Greater);
        }
    }
}

/// Failure of an arena operation: either the arena is out of free slots, or
/// a logical index lies beyond the current length.
#[derive(Debug, Clone, Copy, PartialEq, Eq, Structural)]
pub enum StackError {
    CapacityExceeded,
    IndexOutOfBounds,
}

/// One unit of arena storage.  A slot is live when `element` is present and
/// then `prev`/`next` link it into the live chain; a free slot reuses `next`
/// as the link to the next free slot.
pub(crate) struct Node<T> {
    pub(crate) element: Option<T>,
    pub(crate) prev: Option<usize>,
    pub(crate) next: Option<usize>,
}

/// An ordered sequence of at most `N` elements stored in a fixed arena.
///
/// Logical order is maintained by a doubly-linked chain of slot indices, so
/// insertion and deletion at a located slot cost O(1) link rewrites, while
/// locating a logical index costs a walk along the chain.  A live element
/// never moves between slots.
pub struct StackStructure<T, const N: usize> {
    pub(crate) main_memory: Vec<Node<T>>,
    pub(crate) head_and_tail: Option<(usize, usize)>,
    pub(crate) free_list: Option<usize>,
    pub(crate) len: usize,
    /// Slot index of each live element, in logical order.
    pub(crate) live_order: Ghost<Seq<int>>,
    /// Slot index of each free slot, in free-list order.
    pub(crate) free_order: Ghost<Seq<int>>,
}

impl<T, const N: usize> View for StackStructure<T, N> {
    type V = Seq<T>;

    closed spec fn view(&self) -> Seq<T> {
        Seq::new(self.live_order@.len(), |p: int| self.main_memory@[self.live_order@[p]].element.unwrap())
    }
}

impl<T, const N: usize> StackStructure<T, N> {
    /// The live slot at logical position `p` carries the element there and
    /// links to its logical neighbours.
    spec fn live_slot_ok(self, p: int) -> bool {
        let live = self.live_order@;
        let mm = self.main_memory@;
        &&& 0 <= live[p] < mm.len()
        &&& mm[live[p]].element is Some
        &&& mm[live[p]].prev == (if p == 0 { Option::<usize>::None } else {
            Option::<usize>::Some(live[p - 1] as usize)
        })
        &&& mm[live[p]].next == (if p == live.len() - 1 { Option::<usize>::None } else {
            Option::<usize>::Some(live[p + 1] as usize)
        })
    }

    /// The free slot at free-list position `p` is empty and links to the next
    /// free slot.
    spec fn free_slot_ok(self, p: int) -> bool {
        let free = self.free_order@;
        let mm = self.main_memory@;
        &&& 0 <= free[p] < mm.len()
        &&& mm[free[p]].element is None
        &&& mm[free[p]].next == (if p == free.len() - 1 { Option::<usize>::None } else {
            Option::<usize>::Some(free[p + 1] as usize)
        })
    }

    /// Every slot index in [0, N) appears exactly once, either in the live
    /// chain or in the free list.
    spec fn slots_partitioned(self) -> bool {
        let live = self.live_order@;
        let free = self.free_order@;
        &&& live.len() + free.len() == N
        &&& (forall|p: int, q: int| 0 <= p < q < live.len() ==> live[p] != live[q])
        &&& (forall|p: int, q: int| 0 <= p < q < free.len() ==> free[p] != free[q])
        &&& (forall|p: int, q: int|
            0 <= p < live.len() && 0 <= q < free.len() ==> live[p] != free[q])
    }

    /// Structural well-formedness: the arena has exactly `N` slots, the live
    /// chain and the free list partition them, every slot's links and element
    /// agree with its position, and the head/tail and free-list-head fields
    /// point where the two chains start and end.
    spec fn inv(self) -> bool {
        let live = self.live_order@;
        let free = self.free_order@;
        &&& self.main_memory@.len() == N
        &&& self.len == live.len()
        &&& self.slots_partitioned()
        &&& (forall|p: int| 0 <= p < live.len() ==> #[trigger] self.live_slot_ok(p))
        &&& (forall|p: int| 0 <= p < free.len() ==> #[trigger] self.free_slot_ok(p))
        &&& self.head_and_tail == (if live.len() == 0 { Option::<(usize, usize)>::None } else {
            Option::<(usize, usize)>::Some((live[0] as usize, live[live.len() - 1] as usize))
        })
        &&& self.free_list == (if free.len() == 0 { Option::<usize>::None } else {
            Option::<usize>::Some(free[0] as usize)
        })
    }

    /// Public face of the invariant; established by `new` and preserved by
    /// every operation.
    pub closed spec fn wf(self) -> bool {
        self.inv()
    }

    /// How many slots the free list currently holds.
    pub closed spec fn free_slot_count(self) -> nat {
        self.free_order@.len()
    }

    /// Capacity conservation: at every observation point, the live count and
    /// the count of slots still reachable from the free-list head add up to
    /// the fixed capacity `N`.
    pub proof fn lemma_capacity_conservation(self)
        requires
            self.wf(),
        ensures
            self@.len() + self.free_slot_count() == N,
    {
    }

    /// Builds an empty structure: all `N` slots free, chained in ascending
    /// order.
    pub fn new() -> (r: Self)
        ensures
            r.wf(),
            r@ == Seq::<T>::empty(),
    {
        let mut mm: Vec<Node<T>> = Vec::new();
        for i in 0..N
            invariant
                mm@.len() == i,
                forall|j: int| 0 <= j < i ==> (#[trigger] mm@[j]).element is None,
                forall|j: int| 0 <= j < i ==> (#[trigger] mm@[j]).prev == (if j == 0 {
                    Option::<usize>::None
                } else {
                    Option::<usize>::Some((j - 1) as usize)
                }),
                forall|j: int| 0 <= j < i ==> (#[trigger] mm@[j]).next == (if j == N - 1 {
                    Option::<usize>::None
                } else {
                    Option::<usize>::Some((j + 1) as usize)
                }),
        {
            mm.push(Node {
                element: None,
                prev: if i == 0 { None } else { Some(i - 1) },
                next: if i == N - 1 { None } else { Some(i + 1) },
            });
        }
        let r = Self {
            main_memory: mm,
            head_and_tail: None,
            free_list: if N == 0 { None } else { Some(0) },
            len: 0,
            live_order: Ghost(Seq::empty()),
            free_order: Ghost(Seq::new(N as nat, |i: int| i)),
        };
        proof {
            assert(r@ =~= Seq::<T>::empty());
        }
        r
    }

    /// Takes the slot at the head of the free list, stores `element` in it,
    /// and links it in front of the current head of the live chain.
    pub(crate) fn insert_front(&mut self, element: T)
        requires
            old(self).wf(),
            old(self)@.len() < N,
        ensures
            final(self).wf(),
            final(self)@ == old(self)@.insert(0, element),
    {
        let ghost s0 = *old(self);
        proof {
            assert(s0.free_order@.len() > 0);
            assert(s0.free_slot_ok(0));
        }
        let new_i = match self.free_list {
            Some(i) => i,
            None => {
                proof {
                    assert(false);
                }
                0
            },
        };
        // unhook the head of the free list
        self.free_list = self.main_memory[new_i].next;
        if let Some(f1) = self.free_list {
            proof {
                assert(s0.free_slot_ok(1));
            }
            self.main_memory[f1].prev = None;
        }
        self.main_memory[new_i].element = Some(element);
        match self.head_and_tail {
            None => {
                self.main_memory[new_i].prev = None;
                self.main_memory[new_i].next = None;
                self.head_and_tail = Some((new_i, new_i));
            },
            Some((head, tail)) => {
                proof {
                    assert(s0.live_slot_ok(0));
                }
                self.main_memory[new_i].prev = None;
                self.main_memory[new_i].next = Some(head);
                self.main_memory[head].prev = Some(new_i);
                self.head_and_tail = Some((new_i, tail));
            },
        }
        self.len = self.len + 1;
        self.live_order = Ghost(s0.live_order@.insert(0, new_i as int));
        self.free_order = Ghost(s0.free_order@.skip(1));
        proof {
            let live0 = s0.live_order@;
            let live1 = self.live_order@;
            assert forall|p: int| 0 <= p < live1.len() implies #[trigger] self.live_slot_ok(p) by {
                if p > 0 {
                    assert(s0.live_slot_ok(p - 1));
                    if p - 1 > 0 {
                        assert(s0.live_slot_ok(p - 2));
                    }
                }
            }
            assert forall|p: int| 0 <= p < self.free_order@.len() implies #[trigger] self.free_slot_ok(p) by {
                assert(s0.free_slot_ok(p + 1));
            }
            assert(self.inv());
            assert forall|p: int| 0 <= p < self@.len() implies self@[p] == s0@.insert(0, element)[p] by {
                if p > 0 {
                    assert(s0.live_slot_ok(p - 1));
                    assert(s0@[p - 1] == s0.main_memory@[live0[p - 1]].element.unwrap());
                }
            }
            assert(self@ =~= s0@.insert(0, element));
        }
    }

    /// Takes the slot at the head of the free list, stores `element` in it,
    /// and splices it into the live chain immediately after the live slot
    /// `prev_slot`, which sits at logical position `p`.
    #[verifier::rlimit(60)]
    pub(crate) fn insert_after_pos(&mut self, prev_slot: usize, element: T, Ghost(p): Ghost<int>)
        requires
            old(self).wf(),
            old(self)@.len() < N,
            0 <= p < old(self)@.len(),
            old(self).live_order@[p] == prev_slot,
        ensures
            final(self).wf(),
            final(self)@ == old(self)@.insert(p + 1, element),
    {
        let ghost s0 = *old(self);
        proof {
            assert(s0.free_order@.len() > 0);
            assert(s0.free_slot_ok(0));
            assert(s0.live_slot_ok(p));
        }
        let new_i = match self.free_list {
            Some(i) => i,
            None => {
                proof {
                    assert(false);
                }
                0
            },
        };
        // unhook the head of the free list
        self.free_list = self.main_memory[new_i].next;
        if let Some(f1) = self.free_list {
            proof {
                assert(s0.free_slot_ok(1));
            }
            self.main_memory[f1].prev = None;
        }
        self.main_memory[new_i].element = Some(element);
        self.main_memory[new_i].prev = Some(prev_slot);
        match self.main_memory[prev_slot].next {
            None => {
                // `prev_slot` is the tail: the new slot becomes the tail
                self.main_memory[new_i].next = None;
                self.main_memory[prev_slot].next = Some(new_i);
                match self.head_and_tail {
                    Some((head, _tail)) => {
                        self.head_and_tail = Some((head, new_i));
                    },
                    None => {
                        proof {
                            assert(false);
                        }
                    },
                }
            },
            Some(succ) => {
                proof {
                    assert(s0.live_slot_ok(p + 1));
                }
                self.main_memory[new_i].next = Some(succ);
                self.main_memory[succ].prev = Some(new_i);
                self.main_memory[prev_slot].next = Some(new_i);
            },
        }
        self.len = self.len + 1;
        self.live_order = Ghost(s0.live_order@.insert(p + 1, new_i as int));
        self.free_order = Ghost(s0.free_order@.skip(1));
        proof {
            let live0 = s0.live_order@;
            assert forall|q: int| 0 <= q < self.live_order@.len() implies #[trigger] self.live_slot_ok(q) by {
                if q <= p {
                    assert(s0.live_slot_ok(q));
                    if q > 0 {
                        assert(s0.live_slot_ok(q - 1));
                    }
                } else if q > p + 1 {
                    assert(s0.live_slot_ok(q - 1));
                    assert(s0.live_slot_ok(q - 2));
                }
            }
            assert forall|q: int| 0 <= q < self.free_order@.len() implies #[trigger] self.free_slot_ok(q) by {
                assert(s0.free_slot_ok(q + 1));
            }
            assert(self.inv());
            assert forall|q: int| 0 <= q < self@.len() implies self@[q] == s0@.insert(p + 1, element)[q] by {
                if q <= p {
                    assert(s0.live_slot_ok(q));
                    assert(s0@[q] == s0.main_memory@[live0[q]].element.unwrap());
                } else if q > p + 1 {
                    assert(s0.live_slot_ok(q - 1));
                    assert(s0@[q - 1] == s0.main_memory@[live0[q - 1]].element.unwrap());
                }
            }
            assert(self@ =~= s0@.insert(p + 1, element));
        }
    }

    /// Walks `index` forward links from the head of the live chain and
    /// returns the slot holding the element at logical position `index`.
    pub(crate) fn slot_at_logical(&self, index: usize) -> (slot: usize)
        requires
            self.wf(),
            index < self@.len(),
        ensures
            slot == self.live_order@[index as int],
    {
        let head = match self.head_and_tail {
            Some((h, _t)) => h,
            None => {
                proof {
                    assert(false);
                }
                0
            },
        };
        let mut slot = head;
        let mut k: usize = 0;
        proof {
            assert(self.live_slot_ok(0));
        }
        while k < index
            invariant
                self.wf(),
                index < self@.len(),
                k <= index,
                slot == self.live_order@[k as int],
            decreases index - k,
        {
            proof {
                assert(self.live_slot_ok(k as int));
                assert(self.live_slot_ok(k + 1));
            }
            slot = match self.main_memory[slot].next {
                Some(nx) => nx,
                None => {
                    proof {
                        assert(false);
                    }
                    0
                },
            };
            k = k + 1;
        }
        slot
    }

    /// Inserts `element` at logical position `insertion_index`, shifting
    /// every later element one position towards the back.
    ///
    /// Fails with `CapacityExceeded` when the arena is full, and otherwise
    /// with `IndexOutOfBounds` when the index lies beyond the current length;
    /// a failed insertion leaves the structure untouched.
    pub fn insert(&mut self, insertion_index: usize, element: T) -> (r: Result<(), StackError>)
        requires
            old(self).wf(),
        ensures
            final(self).wf(),
            match r {
                Ok(()) => old(self)@.len() < N && insertion_index <= old(self)@.len()
                    && final(self)@ == old(self)@.insert(insertion_index as int, element),
                Err(StackError::CapacityExceeded) => old(self)@.len() == N && *final(self)
                    == *old(self),
                Err(StackError::IndexOutOfBounds) => old(self)@.len() < N && insertion_index > old(
                    self,
                )@.len() && *final(self) == *old(self),
            },
    {
        if self.len == N {
            return Err(StackError::CapacityExceeded);
        }
        if insertion_index > self.len {
            return Err(StackError::IndexOutOfBounds);
        }
        if insertion_index == 0 {
            self.insert_front(element);
        } else {
            let prev_slot = self.slot_at_logical(insertion_index - 1);
            self.insert_after_pos(prev_slot, element, Ghost(insertion_index - 1));
        }
        Ok(())
    }

    /// Appends `element` at the back; fails with `CapacityExceeded` when the
    /// arena is full, leaving the structure untouched.
    pub fn push(&mut self, element: T) -> (r: Result<(), StackError>)
        requires
            old(self).wf(),
        ensures
            final(self).wf(),
            match r {
                Ok(()) => old(self)@.len() < N && final(self)@ == old(self)@.push(element),
                Err(e) => e == StackError::CapacityExceeded && old(self)@.len() == N && *final(self)
                    == *old(self),
            },
    {
        let l = self.len;
        let r = self.insert(l, element);
        proof {
            if r is Ok {
                assert(final(self)@ =~= old(self)@.push(element));
            }
        }
        r
    }

    /// Unlinks the live slot `slot` (at logical position `p`) from the live
    /// chain, pushes it onto the free list, and returns the element it held.
    #[verifier::rlimit(60)]
    pub(crate) fn delete_node(&mut self, slot: usize, Ghost(p): Ghost<int>) -> (r: T)
        requires
            old(self).wf(),
            0 <= p < old(self)@.len(),
            old(self).live_order@[p] == slot,
        ensures
            final(self).wf(),
            final(self)@ == old(self)@.remove(p),
            r == old(self)@[p],
    {
        let ghost s0 = *old(self);
        proof {
            assert(s0.live_slot_ok(p));
            if p > 0 {
                assert(s0.live_slot_ok(p - 1));
                if p > 1 {
                    assert(s0.live_slot_ok(p - 2));
                }
            }
            if p + 1 < s0.live_order@.len() {
                assert(s0.live_slot_ok(p + 1));
                if p + 2 < s0.live_order@.len() {
                    assert(s0.live_slot_ok(p + 2));
                }
            }
            if s0.free_order@.len() > 0 {
                assert(s0.free_slot_ok(0));
            }
        }
        // stitch the predecessor (or the head) over to the successor
        match self.main_memory[slot].prev {
            Some(prev_i) => {
                let nx = self.main_memory[slot].next;
                self.main_memory[prev_i].next = nx;
            },
            None => {
                match self.main_memory[slot].next {
                    Some(next_i) => {
                        match self.head_and_tail {
                            Some((_h, t)) => {
                                self.head_and_tail = Some((next_i, t));
                            },
                            None => {
                                proof {
                                    assert(false);
                                }
                            },
                        }
                    },
                    None => {
                        self.head_and_tail = None;
                    },
                }
            },
        }
        // stitch the successor (or the tail) back to the predecessor
        match self.main_memory[slot].next {
            Some(next_i) => {
                let pv = self.main_memory[slot].prev;
                self.main_memory[next_i].prev = pv;
            },
            None => {
                match self.main_memory[slot].prev {
                    Some(prev_i) => {
                        match self.head_and_tail {
                            Some((h, _t)) => {
                                self.head_and_tail = Some((h, prev_i));
                            },
                            None => {
                                proof {
                                    assert(false);
                                }
                            },
                        }
                    },
                    None => {
                        self.head_and_tail = None;
                    },
                }
            },
        }
        // recycle the slot at the front of the free list
        self.main_memory[slot].next = self.free_list;
        self.free_list = Some(slot);
        self.len = self.len - 1;
        let taken = self.main_memory[slot].element.take();
        self.live_order = Ghost(s0.live_order@.remove(p));
        self.free_order = Ghost(s0.free_order@.insert(0, slot as int));
        proof {
            let live0 = s0.live_order@;
            assert forall|q: int| 0 <= q < self.live_order@.len() implies #[trigger] self.live_slot_ok(q) by {
                if q < p {
                    assert(s0.live_slot_ok(q));
                    if q > 0 {
                        assert(s0.live_slot_ok(q - 1));
                    }
                } else {
                    assert(s0.live_slot_ok(q + 1));
                    if q + 2 < live0.len() {
                        assert(s0.live_slot_ok(q + 2));
                    }
                }
            }
            assert forall|q: int| 0 <= q < self.free_order@.len() implies #[trigger] self.free_slot_ok(q) by {
                if q > 0 {
                    assert(s0.free_slot_ok(q - 1));
                }
            }
            assert(self.inv());
            assert forall|q: int| 0 <= q < self@.len() implies self@[q] == s0@.remove(p)[q] by {
                if q < p {
                    assert(s0.live_slot_ok(q));
                    assert(s0@[q] == s0.main_memory@[live0[q]].element.unwrap());
                } else {
                    assert(s0.live_slot_ok(q + 1));
                    assert(s0@[q + 1] == s0.main_memory@[live0[q + 1]].element.unwrap());
                }
            }
            assert(self@ =~= s0@.remove(p));
        }
        match taken {
            Some(v) => v,
            None => {
                proof {
                    assert(false);
                }
                vstd::pervasive::unreached()
            },
        }
    }

    /// Removes and returns the element at logical position `deletion_index`,
    /// shifting every later element one position towards the front.  Fails
    /// with `IndexOutOfBounds` (leaving the structure untouched) when the
    /// index lies beyond the last element.
    pub fn delete(&mut self, deletion_index: usize) -> (r: Result<T, StackError>)
        requires
            old(self).wf(),
        ensures
            final(self).wf(),
            match r {
                Ok(v) => deletion_index < old(self)@.len() && v == old(self)@[deletion_index as int]
                    && final(self)@ == old(self)@.remove(deletion_index as int),
                Err(e) => e == StackError::IndexOutOfBounds && deletion_index >= old(self)@.len()
                    && *final(self) == *old(self),
            },
    {
        if deletion_index >= self.len {
            return Err(StackError::IndexOutOfBounds);
        }
        let slot = self.slot_at_logical(deletion_index);
        Ok(self.delete_node(slot, Ghost(deletion_index as int)))
    }

    /// Returns a reference to the element at logical position `get_index`,
    /// or `IndexOutOfBounds` when the index lies beyond the last element.
    pub fn get(&self, get_index: usize) -> (r: Result<&T, StackError>)
        requires
            self.wf(),
        ensures
            match r {
                Ok(v) => get_index < self@.len() && *v == self@[get_index as int],
                Err(e) => e == StackError::IndexOutOfBounds && get_index >= self@.len(),
            },
    {
        if get_index >= self.len {
            return Err(StackError::IndexOutOfBounds);
        }
        let slot = self.slot_at_logical(get_index);
        proof {
            assert(self.live_slot_ok(get_index as int));
        }
        match &self.main_memory[slot].element {
            Some(v) => Ok(v),
            None => {
                proof {
                    assert(false);
                }
                Err(StackError::IndexOutOfBounds)
            },
        }
    }

    /// Returns a mutable reference to the element at logical position
    /// `get_index`, or `IndexOutOfBounds` when the index lies beyond the last
    /// element.  Writing through the reference replaces exactly that element.
    pub fn get_mut(&mut self, get_index: usize) -> (r: Result<&mut T, StackError>)
        requires
            old(self).wf(),
        ensures
            match r {
                Ok(m) => get_index < old(self)@.len() && *m == old(self)@[get_index as int]
                    && final(self).wf() && final(self)@ =~= old(self)@.update(
                    get_index as int,
                    *final(m),
                ),
                Err(e) => e == StackError::IndexOutOfBounds && get_index >= old(self)@.len()
                    && *final(self) == *old(self),
            },
    {
        let ghost s0 = *old(self);
        if get_index >= self.len {
            return Err(StackError::IndexOutOfBounds);
        }
        let slot = self.slot_at_logical(get_index);
        proof {
            let live0 = s0.live_order@;
            let free0 = s0.free_order@;
            let mm0 = s0.main_memory@;
            assert(s0.live_slot_ok(get_index as int));
            assert(s0@[get_index as int] == mm0[slot as int].element.unwrap());
            assert forall|q: int| #![trigger live0[q]]
                0 <= q < live0.len() && q != get_index implies {
                    &&& live0[q] != slot
                    &&& 0 <= live0[q] < mm0.len()
                    &&& mm0[live0[q]].element is Some
                    &&& mm0[live0[q]].prev == (if q == 0 { Option::<usize>::None } else {
                        Option::<usize>::Some(live0[q - 1] as usize)
                    })
                    &&& mm0[live0[q]].next == (if q == live0.len() - 1 { Option::<usize>::None } else {
                        Option::<usize>::Some(live0[q + 1] as usize)
                    })
                    &&& s0@[q] == mm0[live0[q]].element.unwrap()
                } by {
                assert(s0.live_slot_ok(q));
            }
            assert forall|q: int| #![trigger free0[q]]
                0 <= q < free0.len() implies {
                    &&& free0[q] != slot
                    &&& 0 <= free0[q] < mm0.len()
                    &&& mm0[free0[q]].element is None
                    &&& mm0[free0[q]].next == (if q == free0.len() - 1 { Option::<usize>::None } else {
                        Option::<usize>::Some(free0[q + 1] as usize)
                    })
                } by {
                assert(s0.free_slot_ok(q));
            }
        }
        match &mut self.main_memory[slot].element {
            Some(m) => Ok(m),
            None => {
                proof {
                    assert(false);
                }
                Err(StackError::IndexOutOfBounds)
            },
        }
    }

    /// Replaces the element at logical position `set_index` with `value` and
    /// returns the previous element, or fails with `IndexOutOfBounds`
    /// (leaving the structure untouched) when the index lies beyond the last
    /// element.
    pub fn set(&mut self, set_index: usize, value: T) -> (r: Result<T, StackError>)
        requires
            old(self).wf(),
        ensures
            final(self).wf(),
            match r {
                Ok(v) => set_index < old(self)@.len() && v == old(self)@[set_index as int]
                    && final(self)@ == old(self)@.update(set_index as int, value),
                Err(e) => e == StackError::IndexOutOfBounds && set_index >= old(self)@.len()
                    && *final(self) == *old(self),
            },
    {
        let ghost s0 = *old(self);
        if set_index >= self.len {
            return Err(StackError::IndexOutOfBounds);
        }
        let slot = self.slot_at_logical(set_index);
        proof {
            assert(s0.live_slot_ok(set_index as int));
        }
        let taken = self.main_memory[slot].element.take();
        self.main_memory[slot].element = Some(value);
        proof {
            let live0 = s0.live_order@;
            assert forall|q: int| 0 <= q < self.live_order@.len() implies #[trigger] self.live_slot_ok(q) by {
                assert(s0.live_slot_ok(q));
            }
            assert forall|q: int| 0 <= q < self.free_order@.len() implies #[trigger] self.free_slot_ok(q) by {
                assert(s0.free_slot_ok(q));
            }
            assert(self.inv());
            assert forall|q: int| 0 <= q < self@.len() implies self@[q] == s0@.update(set_index as int, value)[q] by {
                if q != set_index {
                    assert(s0.live_slot_ok(q));
                    assert(s0@[q] == s0.main_memory@[live0[q]].element.unwrap());
                }
            }
            assert(self@ =~= s0@.update(set_index as int, value));
        }
        match taken {
            Some(v) => Ok(v),
            None => {
                proof {
                    assert(false);
                }
                vstd::pervasive::unreached()
            },
        }
    }

    /// Reads the element stored in the live slot `slot`, which sits at
    /// logical position `p`.
    pub(crate) fn element_at(&self, slot: usize, Ghost(p): Ghost<int>) -> (r: &T)
        requires
            self.wf(),
            0 <= p < self@.len(),
            self.live_order@[p] == slot,
        ensures
            *r == self@[p],
    {
        proof {
            assert(self.live_slot_ok(p));
        }
        match &self.main_memory[slot].element {
            Some(v) => v,
            None => {
                proof {
                    assert(false);
                }
                vstd::pervasive::unreached()
            },
        }
    }

    /// Replaces the element stored in the live slot `slot` (at logical
    /// position `p`) with `value` and returns the previous element.
    pub(crate) fn replace_at(&mut self, slot: usize, value: T, Ghost(p): Ghost<int>) -> (r: T)
        requires
            old(self).wf(),
            0 <= p < old(self)@.len(),
            old(self).live_order@[p] == slot,
        ensures
            final(self).wf(),
            final(self)@ == old(self)@.update(p, value),
            final(self).live_order == old(self).live_order,
            r == old(self)@[p],
    {
        let ghost s0 = *old(self);
        proof {
            assert(s0.live_slot_ok(p));
        }
        let taken = self.main_memory[slot].element.take();
        self.main_memory[slot].element = Some(value);
        proof {
            let live0 = s0.live_order@;
            assert forall|q: int| 0 <= q < self.live_order@.len() implies #[trigger] self.live_slot_ok(q) by {
                assert(s0.live_slot_ok(q));
            }
            assert forall|q: int| 0 <= q < self.free_order@.len() implies #[trigger] self.free_slot_ok(q) by {
                assert(s0.free_slot_ok(q));
            }
            assert(self.inv());
            assert forall|q: int| 0 <= q < self@.len() implies self@[q] == s0@.update(p, value)[q] by {
                if q != p {
                    assert(s0.live_slot_ok(q));
                    assert(s0@[q] == s0.main_memory@[live0[q]].element.unwrap());
                }
            }
            assert(self@ =~= s0@.update(p, value));
        }
        match taken {
            Some(v) => v,
            None => {
                proof {
                    assert(false);
                }
                vstd::pervasive::unreached()
            },
        }
    }

    /// Borrows the element stored in the live slot `slot` (at logical
    /// position `p`) mutably; writing through the reference replaces exactly
    /// that element.
    pub(crate) fn element_mut_at(&mut self, slot: usize, Ghost(p): Ghost<int>) -> (m: &mut T)
        requires
            old(self).wf(),
            0 <= p < old(self)@.len(),
            old(self).live_order@[p] == slot,
        ensures
            *m == old(self)@[p],
            final(self).wf(),
            final(self)@ =~= old(self)@.update(p, *final(m)),
            final(self).live_order == old(self).live_order,
    {
        let ghost s0 = *old(self);
        proof {
            let live0 = s0.live_order@;
            let free0 = s0.free_order@;
            let mm0 = s0.main_memory@;
            assert(s0.live_slot_ok(p));
            assert(s0@[p] == mm0[slot as int].element.unwrap());
            assert forall|q: int| #![trigger live0[q]]
                0 <= q < live0.len() && q != p implies {
                    &&& live0[q] != slot
                    &&& 0 <= live0[q] < mm0.len()
                    &&& mm0[live0[q]].element is Some
                    &&& mm0[live0[q]].prev == (if q == 0 { Option::<usize>::None } else {
                        Option::<usize>::Some(live0[q - 1] as usize)
                    })
                    &&& mm0[live0[q]].next == (if q == live0.len() - 1 { Option::<usize>::None } else {
                        Option::<usize>::Some(live0[q + 1] as usize)
                    })
                    &&& s0@[q] == mm0[live0[q]].element.unwrap()
                } by {
                assert(s0.live_slot_ok(q));
            }
            assert forall|q: int| #![trigger free0[q]]
                0 <= q < free0.len() implies {
                    &&& free0[q] != slot
                    &&& 0 <= free0[q] < mm0.len()
                    &&& mm0[free0[q]].element is None
                    &&& mm0[free0[q]].next == (if q == free0.len() - 1 { Option::<usize>::None } else {
                        Option::<usize>::Some(free0[q + 1] as usize)
                    })
                } by {
                assert(s0.free_slot_ok(q));
            }
        }
        match &mut self.main_memory[slot].element {
            Some(m) => m,
            None => {
                proof {
                    assert(false);
                }
                vstd::pervasive::unreached()
            },
        }
    }

    /// Two distinct logical positions live in distinct slots.
    pub(crate) proof fn lemma_live_distinct(&self)
        requires
            self.wf(),
        ensures
            forall|p: int, q: int|
                0 <= p < self@.len() && 0 <= q < self@.len() && p != q ==> self.live_order@[p]
                    != self.live_order@[q],
    {
    }

    /// The slots at both ends of the live chain, or nothing when it is
    /// empty.
    pub(crate) fn head_tail(&self) -> (r: Option<(usize, usize)>)
        requires
            self.wf(),
        ensures
            r is Some <==> self@.len() > 0,
            r is Some ==> r.unwrap().0 == self.live_order@[0] && r.unwrap().1
                == self.live_order@[self@.len() - 1],
    {
        proof {
            if self@.len() > 0 {
                assert(self.live_slot_ok(0));
                assert(self.live_slot_ok(self@.len() - 1));
            }
        }
        self.head_and_tail
    }

    /// The forward link out of the live slot at logical position `p`.
    pub(crate) fn next_slot(&self, slot: usize, Ghost(p): Ghost<int>) -> (r: Option<usize>)
        requires
            self.wf(),
            0 <= p < self@.len(),
            self.live_order@[p] == slot,
        ensures
            p == self@.len() - 1 ==> r is None,
            p < self@.len() - 1 ==> r is Some && r.unwrap() == self.live_order@[p + 1],
    {
        proof {
            assert(self.live_slot_ok(p));
            if p < self@.len() - 1 {
                assert(self.live_slot_ok(p + 1));
            }
        }
        self.main_memory[slot].next
    }

    /// The backward link out of the live slot at logical position `p`.
    pub(crate) fn prev_slot(&self, slot: usize, Ghost(p): Ghost<int>) -> (r: Option<usize>)
        requires
            self.wf(),
            0 <= p < self@.len(),
            self.live_order@[p] == slot,
        ensures
            p == 0 ==> r is None,
            p > 0 ==> r is Some && r.unwrap() == self.live_order@[p - 1],
    {
        proof {
            assert(self.live_slot_ok(p));
            if p > 0 {
                assert(self.live_slot_ok(p - 1));
            }
        }
        self.main_memory[slot].prev
    }

    /// Binary search over the sorted live chain, translating each virtual
    /// midpoint into a physical slot by walking links from a persisted
    /// cursor.  On a hit, returns the virtual index and the slot; on a miss,
    /// returns the insertion point together with the slot of the element
    /// just before it (absent when the insertion point is the front) — the
    /// exact splice point an ordered insert needs.
    #[verifier::rlimit(60)]
    pub(crate) fn locate_by_key<K: Ord, F: KeyOf<T, K>>(&self, key: &K, key_of: F) -> (r: Result<
        (usize, usize),
        (usize, Option<usize>),
    >)
        requires
            self.wf(),
            cmp_reliable::<K>(),
            sorted_by_key::<T, K, F>(self@),
        ensures
            match r {
                Ok((vi, slot)) => {
                    &&& vi < self@.len()
                    &&& F::spec_key(self@[vi as int]) == *key
                    &&& self.live_order@[vi as int] == slot
                },
                Err((ip, pred)) => {
                    &&& ip <= self@.len()
                    &&& forall|j: int|
                        0 <= j < ip ==> (#[trigger] F::spec_key(self@[j]).cmp_spec(key))
                            == Ordering::Less
                    &&& forall|j: int|
                        ip <= j < self@.len() ==> (#[trigger] F::spec_key(self@[j]).cmp_spec(key))
                            == Ordering::Greater
                    &&& ip == 0 ==> pred is None
                    &&& ip > 0 ==> pred is Some && self.live_order@[ip - 1] == pred.unwrap()
                },
            },
    {
        if self.len == 0 {
            return Err((0, None));
        }
        let mut low: usize = 0;
        let mut high: usize = self.len - 1;
        let mut cursor: usize = match self.head_and_tail {
            Some((h, _t)) => h,
            None => {
                proof {
                    assert(false);
                }
                0
            },
        };
        let mut vpos: usize = 0;
        proof {
            assert(self.live_slot_ok(0));
        }
        while low <= high
            invariant
                self.wf(),
                cmp_reliable::<K>(),
                sorted_by_key::<T, K, F>(self@),
                self@.len() == self.len,
                self.len >= 1,
                low <= self@.len(),
                high < self@.len(),
                low <= high + 1,
                vpos < self@.len(),
                cursor == self.live_order@[vpos as int],
                forall|j: int|
                    0 <= j < low ==> (#[trigger] F::spec_key(self@[j]).cmp_spec(key))
                        == Ordering::Less,
                forall|j: int|
                    high < j < self@.len() ==> (#[trigger] F::spec_key(self@[j]).cmp_spec(key))
                        == Ordering::Greater,
                low > high ==> vpos == low - 1,
            decreases high + 1 - low,
        {
            proof {
                lemma_cmp_reliable_facts::<K>();
            }
            let mid = low + (high - low) / 2;
            if vpos < mid {
            while vpos < mid
                invariant
                    self.wf(),
                    self@.len() == self.len,
                    mid < self@.len(),
                    vpos <= mid,
                    cursor == self.live_order@[vpos as int],
                decreases mid - vpos,
            {
                proof {
                    assert(self.live_slot_ok(vpos as int));
                    assert(self.live_slot_ok(vpos + 1));
                }
                cursor = match self.main_memory[cursor].next {
                    Some(nx) => nx,
                    None => {
                        proof {
                            assert(false);
                        }
                        0
                    },
                };
                vpos = vpos + 1;
            }
            }
            while vpos > mid
                invariant
                    self.wf(),
                    self@.len() == self.len,
                    mid < self@.len(),
                    vpos >= mid,
                    vpos < self@.len(),
                    cursor == self.live_order@[vpos as int],
                decreases vpos - mid,
            {
                proof {
                    assert(self.live_slot_ok(vpos as int));
                    assert(self.live_slot_ok(vpos - 1));
                }
                cursor = match self.main_memory[cursor].prev {
                    Some(pv) => pv,
                    None => {
                        proof {
                            assert(false);
                        }
                        0
                    },
                };
                vpos = vpos - 1;
            }
            proof {
                assert(self.live_slot_ok(mid as int));
                assert(self@[mid as int] == self.main_memory@[cursor as int].element.unwrap());
            }
            let elem = match &self.main_memory[cursor].element {
                Some(e) => e,
                None => {
                    proof {
                        assert(false);
                    }
                    return Err((0, None));
                },
            };
            match key_of.key(elem).cmp(key) {
                Ordering::Equal => {
                    return Ok((mid, cursor));
                },
                Ordering::Less => {
                    proof {
                        assert forall|j: int|
                            0 <= j < mid + 1 implies (#[trigger] F::spec_key(self@[j]).cmp_spec(key))
                            == Ordering::Less by {
                            if low <= j < mid {
                                assert(F::spec_key(self@[j]).cmp_spec(&F::spec_key(self@[mid as int]))
                                    != Ordering::Greater);
                            }
                        }
                    }
                    low = mid + 1;
                },
                Ordering::Greater => {
                    proof {
                        assert forall|j: int|
                            mid <= j < self@.len() implies (#[trigger] F::spec_key(self@[j]).cmp_spec(
                            key,
                        )) == Ordering::Greater by {
                            if mid < j <= high {
                                assert(F::spec_key(self@[mid as int]).cmp_spec(&F::spec_key(self@[j]))
                                    != Ordering::Greater);
                            }
                        }
                    }
                    if mid == 0 {
                        return Err((0, None));
                    }
                    high = mid - 1;
                    if high < low {
                        proof {
                            assert(self.live_slot_ok(mid as int));
                            assert(self.live_slot_ok(mid - 1));
                        }
                        let pred = match self.main_memory[cursor].prev {
                            Some(pv) => pv,
                            None => {
                                proof {
                                    assert(false);
                                }
                                0
                            },
                        };
                        return Err((low, Some(pred)));
                    }
                },
            }
        }
        Err((low, Some(cursor)))
    }

    /// Binary search by a projected key over a sequence whose logical order
    /// is already sorted by that key.  Returns `Ok` with the logical index of
    /// an element carrying `key`, or `Err` with the logical index at which
    /// `key` would have to be inserted to keep the order sorted.
    pub fn binary_search_by_key<K: Ord, F: KeyOf<T, K>>(&self, key: &K, key_of: F) -> (r: Result<
        usize,
        usize,
    >)
        requires
            self.wf(),
            cmp_reliable::<K>(),
            sorted_by_key::<T, K, F>(self@),
        ensures
            match r {
                Ok(vi) => vi < self@.len() && F::spec_key(self@[vi as int]) == *key,
                Err(ip) => {
                    &&& ip <= self@.len()
                    &&& forall|j: int|
                        0 <= j < ip ==> (#[trigger] F::spec_key(self@[j]).cmp_spec(key))
                            == Ordering::Less
                    &&& forall|j: int|
                        ip <= j < self@.len() ==> (#[trigger] F::spec_key(self@[j]).cmp_spec(key))
                            == Ordering::Greater
                    &&& forall|j: int| 0 <= j < self@.len() ==> (#[trigger] F::spec_key(self@[j]))
                        != *key
                },
            },
    {
        let r = self.locate_by_key(key, key_of);
        match r {
            Ok((vi, _slot)) => Ok(vi),
            Err((ip, _pred)) => {
                proof {
                    lemma_cmp_reliable_facts::<K>();
                    assert forall|j: int|
                        0 <= j < self@.len() implies (#[trigger] F::spec_key(self@[j]))
                        != *key by {
                        assert(F::spec_key(self@[j]).cmp_spec(key) != Ordering::Equal);
                    }
                }
                Err(ip)
            },
        }
    }

    /// Binary search for an element equal to `key` in a sequence that is
    /// already sorted.
    pub fn binary_search(&self, key: &T) -> (r: Result<usize, usize>) where T: Ord
        requires
            self.wf(),
            cmp_reliable::<T>(),
            sorted_by_key::<T, T, IdentityKey>(self@),
        ensures
            match r {
                Ok(vi) => vi < self@.len() && self@[vi as int] == *key,
                Err(ip) => {
                    &&& ip <= self@.len()
                    &&& forall|j: int|
                        0 <= j < ip ==> (#[trigger] self@[j].cmp_spec(key)) == Ordering::Less
                    &&& forall|j: int|
                        ip <= j < self@.len() ==> (#[trigger] self@[j].cmp_spec(key))
                            == Ordering::Greater
                    &&& forall|j: int| 0 <= j < self@.len() ==> (#[trigger] self@[j]) != *key
                },
            },
    {
        let r = self.binary_search_by_key(key, IdentityKey);
        proof {
            match r {
                Ok(vi) => {
                    assert(<IdentityKey as KeyOf<T, T>>::spec_key(self@[vi as int]) == *key);
                },
                Err(ip) => {
                    assert forall|j: int| 0 <= j < ip implies (#[trigger] self@[j].cmp_spec(key))
                        == Ordering::Less by {
                        assert(<IdentityKey as KeyOf<T, T>>::spec_key(self@[j]).cmp_spec(key)
                            == Ordering::Less);
                    }
                    assert forall|j: int|
                        ip <= j < self@.len() implies (#[trigger] self@[j].cmp_spec(key))
                        == Ordering::Greater by {
                        assert(<IdentityKey as KeyOf<T, T>>::spec_key(self@[j]).cmp_spec(key)
                            == Ordering::Greater);
                    }
                    assert forall|j: int| 0 <= j < self@.len() implies (#[trigger] self@[j])
                        != *key by {
                        assert(<IdentityKey as KeyOf<T, T>>::spec_key(self@[j]) != *key);
                    }
                },
            }
        }
        r
    }

    /// Number of live elements.
    pub fn len(&self) -> (r: usize)
        requires
            self.wf(),
        ensures
            r == self@.len(),
    {
        self.len
    }

    /// The fixed capacity `N` the structure was built with.
    pub fn capacity(&self) -> (r: usize)
        ensures
            r == N,
    {
        N
    }
}

} // verus!
