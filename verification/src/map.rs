//! An ordered map layered on the arena-backed sequence: entries are kept in
//! strictly increasing key order, and keys are located with the
//! index-translating binary search.

use core::cmp::Ordering;
use vstd::prelude::*;
use vstd::std_specs::cmp::OrdSpec;

use crate::EntryKey;
use crate::KeyOf;
use crate::StackError;
use crate::StackStructure;
use crate::cmp_reliable;
use crate::lemma_cmp_reliable_facts;
use crate::sorted_by_key;

verus! {

/// The keys of the entry sequence are strictly increasing.
pub open spec fn sorted_keys<K: Ord, V>(s: Seq<(K, V)>) -> bool {
    forall|i: int, j: int|
        0 <= i < j < s.len() ==> (#[trigger] s[i].0.cmp_spec(&s[j].0)) == Ordering::Less
}

/// Whether some entry carries the key `k`.
pub open spec fn map_has_key<K: Ord, V>(s: Seq<(K, V)>, k: K) -> bool {
    exists|i: int| 0 <= i < s.len() && s[i].0 == k
}

/// The value of the first entry carrying the key `k`, if any.
pub open spec fn map_lookup<K: Ord, V>(s: Seq<(K, V)>, k: K) -> Option<V>
    decreases s.len(),
{
    if s.len() == 0 {
        None
    } else if s[0].0 == k {
        Some(s[0].1)
    } else {
        map_lookup(s.subrange(1, s.len() as int), k)
    }
}

/// Entry insertion into a key-sorted sequence: overwrite the entry whose key
/// compares equal, or splice a new entry in at its sorted position.
pub open spec fn sorted_insert<K: Ord, V>(s: Seq<(K, V)>, k: K, v: V) -> Seq<(K, V)>
    decreases s.len(),
{
    if s.len() == 0 {
        seq![(k, v)]
    } else {
        match k.cmp_spec(&s[0].0) {
            Ordering::Less => seq![(k, v)] + s,
            Ordering::Equal => seq![(k, v)] + s.subrange(1, s.len() as int),
            Ordering::Greater => seq![s[0]] + sorted_insert(s.subrange(1, s.len() as int), k, v),
        }
    }
}

/// Entry removal from a key-sorted sequence: drop the entry whose key
/// compares equal, if there is one.
pub open spec fn sorted_remove<K: Ord, V>(s: Seq<(K, V)>, k: K) -> Seq<(K, V)>
    decreases s.len(),
{
    if s.len() == 0 {
        s
    } else if k.cmp_spec(&s[0].0) == Ordering::Equal {
        s.subrange(1, s.len() as int)
    } else {
        seq![s[0]] + sorted_remove(s.subrange(1, s.len() as int), k)
    }
}

/// Strictly sorted keys, read through the `EntryKey` projection, are sorted
/// in the weak sense the binary search asks for.
proof fn lemma_entry_sorted<K: Ord, V>(s: Seq<(K, V)>)
    requires
        sorted_keys(s),
    ensures
        sorted_by_key::<(K, V), K, EntryKey>(s),
{
    assert forall|i: int, j: int|
        0 <= i < j < s.len() implies (#[trigger] <EntryKey as KeyOf<(K, V), K>>::spec_key(
        s[i],
    ).cmp_spec(&<EntryKey as KeyOf<(K, V), K>>::spec_key(s[j]))) != Ordering::Greater by {
        assert(<EntryKey as KeyOf<(K, V), K>>::spec_key(s[i]) == s[i].0);
        assert(<EntryKey as KeyOf<(K, V), K>>::spec_key(s[j]) == s[j].0);
        assert(s[i].0.cmp_spec(&s[j].0) == Ordering::Less);
    }
}

/// When an entry at position `i` already carries `k`, `sorted_insert`
/// overwrites exactly that entry.
proof fn lemma_sorted_insert_is_update<K: Ord, V>(s: Seq<(K, V)>, k: K, v: V, i: int)
    requires
        cmp_reliable::<K>(),
        sorted_keys(s),
        0 <= i < s.len(),
        s[i].0 == k,
    ensures
        sorted_insert(s, k, v) == s.update(i, (k, v)),
    decreases s.len(),
{
    lemma_cmp_reliable_facts::<K>();
    let s1 = s.subrange(1, s.len() as int);
    if i == 0 {
        assert(k.cmp_spec(&s[0].0) == Ordering::Equal);
        assert(sorted_insert(s, k, v) =~= s.update(0, (k, v)));
    } else {
        assert(s[0].0.cmp_spec(&s[i].0) == Ordering::Less);
        assert(k.cmp_spec(&s[0].0) == Ordering::Greater);
        assert(sorted_keys::<K, V>(s1)) by {
            assert forall|a: int, b: int|
                0 <= a < b < s1.len() implies (#[trigger] s1[a].0.cmp_spec(&s1[b].0))
                == Ordering::Less by {
                assert(s[a + 1].0.cmp_spec(&s[b + 1].0) == Ordering::Less);
            }
        }
        lemma_sorted_insert_is_update(s1, k, v, i - 1);
        assert(sorted_insert(s, k, v) =~= s.update(i, (k, v)));
    }
}

/// When every key before position `i` compares below `k` and every key from
/// `i` on compares above it, `sorted_insert` splices the new entry in at `i`.
proof fn lemma_sorted_insert_is_insert<K: Ord, V>(s: Seq<(K, V)>, k: K, v: V, i: int)
    requires
        cmp_reliable::<K>(),
        sorted_keys(s),
        0 <= i <= s.len(),
        forall|j: int| 0 <= j < i ==> (#[trigger] s[j].0.cmp_spec(&k)) == Ordering::Less,
        forall|j: int| i <= j < s.len() ==> (#[trigger] s[j].0.cmp_spec(&k)) == Ordering::Greater,
    ensures
        sorted_insert(s, k, v) == s.insert(i, (k, v)),
    decreases s.len(),
{
    lemma_cmp_reliable_facts::<K>();
    let s1 = s.subrange(1, s.len() as int);
    if s.len() == 0 {
        assert(sorted_insert(s, k, v) =~= s.insert(0, (k, v)));
    } else if i == 0 {
        assert(s[0].0.cmp_spec(&k) == Ordering::Greater);
        assert(k.cmp_spec(&s[0].0) == Ordering::Less);
        assert(sorted_insert(s, k, v) =~= s.insert(0, (k, v)));
    } else {
        assert(s[0].0.cmp_spec(&k) == Ordering::Less);
        assert(k.cmp_spec(&s[0].0) == Ordering::Greater);
        assert(sorted_keys::<K, V>(s1)) by {
            assert forall|a: int, b: int|
                0 <= a < b < s1.len() implies (#[trigger] s1[a].0.cmp_spec(&s1[b].0))
                == Ordering::Less by {
                assert(s[a + 1].0.cmp_spec(&s[b + 1].0) == Ordering::Less);
            }
        }
        assert forall|j: int| 0 <= j < i - 1 implies (#[trigger] s1[j].0.cmp_spec(&k))
            == Ordering::Less by {
            assert(s[j + 1].0.cmp_spec(&k) == Ordering::Less);
        }
        assert forall|j: int| i - 1 <= j < s1.len() implies (#[trigger] s1[j].0.cmp_spec(&k))
            == Ordering::Greater by {
            assert(s[j + 1].0.cmp_spec(&k) == Ordering::Greater);
        }
        lemma_sorted_insert_is_insert(s1, k, v, i - 1);
        assert(sorted_insert(s, k, v) =~= s.insert(i, (k, v)));
    }
}

/// Splicing a strictly smaller/greater-separated key in at position `i`
/// keeps the keys strictly sorted.
proof fn lemma_sorted_keys_insert<K: Ord, V>(s: Seq<(K, V)>, k: K, v: V, i: int)
    requires
        cmp_reliable::<K>(),
        sorted_keys(s),
        0 <= i <= s.len(),
        forall|j: int| 0 <= j < i ==> (#[trigger] s[j].0.cmp_spec(&k)) == Ordering::Less,
        forall|j: int| i <= j < s.len() ==> (#[trigger] s[j].0.cmp_spec(&k)) == Ordering::Greater,
    ensures
        sorted_keys(s.insert(i, (k, v))),
{
    lemma_cmp_reliable_facts::<K>();
    let t = s.insert(i, (k, v));
    assert forall|a: int, b: int|
        0 <= a < b < t.len() implies (#[trigger] t[a].0.cmp_spec(&t[b].0)) == Ordering::Less by {
        if a < i && b == i {
            assert(s[a].0.cmp_spec(&k) == Ordering::Less);
        } else if a == i && b > i {
            assert(s[b - 1].0.cmp_spec(&k) == Ordering::Greater);
        } else if a < i && b > i {
            assert(s[a].0.cmp_spec(&s[b - 1].0) == Ordering::Less);
        } else if a < i && b < i {
            assert(s[a].0.cmp_spec(&s[b].0) == Ordering::Less);
        } else if a > i && b > i {
            assert(s[a - 1].0.cmp_spec(&s[b - 1].0) == Ordering::Less);
        }
    }
}

/// Overwriting the value at a key's entry keeps the keys strictly sorted.
proof fn lemma_sorted_keys_update<K: Ord, V>(s: Seq<(K, V)>, k: K, v: V, i: int)
    requires
        sorted_keys(s),
        0 <= i < s.len(),
        s[i].0 == k,
    ensures
        sorted_keys(s.update(i, (k, v))),
{
    let t = s.update(i, (k, v));
    assert forall|a: int, b: int|
        0 <= a < b < t.len() implies (#[trigger] t[a].0.cmp_spec(&t[b].0)) == Ordering::Less by {
        assert(t[a].0 == s[a].0);
        assert(t[b].0 == s[b].0);
        assert(s[a].0.cmp_spec(&s[b].0) == Ordering::Less);
    }
}

/// When the entry at position `i` carries `k`, `sorted_remove` removes
/// exactly that entry, and the remainder stays strictly sorted.
proof fn lemma_sorted_remove_is_remove<K: Ord, V>(s: Seq<(K, V)>, k: K, i: int)
    requires
        cmp_reliable::<K>(),
        sorted_keys(s),
        0 <= i < s.len(),
        s[i].0 == k,
    ensures
        sorted_remove(s, k) == s.remove(i),
        sorted_keys(s.remove(i)),
    decreases s.len(),
{
    lemma_cmp_reliable_facts::<K>();
    let s1 = s.subrange(1, s.len() as int);
    assert forall|a: int, b: int|
        0 <= a < b < s.remove(i).len() implies (#[trigger] s.remove(i)[a].0.cmp_spec(
        &s.remove(i)[b].0,
    )) == Ordering::Less by {
        let a0: int = if a < i {
            a
        } else {
            a + 1
        };
        let b0: int = if b < i {
            b
        } else {
            b + 1
        };
        assert(s[a0].0.cmp_spec(&s[b0].0) == Ordering::Less);
    }
    if i == 0 {
        assert(k.cmp_spec(&s[0].0) == Ordering::Equal);
        assert(sorted_remove(s, k) =~= s.remove(0));
    } else {
        assert(s[0].0.cmp_spec(&s[i].0) == Ordering::Less);
        assert(k.cmp_spec(&s[0].0) == Ordering::Greater);
        assert(sorted_keys::<K, V>(s1)) by {
            assert forall|a: int, b: int|
                0 <= a < b < s1.len() implies (#[trigger] s1[a].0.cmp_spec(&s1[b].0))
                == Ordering::Less by {
                assert(s[a + 1].0.cmp_spec(&s[b + 1].0) == Ordering::Less);
            }
        }
        lemma_sorted_remove_is_remove(s1, k, i - 1);
        assert(sorted_remove(s, k) =~= s.remove(i));
    }
}

/// When no entry's key compares equal to `k`, `sorted_remove` changes
/// nothing.
proof fn lemma_sorted_remove_absent<K: Ord, V>(s: Seq<(K, V)>, k: K)
    requires
        forall|j: int|
            0 <= j < s.len() ==> (#[trigger] s[j].0.cmp_spec(&k)) != Ordering::Equal,
        cmp_reliable::<K>(),
    ensures
        sorted_remove(s, k) == s,
    decreases s.len(),
{
    lemma_cmp_reliable_facts::<K>();
    if s.len() > 0 {
        let s1 = s.subrange(1, s.len() as int);
        assert(s[0].0.cmp_spec(&k) != Ordering::Equal);
        assert(k.cmp_spec(&s[0].0) != Ordering::Equal);
        assert forall|j: int|
            0 <= j < s1.len() implies (#[trigger] s1[j].0.cmp_spec(&k)) != Ordering::Equal by {
            assert(s[j + 1].0.cmp_spec(&k) != Ordering::Equal);
        }
        lemma_sorted_remove_absent(s1, k);
        assert(sorted_remove(s, k) =~= s);
    }
}

/// In a strictly key-sorted sequence, the entry at position `i` carrying `k`
/// is what lookup finds.
proof fn lemma_map_lookup_at<K: Ord, V>(s: Seq<(K, V)>, k: K, i: int)
    requires
        cmp_reliable::<K>(),
        sorted_keys(s),
        0 <= i < s.len(),
        s[i].0 == k,
    ensures
        map_lookup(s, k) == Some(s[i].1),
    decreases s.len(),
{
    lemma_cmp_reliable_facts::<K>();
    let s1 = s.subrange(1, s.len() as int);
    if i > 0 {
        assert(s[0].0.cmp_spec(&s[i].0) == Ordering::Less);
        assert(s[0].0 != k);
        assert(sorted_keys::<K, V>(s1)) by {
            assert forall|a: int, b: int|
                0 <= a < b < s1.len() implies (#[trigger] s1[a].0.cmp_spec(&s1[b].0))
                == Ordering::Less by {
                assert(s[a + 1].0.cmp_spec(&s[b + 1].0) == Ordering::Less);
            }
        }
        lemma_map_lookup_at(s1, k, i - 1);
    }
}

/// When no entry carries `k`, lookup finds nothing.
proof fn lemma_map_lookup_absent<K: Ord, V>(s: Seq<(K, V)>, k: K)
    requires
        forall|j: int| 0 <= j < s.len() ==> (#[trigger] s[j].0) != k,
    ensures
        map_lookup(s, k) == None::<V>,
    decreases s.len(),
{
    if s.len() > 0 {
        let s1 = s.subrange(1, s.len() as int);
        assert(s[0].0 != k);
        assert forall|j: int| 0 <= j < s1.len() implies (#[trigger] s1[j].0) != k by {
            assert(s[j + 1].0 != k);
        }
        lemma_map_lookup_absent(s1, k);
    }
}

/// What `sorted_insert` does to a strictly key-sorted sequence: the result
/// is still strictly sorted, looking the key up afterwards yields the new
/// value, every key of the result was already present or is the inserted
/// one, the inserted key is present, and the length grows exactly when the
/// key was absent.
pub proof fn lemma_sorted_insert_props<K: Ord, V>(s: Seq<(K, V)>, k: K, v: V)
    requires
        cmp_reliable::<K>(),
        sorted_keys(s),
    ensures
        sorted_keys(sorted_insert(s, k, v)),
        map_lookup(sorted_insert(s, k, v), k) == Some(v),
        map_has_key(sorted_insert(s, k, v), k),
        forall|t: int|
            0 <= t < sorted_insert(s, k, v).len() ==> (#[trigger] sorted_insert(s, k, v)[t].0) == k
                || map_has_key(s, sorted_insert(s, k, v)[t].0),
        map_has_key(s, k) ==> sorted_insert(s, k, v).len() == s.len(),
        !map_has_key(s, k) ==> sorted_insert(s, k, v).len() == s.len() + 1,
    decreases s.len(),
{
    lemma_cmp_reliable_facts::<K>();
    let r = sorted_insert(s, k, v);
    if s.len() == 0 {
        assert(r == seq![(k, v)]);
        assert(r[0].0 == k);
        assert(map_has_key(r, k)) by {
            assert(0 <= 0 < r.len() && r[0].0 == k);
        }
        assert(!map_has_key(s, k));
    } else {
        let s1 = s.subrange(1, s.len() as int);
        assert(sorted_keys::<K, V>(s1)) by {
            assert forall|a: int, b: int|
                0 <= a < b < s1.len() implies (#[trigger] s1[a].0.cmp_spec(&s1[b].0))
                == Ordering::Less by {
                assert(s[a + 1].0.cmp_spec(&s[b + 1].0) == Ordering::Less);
            }
        }
        match k.cmp_spec(&s[0].0) {
            Ordering::Less => {
                assert(r == seq![(k, v)] + s);
                assert(r[0].0 == k);
                assert(map_has_key(r, k)) by {
                    assert(r[0].0 == k);
                }
                assert(sorted_keys(r)) by {
                    assert forall|a: int, b: int|
                        0 <= a < b < r.len() implies (#[trigger] r[a].0.cmp_spec(&r[b].0))
                        == Ordering::Less by {
                        if a == 0 {
                            if b > 1 {
                                assert(s[0].0.cmp_spec(&s[b - 1].0) == Ordering::Less);
                            }
                        } else {
                            assert(s[a - 1].0.cmp_spec(&s[b - 1].0) == Ordering::Less);
                        }
                    }
                }
                assert(!map_has_key(s, k)) by {
                    assert forall|i: int| 0 <= i < s.len() implies (#[trigger] s[i].0) != k by {
                        if i > 0 {
                            assert(s[0].0.cmp_spec(&s[i].0) == Ordering::Less);
                        }
                    }
                }
                assert forall|t: int|
                    0 <= t < r.len() implies (#[trigger] r[t].0) == k || map_has_key(s, r[t].0) by {
                    if t > 0 {
                        assert(r[t].0 == s[t - 1].0);
                        assert(map_has_key(s, r[t].0)) by {
                            assert(s[t - 1].0 == r[t].0);
                        }
                    }
                }
            },
            Ordering::Equal => {
                assert(k == s[0].0);
                assert(r == seq![(k, v)] + s1);
                assert(r[0].0 == k);
                assert(map_has_key(r, k)) by {
                    assert(r[0].0 == k);
                }
                assert(map_has_key(s, k)) by {
                    assert(s[0].0 == k);
                }
                assert(sorted_keys(r)) by {
                    assert forall|a: int, b: int|
                        0 <= a < b < r.len() implies (#[trigger] r[a].0.cmp_spec(&r[b].0))
                        == Ordering::Less by {
                        if a == 0 {
                            assert(s[0].0.cmp_spec(&s[b].0) == Ordering::Less);
                        } else {
                            assert(s[a].0.cmp_spec(&s[b].0) == Ordering::Less);
                        }
                    }
                }
                assert forall|t: int|
                    0 <= t < r.len() implies (#[trigger] r[t].0) == k || map_has_key(s, r[t].0) by {
                    if t > 0 {
                        assert(r[t].0 == s[t].0);
                        assert(map_has_key(s, r[t].0)) by {
                            assert(s[t].0 == r[t].0);
                        }
                    }
                }
            },
            Ordering::Greater => {
                let r1 = sorted_insert(s1, k, v);
                lemma_sorted_insert_props(s1, k, v);
                assert(r == seq![s[0]] + r1);
                assert(s[0].0.cmp_spec(&k) == Ordering::Less);
                assert(s[0].0 != k);
                // every key of the tail result sits above the head key
                assert forall|t: int|
                    0 <= t < r1.len() implies s[0].0.cmp_spec(&(#[trigger] r1[t].0))
                    == Ordering::Less by {
                    if r1[t].0 == k {
                    } else {
                        assert(map_has_key(s1, r1[t].0));
                        let j = choose|j: int| 0 <= j < s1.len() && s1[j].0 == r1[t].0;
                        assert(s[0].0.cmp_spec(&s[j + 1].0) == Ordering::Less);
                    }
                }
                assert(sorted_keys(r)) by {
                    assert forall|a: int, b: int|
                        0 <= a < b < r.len() implies (#[trigger] r[a].0.cmp_spec(&r[b].0))
                        == Ordering::Less by {
                        if a == 0 {
                            assert(s[0].0.cmp_spec(&r1[b - 1].0) == Ordering::Less);
                        } else {
                            assert(r1[a - 1].0.cmp_spec(&r1[b - 1].0) == Ordering::Less);
                        }
                    }
                }
                assert(map_lookup(r, k) == Some(v)) by {
                    assert(r[0].0 != k);
                    assert(r.subrange(1, r.len() as int) =~= r1);
                }
                assert(map_has_key(r, k)) by {
                    let j = choose|j: int| 0 <= j < r1.len() && r1[j].0 == k;
                    assert(r[j + 1].0 == k);
                }
                assert(map_has_key(s, k) <==> map_has_key(s1, k)) by {
                    if map_has_key(s, k) {
                        let i = choose|i: int| 0 <= i < s.len() && s[i].0 == k;
                        assert(i != 0);
                        assert(s1[i - 1].0 == k);
                        assert(map_has_key(s1, k));
                    }
                    if map_has_key(s1, k) {
                        let i = choose|i: int| 0 <= i < s1.len() && s1[i].0 == k;
                        assert(s[i + 1].0 == k);
                        assert(map_has_key(s, k));
                    }
                }
                assert forall|t: int|
                    0 <= t < r.len() implies (#[trigger] r[t].0) == k || map_has_key(s, r[t].0) by {
                    if t == 0 {
                        assert(map_has_key(s, r[0].0)) by {
                            assert(s[0].0 == r[0].0);
                        }
                    } else if r1[t - 1].0 != k {
                        assert(map_has_key(s1, r1[t - 1].0));
                        let j = choose|j: int| 0 <= j < s1.len() && s1[j].0 == r1[t - 1].0;
                        assert(map_has_key(s, r[t].0)) by {
                            assert(s[j + 1].0 == r[t].0);
                        }
                    }
                }
            },
        }
    }
}

/// The map built by inserting the entries of `s` left to right into an empty
/// map.
pub open spec fn map_from_seq<K: Ord, V>(s: Seq<(K, V)>) -> Seq<(K, V)>
    decreases s.len(),
{
    if s.len() == 0 {
        Seq::empty()
    } else {
        sorted_insert(map_from_seq(s.drop_last()), s.last().0, s.last().1)
    }
}

/// Idempotent overwrite: inserting under one key twice leaves the entry
/// count where the first insertion put it, and a lookup afterwards yields
/// the second value.
pub proof fn lemma_insert_overwrite<K: Ord, V>(s: Seq<(K, V)>, k: K, v1: V, v2: V)
    requires
        cmp_reliable::<K>(),
        sorted_keys(s),
    ensures
        sorted_insert(sorted_insert(s, k, v1), k, v2).len() == sorted_insert(s, k, v1).len(),
        map_lookup(sorted_insert(sorted_insert(s, k, v1), k, v2), k) == Some(v2),
{
    lemma_sorted_insert_props(s, k, v1);
    lemma_sorted_insert_props(sorted_insert(s, k, v1), k, v2);
}

/// A fixed-capacity ordered map: key/value entries stored in an arena-backed
/// sequence whose logical order always equals ascending key order.
pub struct StackMap<K: Ord, V, const N: usize> {
    pub(crate) ss: StackStructure<(K, V), N>,
}

impl<K: Ord, V, const N: usize> View for StackMap<K, V, N> {
    type V = Seq<(K, V)>;

    closed spec fn view(&self) -> Seq<(K, V)> {
        self.ss@
    }
}

impl<K: Ord, V, const N: usize> StackMap<K, V, N> {
    /// The underlying sequence is well-formed and its keys are strictly
    /// increasing.
    pub closed spec fn wf(self) -> bool {
        &&& self.ss.wf()
        &&& sorted_keys(self.ss@)
    }

    /// The keys of the map, in logical order.
    pub open spec fn spec_keys(self) -> Seq<K> {
        Seq::new(self@.len(), |i: int| self@[i].0)
    }

    /// Map sortedness: whatever operations built the map, walking it from
    /// the front yields strictly increasing keys.
    pub proof fn lemma_keys_sorted(self)
        requires
            self.wf(),
        ensures
            forall|i: int, j: int|
                0 <= i < j < self.spec_keys().len() ==> (#[trigger] self.spec_keys()[i].cmp_spec(
                    &self.spec_keys()[j],
                )) == Ordering::Less,
    {
    }

    /// Builds an empty map.
    pub fn new() -> (r: Self)
        ensures
            r.wf(),
            r@ == Seq::<(K, V)>::empty(),
    {
        Self { ss: StackStructure::new() }
    }

    /// Number of entries.
    pub fn len(&self) -> (r: usize)
        requires
            self.wf(),
        ensures
            r == self@.len(),
    {
        self.ss.len()
    }

    /// Inserts `key` with `value`, keeping the entries sorted by key.  When
    /// the key is already present its entry is overwritten in place and the
    /// previous value returned; otherwise a new entry is spliced in directly
    /// after the predecessor the search located, which fails with
    /// `CapacityExceeded` when the arena is full.
    pub fn insert(&mut self, key: K, value: V) -> (r: Result<Option<V>, StackError>)
        requires
            old(self).wf(),
            cmp_reliable::<K>(),
        ensures
            final(self).wf(),
            match r {
                Ok(prev) => {
                    &&& final(self)@ == sorted_insert(old(self)@, key, value)
                    &&& map_lookup(final(self)@, key) == Some(value)
                    &&& prev is Some <==> map_has_key(old(self)@, key)
                    &&& (match prev {
                        Some(v) => map_lookup(old(self)@, key) == Some(v) && final(self)@.len()
                            == old(self)@.len(),
                        None => old(self)@.len() < N && final(self)@.len() == old(self)@.len() + 1,
                    })
                },
                Err(e) => {
                    &&& e == StackError::CapacityExceeded
                    &&& !map_has_key(old(self)@, key)
                    &&& old(self)@.len() == N
                    &&& *final(self) == *old(self)
                },
            },
    {
        let ghost s0 = self.ss@;
        proof {
            lemma_cmp_reliable_facts::<K>();
            lemma_entry_sorted::<K, V>(s0);
        }
        match self.ss.locate_by_key(&key, EntryKey) {
            Ok((vi, slot)) => {
                proof {
                    assert(<EntryKey as KeyOf<(K, V), K>>::spec_key(s0[vi as int]) == s0[vi as int].0);
                    assert(s0[vi as int].0 == key);
                    lemma_sorted_insert_is_update(s0, key, value, vi as int);
                    lemma_sorted_keys_update(s0, key, value, vi as int);
                    lemma_map_lookup_at(s0, key, vi as int);
                    lemma_map_lookup_at(s0.update(vi as int, (key, value)), key, vi as int);
                }
                let old_pair = self.ss.replace_at(slot, (key, value), Ghost(vi as int));
                proof {
                    assert(map_has_key(s0, key)) by {
                        assert(0 <= (vi as int) < s0.len() && s0[vi as int].0 == key);
                    }
                }
                Ok(Some(old_pair.1))
            },
            Err((ip, pred_opt)) => {
                proof {
                    assert forall|j: int| 0 <= j < s0.len() implies (#[trigger] s0[j].0) != key by {
                        assert(<EntryKey as KeyOf<(K, V), K>>::spec_key(s0[j]) == s0[j].0);
                        if j < ip {
                            assert(s0[j].0.cmp_spec(&key) == Ordering::Less);
                        } else {
                            assert(s0[j].0.cmp_spec(&key) == Ordering::Greater);
                        }
                    }
                    assert(!map_has_key(s0, key));
                }
                if self.ss.len() == N {
                    return Err(StackError::CapacityExceeded);
                }
                proof {
                    assert forall|j: int| 0 <= j < ip implies (#[trigger] s0[j].0.cmp_spec(&key))
                        == Ordering::Less by {
                        assert(<EntryKey as KeyOf<(K, V), K>>::spec_key(s0[j]) == s0[j].0);
                    }
                    assert forall|j: int|
                        ip <= j < s0.len() implies (#[trigger] s0[j].0.cmp_spec(&key))
                        == Ordering::Greater by {
                        assert(<EntryKey as KeyOf<(K, V), K>>::spec_key(s0[j]) == s0[j].0);
                    }
                    lemma_sorted_insert_is_insert(s0, key, value, ip as int);
                    lemma_sorted_keys_insert(s0, key, value, ip as int);
                    lemma_map_lookup_at(s0.insert(ip as int, (key, value)), key, ip as int);
                }
                match pred_opt {
                    None => {
                        self.ss.insert_front((key, value));
                        Ok(None)
                    },
                    Some(pred_slot) => {
                        self.ss.insert_after_pos(pred_slot, (key, value), Ghost(ip as int - 1));
                        Ok(None)
                    },
                }
            },
        }
    }

    /// Builds a map by inserting the entries of `items` left to right: a
    /// later entry overwrites an earlier one with the same key.  Capacity
    /// can never run out, because at most `M <= N` distinct keys arrive.
    pub fn from_iter<const M: usize>(items: [(K, V); M]) -> (r: Self) where K: Copy, V: Copy
        requires
            M <= N,
            cmp_reliable::<K>(),
        ensures
            r.wf(),
            r@ == map_from_seq(items@),
    {
        let mut map = Self::new();
        for i in 0..M
            invariant
                M <= N,
                cmp_reliable::<K>(),
                map.wf(),
                map@ == map_from_seq(items@.take(i as int)),
                map@.len() <= i,
        {
            let e = items[i];
            let res = map.insert(e.0, e.1);
            proof {
                assert(res is Ok);
                assert(items@.take(i + 1).drop_last() =~= items@.take(i as int));
                assert(items@.take(i + 1).last() == items@[i as int]);
            }
        }
        proof {
            assert(items@.take(M as int) =~= items@);
        }
        map
    }

    /// Looks up the value stored under `key`.
    pub fn get(&self, key: &K) -> (r: Option<&V>)
        requires
            self.wf(),
            cmp_reliable::<K>(),
        ensures
            match r {
                Some(v) => map_has_key(self@, *key) && map_lookup(self@, *key) == Some(*v),
                None => !map_has_key(self@, *key) && map_lookup(self@, *key) == None::<V>,
            },
    {
        proof {
            lemma_cmp_reliable_facts::<K>();
            lemma_entry_sorted::<K, V>(self.ss@);
        }
        match self.ss.locate_by_key(key, EntryKey) {
            Ok((vi, slot)) => {
                proof {
                    assert(<EntryKey as KeyOf<(K, V), K>>::spec_key(self.ss@[vi as int])
                        == self.ss@[vi as int].0);
                    lemma_map_lookup_at(self.ss@, *key, vi as int);
                    assert(map_has_key(self.ss@, *key)) by {
                        assert(0 <= (vi as int) < self.ss@.len() && self.ss@[vi as int].0 == *key);
                    }
                }
                let pair = self.ss.element_at(slot, Ghost(vi as int));
                Some(&pair.1)
            },
            Err((ip, _pred)) => {
                proof {
                    assert forall|j: int|
                        0 <= j < self.ss@.len() implies (#[trigger] self.ss@[j].0) != *key by {
                        assert(<EntryKey as KeyOf<(K, V), K>>::spec_key(self.ss@[j])
                            == self.ss@[j].0);
                        if j < ip {
                            assert(self.ss@[j].0.cmp_spec(key) == Ordering::Less);
                        } else {
                            assert(self.ss@[j].0.cmp_spec(key) == Ordering::Greater);
                        }
                    }
                    lemma_map_lookup_absent::<K, V>(self.ss@, *key);
                }
                None
            },
        }
    }

    /// Borrows the value stored under `key` mutably; writing through the
    /// reference replaces exactly that entry's value, leaving its key and
    /// every other entry untouched.
    pub fn get_mut(&mut self, key: &K) -> (r: Option<&mut V>)
        requires
            old(self).wf(),
            cmp_reliable::<K>(),
        ensures
            match r {
                Some(m) => {
                    &&& map_has_key(old(self)@, *key)
                    &&& map_lookup(old(self)@, *key) == Some(*m)
                    &&& final(self).wf()
                    &&& exists|i: int|
                        0 <= i < old(self)@.len() && old(self)@[i].0 == *key && final(self)@
                            =~= old(self)@.update(i, (*key, *final(m)))
                },
                None => !map_has_key(old(self)@, *key) && map_lookup(old(self)@, *key)
                    == None::<V> && *final(self) == *old(self),
            },
    {
        let ghost s0 = self.ss@;
        proof {
            lemma_cmp_reliable_facts::<K>();
            lemma_entry_sorted::<K, V>(s0);
        }
        match self.ss.locate_by_key(key, EntryKey) {
            Ok((vi, slot)) => {
                proof {
                    assert(<EntryKey as KeyOf<(K, V), K>>::spec_key(s0[vi as int]) == s0[vi as int].0);
                    lemma_map_lookup_at(s0, *key, vi as int);
                    assert(map_has_key(s0, *key)) by {
                        assert(0 <= (vi as int) < s0.len() && s0[vi as int].0 == *key);
                    }
                    assert forall|w: V| sorted_keys(s0.update(vi as int, (*key, w))) by {
                        lemma_sorted_keys_update(s0, *key, w, vi as int);
                    }
                }
                let pair = self.ss.element_mut_at(slot, Ghost(vi as int));
                Some(&mut pair.1)
            },
            Err((ip, _pred)) => {
                proof {
                    assert forall|j: int| 0 <= j < s0.len() implies (#[trigger] s0[j].0) != *key by {
                        assert(<EntryKey as KeyOf<(K, V), K>>::spec_key(s0[j]) == s0[j].0);
                        if j < ip {
                            assert(s0[j].0.cmp_spec(key) == Ordering::Less);
                        } else {
                            assert(s0[j].0.cmp_spec(key) == Ordering::Greater);
                        }
                    }
                    lemma_map_lookup_absent::<K, V>(s0, *key);
                }
                None
            },
        }
    }

    /// Removes the entry stored under `key`, returning its value; the
    /// remaining entries keep their order.
    pub fn remove(&mut self, key: &K) -> (r: Option<V>)
        requires
            old(self).wf(),
            cmp_reliable::<K>(),
        ensures
            final(self).wf(),
            final(self)@ == sorted_remove(old(self)@, *key),
            match r {
                Some(v) => map_has_key(old(self)@, *key) && map_lookup(old(self)@, *key) == Some(v)
                    && final(self)@.len() == old(self)@.len() - 1,
                None => !map_has_key(old(self)@, *key) && map_lookup(old(self)@, *key)
                    == None::<V> && *final(self) == *old(self),
            },
    {
        let ghost s0 = self.ss@;
        proof {
            lemma_cmp_reliable_facts::<K>();
            lemma_entry_sorted::<K, V>(s0);
        }
        match self.ss.locate_by_key(key, EntryKey) {
            Ok((vi, slot)) => {
                proof {
                    assert(<EntryKey as KeyOf<(K, V), K>>::spec_key(s0[vi as int]) == s0[vi as int].0);
                    lemma_sorted_remove_is_remove(s0, *key, vi as int);
                    lemma_map_lookup_at(s0, *key, vi as int);
                    assert(map_has_key(s0, *key)) by {
                        assert(0 <= (vi as int) < s0.len() && s0[vi as int].0 == *key);
                    }
                }
                let pair = self.ss.delete_node(slot, Ghost(vi as int));
                Some(pair.1)
            },
            Err((ip, _pred)) => {
                proof {
                    assert forall|j: int| 0 <= j < s0.len() implies (#[trigger] s0[j].0) != *key by {
                        assert(<EntryKey as KeyOf<(K, V), K>>::spec_key(s0[j]) == s0[j].0);
                        if j < ip {
                            assert(s0[j].0.cmp_spec(key) == Ordering::Less);
                        } else {
                            assert(s0[j].0.cmp_spec(key) == Ordering::Greater);
                        }
                    }
                    assert forall|j: int|
                        0 <= j < s0.len() implies (#[trigger] s0[j].0.cmp_spec(key))
                        != Ordering::Equal by {
                        assert(s0[j].0 != *key);
                    }
                    lemma_sorted_remove_absent(s0, *key);
                    lemma_map_lookup_absent::<K, V>(s0, *key);
                }
                None
            },
        }
    }
}

/// A borrowed iterator over a map's entries, yielding key and value
/// references in ascending key order.
pub struct StackMapIterRef<'a, K: Ord, V, const N: usize> {
    pub(crate) it: crate::iterators::StackStructureIteratorRef<'a, (K, V), N>,
}

impl<'a, K: Ord, V, const N: usize> StackMapIterRef<'a, K, V, N> {
    /// The underlying traversal is intact.
    pub closed spec fn wf(self) -> bool {
        self.it.wf()
    }

    /// The entries not yet yielded, in ascending key order.
    pub closed spec fn remaining(self) -> Seq<(K, V)> {
        self.it.remaining()
    }

    /// How many entries are left.
    pub fn len(&self) -> (r: usize)
        requires
            self.wf(),
        ensures
            r == self.remaining().len(),
    {
        self.it.len()
    }

    /// Yields the front entry of what remains, or nothing once exhausted.
    pub fn next(&mut self) -> (r: Option<(&'a K, &'a V)>)
        requires
            old(self).wf(),
        ensures
            final(self).wf(),
            match r {
                Some(kv) => old(self).remaining().len() > 0 && *kv.0 == old(self).remaining()[0].0
                    && *kv.1 == old(self).remaining()[0].1 && final(self).remaining()
                    == old(self).remaining().drop_first(),
                None => old(self).remaining().len() == 0 && *final(self) == *old(self),
            },
    {
        match self.it.next() {
            Some(pair) => Some((&pair.0, &pair.1)),
            None => None,
        }
    }

    /// Yields the back entry of what remains, or nothing once exhausted.
    pub fn next_back(&mut self) -> (r: Option<(&'a K, &'a V)>)
        requires
            old(self).wf(),
        ensures
            final(self).wf(),
            match r {
                Some(kv) => old(self).remaining().len() > 0 && *kv.0
                    == old(self).remaining().last().0 && *kv.1 == old(self).remaining().last().1
                    && final(self).remaining() == old(self).remaining().drop_last(),
                None => old(self).remaining().len() == 0 && *final(self) == *old(self),
            },
    {
        match self.it.next_back() {
            Some(pair) => Some((&pair.0, &pair.1)),
            None => None,
        }
    }
}

/// A borrowed iterator over a map's keys, in ascending order.
pub struct StackMapKeys<'a, K: Ord, V, const N: usize> {
    pub(crate) it: crate::iterators::StackStructureIteratorRef<'a, (K, V), N>,
}

impl<'a, K: Ord, V, const N: usize> StackMapKeys<'a, K, V, N> {
    /// The underlying traversal is intact.
    pub closed spec fn wf(self) -> bool {
        self.it.wf()
    }

    /// The keys not yet yielded, in ascending order.
    pub closed spec fn remaining(self) -> Seq<K> {
        Seq::new(self.it.remaining().len(), |i: int| self.it.remaining()[i].0)
    }

    /// How many keys are left.
    pub fn len(&self) -> (r: usize)
        requires
            self.wf(),
        ensures
            r == self.remaining().len(),
    {
        self.it.len()
    }

    /// Yields the smallest remaining key, or nothing once exhausted.
    pub fn next(&mut self) -> (r: Option<&'a K>)
        requires
            old(self).wf(),
        ensures
            final(self).wf(),
            match r {
                Some(k) => old(self).remaining().len() > 0 && *k == old(self).remaining()[0]
                    && final(self).remaining() == old(self).remaining().drop_first(),
                None => old(self).remaining().len() == 0 && *final(self) == *old(self),
            },
    {
        match self.it.next() {
            Some(pair) => {
                proof {
                    assert(final(self).remaining() =~= old(self).remaining().drop_first());
                }
                Some(&pair.0)
            },
            None => None,
        }
    }
}

/// A borrowed iterator over a map's values, in ascending key order.
pub struct StackMapValues<'a, K: Ord, V, const N: usize> {
    pub(crate) it: crate::iterators::StackStructureIteratorRef<'a, (K, V), N>,
}

impl<'a, K: Ord, V, const N: usize> StackMapValues<'a, K, V, N> {
    /// The underlying traversal is intact.
    pub closed spec fn wf(self) -> bool {
        self.it.wf()
    }

    /// The values not yet yielded, in ascending key order.
    pub closed spec fn remaining(self) -> Seq<V> {
        Seq::new(self.it.remaining().len(), |i: int| self.it.remaining()[i].1)
    }

    /// How many values are left.
    pub fn len(&self) -> (r: usize)
        requires
            self.wf(),
        ensures
            r == self.remaining().len(),
    {
        self.it.len()
    }

    /// Yields the value under the smallest remaining key, or nothing once
    /// exhausted.
    pub fn next(&mut self) -> (r: Option<&'a V>)
        requires
            old(self).wf(),
        ensures
            final(self).wf(),
            match r {
                Some(v) => old(self).remaining().len() > 0 && *v == old(self).remaining()[0]
                    && final(self).remaining() == old(self).remaining().drop_first(),
                None => old(self).remaining().len() == 0 && *final(self) == *old(self),
            },
    {
        match self.it.next() {
            Some(pair) => {
                proof {
                    assert(final(self).remaining() =~= old(self).remaining().drop_first());
                }
                Some(&pair.1)
            },
            None => None,
        }
    }
}

/// A backward window iterator over a map's entries, yielding windows of
/// key/value reference pairs.
pub struct StackMapRChunks<'a, K: Ord, V, const N: usize, const C: usize> {
    pub(crate) inner: crate::iterators::StackStructureRChunks<'a, (K, V), N, C>,
}

impl<'a, K: Ord, V, const N: usize, const C: usize> StackMapRChunks<'a, K, V, N, C> {
    /// The underlying traversal is intact.
    pub closed spec fn wf(self) -> bool {
        self.inner.wf()
    }

    /// The entries not yet windowed, in ascending key order.
    pub closed spec fn remaining(self) -> Seq<(K, V)> {
        self.inner.remaining()
    }

    /// How many windows are left.
    pub fn len(&self) -> (r: usize)
        requires
            self.wf(),
        ensures
            r == (self.remaining().len() as int) / (C as int) + (
            if (self.remaining().len() as int) % (C as int) == 0 {
                0int
            } else {
                1int
            }),
    {
        self.inner.len()
    }

    /// Yields the backmost window of the remaining entries, as key/value
    /// reference pairs in forward order, or nothing once exhausted.
    pub fn next(&mut self) -> (r: Option<crate::simple::StackSimple<(&'a K, &'a V), C>>)
        requires
            old(self).wf(),
        ensures
            final(self).wf(),
            match r {
                Some(chunk) => {
                    let rem = old(self).remaining();
                    let width = chunk@.len();
                    &&& rem.len() > 0
                    &&& chunk.wf()
                    &&& width == (if rem.len() < C { rem.len() as int } else { C as int })
                    &&& (forall|i: int|
                        0 <= i < width ==> *((#[trigger] chunk@[i]).0) == rem[rem.len() - width
                            + i].0 && *(chunk@[i].1) == rem[rem.len() - width + i].1)
                    &&& final(self).remaining() == rem.take(rem.len() - width)
                },
                None => old(self).remaining().len() == 0 && *final(self) == *old(self),
            },
    {
        match self.inner.next() {
            None => None,
            Some(chunk) => {
                let ghost width = chunk@.len();
                let mut out: crate::simple::StackSimple<(&'a K, &'a V), C> =
                    crate::simple::StackSimple::new();
                let clen = chunk.len();
                let mut i: usize = 0;
                while i < clen
                    invariant
                        chunk.wf(),
                        clen == chunk@.len(),
                        clen <= C,
                        width == chunk@.len(),
                        i <= clen,
                        out.wf(),
                        out@.len() == i,
                        forall|t: int|
                            0 <= t < i ==> (#[trigger] out@[t]).0 == &chunk@[t].0 && out@[t].1
                                == &chunk@[t].1,
                    decreases clen - i,
                {
                    let pair = match chunk.get(i) {
                        Some(p) => *p,
                        None => {
                            proof {
                                assert(false);
                            }
                            vstd::pervasive::unreached()
                        },
                    };
                    let pr = out.push((&pair.0, &pair.1));
                    proof {
                        assert(pr is Ok);
                    }
                    i = i + 1;
                }
                Some(out)
            },
        }
    }
}

/// A lending mutable iterator over a map's values, in ascending key order:
/// each step borrows one value mutably, so no two handed-out references can
/// ever alias, and keys are never touched.
pub struct StackMapValuesMut<'a, K: Ord, V, const N: usize> {
    pub(crate) it: crate::iterators::StackStructureIteratorRefMut<'a, (K, V), N>,
}

impl<'a, K: Ord, V, const N: usize> StackMapValuesMut<'a, K, V, N> {
    /// The underlying traversal is intact.
    pub closed spec fn wf(self) -> bool {
        self.it.wf()
    }

    /// The entries whose values were not yet handed out.
    pub closed spec fn remaining_entries(self) -> Seq<(K, V)> {
        self.it.remaining()
    }

    /// All entries of the map being traversed, already-served ones included.
    pub closed spec fn entries(self) -> Seq<(K, V)> {
        self.it.underlying()
    }

    /// The position of the entry whose value the next step will borrow.
    pub closed spec fn front(self) -> int {
        self.it.front_count()
    }

    /// How many values are left.
    pub fn len(&self) -> (r: usize)
        requires
            self.wf(),
        ensures
            r == self.remaining_entries().len(),
    {
        self.it.len()
    }

    /// Borrows the value under the smallest remaining key mutably, or yields
    /// nothing once exhausted.  Writing through the reference replaces
    /// exactly that entry's value; its key stays.
    pub fn next_mut(&mut self) -> (r: Option<&mut V>)
        requires
            old(self).wf(),
        ensures
            final(self).wf(),
            match r {
                Some(m) => {
                    &&& old(self).remaining_entries().len() > 0
                    &&& *m == old(self).remaining_entries()[0].1
                    &&& final(self).remaining_entries() == old(
                        self,
                    ).remaining_entries().drop_first()
                    &&& final(self).entries() == old(self).entries().update(
                        old(self).front(),
                        (old(self).remaining_entries()[0].0, *final(m)),
                    )
                    &&& final(self).front() == old(self).front() + 1
                },
                None => old(self).remaining_entries().len() == 0 && *final(self) == *old(self),
            },
    {
        match self.it.next_mut() {
            Some(pair) => Some(&mut pair.1),
            None => None,
        }
    }
}

/// A lending mutable iterator over a map's entries, in ascending key order:
/// each step yields the key by shared reference and the value mutably.
pub struct StackMapIterMut<'a, K: Ord, V, const N: usize> {
    pub(crate) it: crate::iterators::StackStructureIteratorRefMut<'a, (K, V), N>,
}

impl<'a, K: Ord, V, const N: usize> StackMapIterMut<'a, K, V, N> {
    /// The underlying traversal is intact.
    pub closed spec fn wf(self) -> bool {
        self.it.wf()
    }

    /// The entries not yet handed out.
    pub closed spec fn remaining_entries(self) -> Seq<(K, V)> {
        self.it.remaining()
    }

    /// All entries of the map being traversed, already-served ones included.
    pub closed spec fn entries(self) -> Seq<(K, V)> {
        self.it.underlying()
    }

    /// The position of the entry the next step will borrow.
    pub closed spec fn front(self) -> int {
        self.it.front_count()
    }

    /// How many entries are left.
    pub fn len(&self) -> (r: usize)
        requires
            self.wf(),
        ensures
            r == self.remaining_entries().len(),
    {
        self.it.len()
    }

    /// Yields the front remaining entry, its key shared and its value
    /// mutable, or nothing once exhausted.  Writing through the value
    /// reference replaces exactly that entry's value; its key stays.
    pub fn next_mut(&mut self) -> (r: Option<(&K, &mut V)>)
        requires
            old(self).wf(),
        ensures
            final(self).wf(),
            match r {
                Some(kv) => {
                    &&& old(self).remaining_entries().len() > 0
                    &&& *kv.0 == old(self).remaining_entries()[0].0
                    &&& *kv.1 == old(self).remaining_entries()[0].1
                    &&& final(self).remaining_entries() == old(
                        self,
                    ).remaining_entries().drop_first()
                    &&& final(self).entries() == old(self).entries().update(
                        old(self).front(),
                        (old(self).remaining_entries()[0].0, *final(kv.1)),
                    )
                    &&& final(self).front() == old(self).front() + 1
                },
                None => old(self).remaining_entries().len() == 0 && *final(self) == *old(self),
            },
    {
        match self.it.next_mut() {
            Some(pair) => Some((&pair.0, &mut pair.1)),
            None => None,
        }
    }
}

impl<K: Ord, V, const N: usize> StackMap<K, V, N> {
    /// A lending mutable iterator over the values, in ascending key order.
    pub fn values_mut<'a>(&'a mut self) -> (r: StackMapValuesMut<'a, K, V, N>)
        requires
            old(self).wf(),
        ensures
            r.wf(),
            r.remaining_entries() == old(self)@,
            r.entries() == old(self)@,
            r.front() == 0,
    {
        StackMapValuesMut { it: self.ss.iter_mut() }
    }

    /// A lending mutable iterator over the entries, in ascending key order.
    pub fn iter_mut<'a>(&'a mut self) -> (r: StackMapIterMut<'a, K, V, N>)
        requires
            old(self).wf(),
        ensures
            r.wf(),
            r.remaining_entries() == old(self)@,
            r.entries() == old(self)@,
            r.front() == 0,
    {
        StackMapIterMut { it: self.ss.iter_mut() }
    }

    /// A borrowed iterator over the entries, in ascending key order.
    pub fn iter<'a>(&'a self) -> (r: StackMapIterRef<'a, K, V, N>)
        requires
            self.wf(),
        ensures
            r.wf(),
            r.remaining() == self@,
    {
        StackMapIterRef { it: self.ss.iter() }
    }

    /// A borrowed iterator over the keys, in ascending order.
    pub fn keys<'a>(&'a self) -> (r: StackMapKeys<'a, K, V, N>)
        requires
            self.wf(),
        ensures
            r.wf(),
            r.remaining() == self.spec_keys(),
    {
        let r = StackMapKeys { it: self.ss.iter() };
        proof {
            assert(r.remaining() =~= self.spec_keys());
        }
        r
    }

    /// A borrowed iterator over the values, in ascending key order.
    pub fn values<'a>(&'a self) -> (r: StackMapValues<'a, K, V, N>)
        requires
            self.wf(),
        ensures
            r.wf(),
            r.remaining().len() == self@.len(),
            forall|i: int| 0 <= i < self@.len() ==> (#[trigger] r.remaining()[i]) == self@[i].1,
    {
        StackMapValues { it: self.ss.iter() }
    }

    /// Consumes the map into a draining iterator over its entries, in
    /// ascending key order.
    pub fn into_iter(self) -> (r: crate::iterators::StackStructureIterator<(K, V), N>)
        requires
            self.wf(),
        ensures
            r.wf(),
            r.remaining() == self@,
    {
        self.ss.into_iter()
    }

    /// Iterates the entries backwards in windows of `C` entries.
    pub fn rchunks<'a, const C: usize>(&'a self) -> (r: StackMapRChunks<'a, K, V, N, C>)
        requires
            self.wf(),
            C >= 1,
        ensures
            r.wf(),
            r.remaining() == self@,
    {
        StackMapRChunks { inner: self.ss.rchunks::<C>() }
    }
}

} // verus!
