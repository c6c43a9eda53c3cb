use stack_structures::StackError;
use stack_structures::StackStructure;
use stack_structures::EntryKey;
use stack_structures::map::StackMap;
use stack_structures::simple::StackSimple;
use stack_structures::variable_size_immutable_array::VariableSizeImmutableArray;

#[test]
fn test_capacity_conservation() {
    // live count plus free slots always add up to the capacity: after k
    // insertions exactly N - k more fit, and a deletion frees exactly one.
    let mut ms = StackStructure::<u32, 3>::new();
    assert_eq!(ms.capacity(), 3);
    assert_eq!(ms.len(), 0);
    assert_eq!(ms.push(10), Ok(()));
    assert_eq!(ms.push(20), Ok(()));
    assert_eq!(ms.push(30), Ok(()));
    assert_eq!(ms.push(40), Err(StackError::CapacityExceeded));
    assert_eq!(ms.len(), 3);
    assert_eq!(ms.delete(1), Ok(20));
    assert_eq!(ms.len(), 2);
    assert_eq!(ms.push(40), Ok(()));
    assert_eq!(ms.push(50), Err(StackError::CapacityExceeded));
    assert_eq!(ms.len(), 3);
}

#[test]
fn test_order_preservation() {
    // inserting at index i then reading i yields the inserted value;
    // deleting index i shifts what stood at i + 1 down to i.
    let mut ms = StackStructure::<u32, 8>::new();
    assert_eq!(ms.push(10), Ok(()));
    assert_eq!(ms.push(20), Ok(()));
    assert_eq!(ms.push(30), Ok(()));
    assert_eq!(ms.insert(1, 99), Ok(()));
    assert_eq!(ms.get(1), Ok(&99));
    assert_eq!(ms.get(2), Ok(&20));
    assert_eq!(ms.delete(1), Ok(99));
    assert_eq!(ms.get(1), Ok(&20));
    assert_eq!(ms.get(2), Ok(&30));
}

#[test]
fn test_map_sortedness() {
    // whatever order entries arrive in, and whatever is removed, keys()
    // walks strictly increasing keys.
    let mut map = StackMap::<u64, u64, 10>::new();
    map.insert(5, 50).unwrap();
    map.insert(1, 10).unwrap();
    map.insert(3, 30).unwrap();
    map.insert(2, 20).unwrap();
    map.insert(4, 40).unwrap();
    assert_eq!(map.remove(&3), Some(30));
    let mut keys = map.keys();
    let mut collected: Vec<u64> = Vec::new();
    while let Some(k) = keys.next() {
        collected.push(*k);
    }
    assert_eq!(collected, vec![1, 2, 4, 5]);
}

#[test]
fn test_map_overwrite() {
    // inserting the same key twice keeps the length and yields the second
    // value.
    let mut map = StackMap::<u64, &str, 4>::new();
    assert_eq!(map.insert(7, "first"), Ok(None));
    assert_eq!(map.len(), 1);
    assert_eq!(map.insert(7, "second"), Ok(Some("first")));
    assert_eq!(map.len(), 1);
    assert_eq!(map.get(&7), Some(&"second"));
}

#[test]
fn test_iterator_exactness() {
    // len() counts what remains exactly, drops by one per step from either
    // end, and the iterator keeps yielding nothing once exhausted.
    let ms = StackStructure::<u32, 4>::from_iter([7, 8, 9]);
    let mut iter = ms.iter();
    assert_eq!(iter.len(), 3);
    assert_eq!(iter.next(), Some(&7));
    assert_eq!(iter.len(), 2);
    assert_eq!(iter.next_back(), Some(&9));
    assert_eq!(iter.len(), 1);
    assert_eq!(iter.next(), Some(&8));
    assert_eq!(iter.len(), 0);
    assert_eq!(iter.next(), None);
    assert_eq!(iter.next_back(), None);
    assert_eq!(iter.len(), 0);

    let mut owning = ms.into_iter();
    assert_eq!(owning.len(), 3);
    assert_eq!(owning.next(), Some(7));
    assert_eq!(owning.next_back(), Some(9));
    assert_eq!(owning.next(), Some(8));
    assert_eq!(owning.len(), 0);
    assert_eq!(owning.next(), None);
    assert_eq!(owning.next_back(), None);
}

#[test]
fn test_chunking_exact() {
    // five elements windowed with width two: [4, 5], [2, 3], [1].
    let ms = StackStructure::<u32, 5>::from_iter([1, 2, 3, 4, 5]);
    let mut chunks = ms.rchunks::<2>();
    assert_eq!(chunks.len(), 3);
    let c1 = chunks.next().unwrap();
    assert_eq!(c1.as_slice(), &[&4, &5]);
    assert_eq!(chunks.len(), 2);
    let c2 = chunks.next().unwrap();
    assert_eq!(c2.as_slice(), &[&2, &3]);
    let c3 = chunks.next().unwrap();
    assert_eq!(c3.as_slice(), &[&1]);
    assert_eq!(chunks.len(), 0);
    assert!(chunks.next().is_none());
    assert!(chunks.next().is_none());
}

#[test]
fn test_capacity_failure() {
    // a full arena rejects insertion with CapacityExceeded and is left
    // untouched.
    let mut ms = StackStructure::<u32, 2>::new();
    assert_eq!(ms.insert(0, 1), Ok(()));
    assert_eq!(ms.insert(1, 2), Ok(()));
    assert_eq!(ms.insert(1, 3), Err(StackError::CapacityExceeded));
    assert_eq!(ms.len(), 2);
    assert_eq!(ms.get(0), Ok(&1));
    assert_eq!(ms.get(1), Ok(&2));
}

#[test]
fn test_search_correctness() {
    // on a sorted sequence: hits return the logical index of the key,
    // misses return the insertion point that keeps the order sorted.
    let ms = StackStructure::<u64, 6>::from_iter([10, 20, 30, 40]);
    assert_eq!(ms.binary_search(&10), Ok(0));
    assert_eq!(ms.binary_search(&30), Ok(2));
    assert_eq!(ms.binary_search(&40), Ok(3));
    assert_eq!(ms.binary_search(&5), Err(0));
    assert_eq!(ms.binary_search(&15), Err(1));
    assert_eq!(ms.binary_search(&35), Err(3));
    assert_eq!(ms.binary_search(&45), Err(4));

    let pairs = StackStructure::<(u64, u64), 6>::from_iter([(1, 100), (3, 300), (5, 500)]);
    assert_eq!(pairs.binary_search_by_key(&3, EntryKey), Ok(1));
    assert_eq!(pairs.binary_search_by_key(&4, EntryKey), Err(2));
    assert_eq!(pairs.binary_search_by_key(&0, EntryKey), Err(0));
}

#[test]
fn test_index_out_of_bounds() {
    // every positional operation reports an index beyond the length.
    let mut ms = StackStructure::<u32, 5>::new();
    assert_eq!(ms.get(0), Err(StackError::IndexOutOfBounds));
    assert_eq!(ms.delete(0), Err(StackError::IndexOutOfBounds));
    assert_eq!(ms.set(0, 9), Err(StackError::IndexOutOfBounds));
    assert_eq!(ms.insert(1, 9), Err(StackError::IndexOutOfBounds));
    assert_eq!(ms.push(1), Ok(()));
    assert_eq!(ms.get(1), Err(StackError::IndexOutOfBounds));
    assert_eq!(ms.insert(2, 9), Err(StackError::IndexOutOfBounds));
    match ms.get_mut(1) {
        Err(e) => assert_eq!(e, StackError::IndexOutOfBounds),
        Ok(_) => panic!("out-of-bounds get_mut succeeded"),
    }
}

#[test]
fn test_set_returns_old_value() {
    let mut ms = StackStructure::<u32, 4>::from_iter([1, 2, 3]);
    assert_eq!(ms.set(1, 9), Ok(2));
    assert_eq!(ms.get(1), Ok(&9));
    assert_eq!(ms.get(0), Ok(&1));
    assert_eq!(ms.get(2), Ok(&3));
}

#[test]
fn test_map_lookup_and_remove() {
    let mut map = StackMap::<u64, u64, 8>::new();
    assert_eq!(map.get(&1), None);
    assert_eq!(map.remove(&1), None);
    map.insert(1, 11).unwrap();
    map.insert(2, 22).unwrap();
    assert_eq!(map.get(&1), Some(&11));
    assert_eq!(map.get(&3), None);
    *map.get_mut(&2).unwrap() = 23;
    assert_eq!(map.get(&2), Some(&23));
    assert_eq!(map.get_mut(&3), None);
    assert_eq!(map.remove(&1), Some(11));
    assert_eq!(map.get(&1), None);
    assert_eq!(map.len(), 1);
}

#[test]
fn test_map_capacity_failure() {
    // a full map still overwrites an existing key, but rejects a new one.
    let mut map = StackMap::<u64, u64, 2>::new();
    assert_eq!(map.insert(1, 10), Ok(None));
    assert_eq!(map.insert(2, 20), Ok(None));
    assert_eq!(map.insert(3, 30), Err(StackError::CapacityExceeded));
    assert_eq!(map.insert(1, 15), Ok(Some(10)));
    assert_eq!(map.len(), 2);
}

#[test]
fn test_map_from_iter_duplicates() {
    // a later entry under the same key overwrites an earlier one.
    let map = StackMap::<u64, &str, 4>::from_iter([(1, "a"), (2, "b"), (1, "c")]);
    assert_eq!(map.len(), 2);
    assert_eq!(map.get(&1), Some(&"c"));
    assert_eq!(map.get(&2), Some(&"b"));
}

#[test]
fn test_simple_edges() {
    let mut s = StackSimple::<u32, 2>::new();
    assert_eq!(s.len(), 0);
    assert_eq!(s.pop(), None);
    assert_eq!(s.get(0), None);
    assert_eq!(s.push(1), Ok(()));
    assert_eq!(s.push(2), Ok(()));
    assert_eq!(s.push(3), Err(StackError::CapacityExceeded));
    assert_eq!(s.get(1), Some(&2));
    *s.get_mut(0).unwrap() = 7;
    assert_eq!(s.pop(), Some(2));
    assert_eq!(s.pop(), Some(7));
    assert_eq!(s.pop(), None);

    // building from a longer array stops once the capacity is reached
    let t = StackSimple::<u32, 2>::from_iter([1, 2, 3]);
    assert_eq!(t.as_slice(), &[1, 2]);
}

#[test]
fn test_simple_rchunks_exact() {
    let s = StackSimple::<u32, 5>::from_array([1, 2, 3, 4, 5]);
    let mut chunks = s.rchunks(2);
    assert_eq!(chunks.len(), 3);
    assert_eq!(chunks.next(), Some(&[4, 5][..]));
    assert_eq!(chunks.len(), 2);
    assert_eq!(chunks.next(), Some(&[2, 3][..]));
    assert_eq!(chunks.next(), Some(&[1][..]));
    assert_eq!(chunks.len(), 0);
    assert_eq!(chunks.next(), None);
    assert_eq!(chunks.next(), None);
}

#[test]
fn test_empty_structure() {
    let ms = StackStructure::<u32, 4>::new();
    assert_eq!(ms.len(), 0);
    let mut iter = ms.iter();
    assert_eq!(iter.len(), 0);
    assert_eq!(iter.next(), None);
    assert_eq!(iter.next_back(), None);
    let mut chunks = ms.rchunks::<2>();
    assert_eq!(chunks.len(), 0);
    assert!(chunks.next().is_none());
    assert_eq!(ms.binary_search(&1), Err(0));
}

#[test]
fn test_variable_size_immutable_array() {
    let a = VariableSizeImmutableArray::<u32, 3>::new([1, 2, 3], 2).unwrap();
    assert_eq!(a.len(), 2);
    assert_eq!(a.get(0), Some(&1));
    assert_eq!(a.get(1), Some(&2));
    assert_eq!(a.get(2), None);
    match VariableSizeImmutableArray::<u32, 3>::new([1, 2, 3], 4) {
        Err(e) => assert_eq!(e, StackError::IndexOutOfBounds),
        Ok(_) => panic!("overlong length accepted"),
    }
}

#[test]
fn test_simple_iteration() {
    let s = StackSimple::<u32, 4>::from_array([1, 2, 3, 4]);
    let mut iter = s.iter();
    assert_eq!(iter.len(), 4);
    assert_eq!(iter.next(), Some(&1));
    assert_eq!(iter.next_back(), Some(&4));
    assert_eq!(iter.next(), Some(&2));
    assert_eq!(iter.next(), Some(&3));
    assert_eq!(iter.next(), None);
    assert_eq!(iter.next_back(), None);

    let mut s2 = StackSimple::<u32, 4>::from_array([1, 2, 3, 4]);
    let mut iter_mut = s2.iter_mut();
    while let Some(m) = iter_mut.next_mut() {
        *m += 1;
    }
    assert_eq!(s2.as_slice(), &[2, 3, 4, 5]);
}

#[test]
fn test_map_into_iter() {
    let map = StackMap::<u64, &str, 4>::from_iter([(2, "b"), (1, "a")]);
    let mut drain = map.into_iter();
    assert_eq!(drain.len(), 2);
    assert_eq!(drain.next(), Some((1, "a")));
    assert_eq!(drain.next(), Some((2, "b")));
    assert_eq!(drain.next(), None);
}

#[test]
fn test_iter_mut_updates() {
    // the lending mutable iterators touch each element exactly once
    let mut ms = StackStructure::<u32, 4>::from_iter([1, 2, 3]);
    let mut iter_mut = ms.iter_mut();
    while let Some(item) = iter_mut.next_mut() {
        *item *= 10;
    }
    assert_eq!(ms.get(0), Ok(&10));
    assert_eq!(ms.get(1), Ok(&20));
    assert_eq!(ms.get(2), Ok(&30));

    let mut back = ms.iter_mut();
    let last = back.next_back_mut().unwrap();
    *last += 1;
    assert_eq!(back.next_back_mut(), Some(&mut 20));
    drop(back);
    assert_eq!(ms.get(2), Ok(&31));

    let mut map = StackMap::<u64, u32, 4>::from_iter([(1, 1), (2, 2)]);
    let mut entries = map.iter_mut();
    while let Some((k, v)) = entries.next_mut() {
        *v = (*k as u32) * 100;
    }
    assert_eq!(map.get(&1), Some(&100));
    assert_eq!(map.get(&2), Some(&200));
}
