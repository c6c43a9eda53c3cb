use stack_structures::StackStructure;
use stack_structures::map::StackMap;
use stack_structures::simple::StackSimple;

#[test]
fn test_1() {
    let mut ms = StackStructure::<u64, 5>::new();
    let _ = ms.insert(0, 0);
    let _ = ms.insert(1, 1);

    println!("{:?}", ms.get(1));
    let _ = ms.insert(1, 3);
    println!("{:?}", ms.get(1));
    println!("{:?}", ms.get(2));

    *ms.get_mut(1).unwrap() += 1;

    println!("len: {:?}", ms.len());

    let mut iter = ms.iter();
    while let Some(item) = iter.next() {
        println!("item: {:?}", item);
    }

    let mut iter_mut = ms.iter_mut();
    while let Some(item) = iter_mut.next_mut() {
        *item += 1;
        println!("item: {:?}", item);
    }

    let mut owning = ms.into_iter();
    while let Some(item) = owning.next() {
        println!("item: {:?}", item);
    }

    let ms2 = StackStructure::<_, 2>::from_iter(["hi", "there"]);
    let _ = ms2;

    println!("{:?}", core::mem::size_of::<StackStructure<[u8; 200], 100000>>());

    let ss = StackStructure::<_, 5>::from_iter(["c"]);

    let search_output = ss.binary_search(&"b");
    println!("search_output: {:?}", search_output);
}

#[test]
fn test_iter() {
    let numbers = StackStructure::<_, 6>::from_iter([1, 2, 3, 4, 5, 6]);

    let mut iter = numbers.iter();
    assert_eq!(Some(&1), iter.next());
    assert_eq!(Some(&2), iter.next());
    assert_eq!(Some(&3), iter.next());
    assert_eq!(Some(&4), iter.next());
    assert_eq!(Some(&5), iter.next());
    assert_eq!(Some(&6), iter.next());
    assert_eq!(None, iter.next());

    let mut iter = numbers.iter();
    assert_eq!(Some(&1), iter.next());
    assert_eq!(Some(&6), iter.next_back());
    assert_eq!(Some(&5), iter.next_back());
    assert_eq!(Some(&2), iter.next());
    assert_eq!(Some(&3), iter.next());
    assert_eq!(Some(&4), iter.next());
    assert_eq!(None, iter.next());
    assert_eq!(None, iter.next_back());
}

#[test]
fn test_chunk() {
    let x = StackSimple::<_, 5>::from_array([1, 2, 3, 4, 5]);
    println!("chunk RangeFull: {:?}", x.as_slice());

    let mut iter = x.into_iter();
    for _ in 0..3 {
        let v = iter.next_back().unwrap();
        println!("{:?}", v);
        if v == 3 {
            break;
        }
    }
    while let Some(i) = iter.next() {
        println!("{:?}", i);
    }
}

#[test]
fn test_rchunks() {
    let x = StackStructure::<_, 5>::from_iter([1, 2, 3, 4, 5]);
    let mut rchunks = x.rchunks::<2>();
    while let Some(chunk) = rchunks.next() {
        println!("{:?}", chunk.as_slice());
        for item in &chunk.as_slice()[..1] {
            println!("{:?}", item);
        }
    }
}

#[test]
fn test_map() {
    let mut map = StackMap::<_, _, 40>::from_iter([(0, "hi"), (1, "tell")]);

    map.insert(4, "three").unwrap();
    map.insert(3, "three").unwrap();
    map.insert(5, "three").unwrap();
    map.insert(2, "two").unwrap();
    let mut iter = map.iter();
    while let Some(i) = iter.next() {
        println!("i: {:?}", i);
    }

    for i in 0..5 {
        map.insert(i, "loop").unwrap();
    }
    let mut iter = map.iter();
    while let Some(i) = iter.next() {
        println!("i: {:?}", i);
    }

    let mut values = map.values_mut();
    while let Some(i) = values.next_mut() {
        *i = "change";
    }

    let mut iter = map.iter();
    while let Some(i) = iter.next() {
        println!("i: {:?}", i);
    }

    println!("map len: {:?}", map.len());

    map.remove(&600);

    let mut iter = map.iter();
    while let Some(i) = iter.next() {
        println!("i: {:?}", i);
    }
    println!("map len: {:?}", map.len());
}

#[test]
fn test_simple() {
    let mut x = StackSimple::<_, 5>::from_array([1, 2, 5, 6, 8]);

    let mut chunks = x.rchunks(3);
    while let Some(chunk) = chunks.next() {
        println!("{:?}", chunk);
    }

    *x.get_mut(3).unwrap() += 1;

    let mut iter = x.rchunks(3);

    let rounds = iter.len();
    for _ in 0..rounds {
        println!("chunks left: {:?}", iter.len());
        println!("{:?}", iter.next().unwrap());
    }
}

#[test]
fn test_map_rchunks() {
    let x = StackMap::<u64, u64, 10>::from_iter([(0, 0), (1, 1), (2, 2), (3, 3), (4, 4)]);

    let mut chunks = x.rchunks::<2>();
    while let Some(c) = chunks.next() {
        println!("{:?}", c.as_slice());
    }
}
