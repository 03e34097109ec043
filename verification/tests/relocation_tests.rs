use compact::compact::CompactBlock;
use compact::CHashMap;
use compact::CVec;
use compact::Compact;

fn elem(n: usize) -> usize {
    (n * n) as usize
}

#[test]
fn compact_notcopy() {
    type NestedType = CHashMap<usize, CVec<usize>>;

    let mut map: NestedType = CHashMap::new();
    let assert_fun = |map: &NestedType, t: usize| {
        assert!(map
            .get(t)
            .unwrap()
            .as_slice()
            .iter()
            .find(|i| **i == elem(t))
            .is_some())
    };

    for n in 0..1000 {
        map.push_at(n, elem(n));
        map.push_at(n, elem(n) + 1);
    }
    assert_fun(&map, 500);
    let block = CompactBlock::new(map);
    assert!(block.root().is_still_compact());
    assert_fun(block.root(), 449);
    let decompacted = block.decompact();
    assert_fun(&decompacted, 449);
}

#[test]
fn compact_copy() {
    type NestedType = CHashMap<usize, usize>;

    let mut map: NestedType = CHashMap::new();
    let assert_fun = |map: &NestedType, t: usize| assert!(map.get(t).is_some());

    for n in 0..1000 {
        map.insert(n, elem(n));
    }
    assert_fun(&map, 500);
    let block = CompactBlock::new(map);
    assert_fun(block.root(), 449);
    let decompacted = block.decompact();
    assert_fun(&decompacted, 449);
}

#[test]
fn map_compact_round_trip_preserves_pairs() {
    let mut map: CHashMap<usize, usize> = CHashMap::new();
    for n in 0..50 {
        map.insert(n, n + 1000);
    }
    let len = map.len();
    let used = map.len_used();
    let cap = map.capacity();
    let block = CompactBlock::new(map);
    let back = block.decompact();
    assert_eq!(len, back.len());
    assert_eq!(used, back.len_used());
    assert_eq!(cap, back.capacity());
    for n in 0..50 {
        assert_eq!(Some(&(n + 1000)), back.get(n));
    }
}

#[test]
fn vector_compact_round_trip_preserves_elements() {
    let mut v: CVec<u32> = CVec::new();
    for i in 0..100 {
        v.push(i * 3);
    }
    let block = CompactBlock::new(v);
    let back = block.decompact();
    assert_eq!(100, back.len());
    for i in 0..100usize {
        assert_eq!(3 * (i as u32), *back.get_ref(i));
    }
}

#[test]
fn clone_vector_preserves_elements() {
    let v: CVec<u32> = CVec::from_iter(vec![5, 6, 7]);
    let w = v.clone();
    assert_eq!(v.as_slice(), w.as_slice());
    assert_eq!(v.capacity(), w.capacity());
    assert_eq!("free", w.ptr_to_string());
}

#[test]
fn clone_map_preserves_pairs() {
    let mut map: CHashMap<usize, usize> = CHashMap::new();
    for n in 0..200 {
        map.insert(n, elem(n));
    }
    map.remove(17);
    let copy = map.clone();
    assert_eq!(map.len(), copy.len());
    assert_eq!(map.len_used(), copy.len_used());
    assert_eq!(map.capacity(), copy.capacity());
    for n in 0..200 {
        assert_eq!(map.get(n), copy.get(n));
    }
}

#[test]
fn clone_nested_map_is_fully_heap_owned() {
    let mut map: CHashMap<usize, CVec<usize>> = CHashMap::new();
    for n in 0..20 {
        map.push_at(n, n);
        map.push_at(n, n + 1);
    }
    let block = CompactBlock::new(map);
    let copy = block.root().clone();
    assert!(!copy.is_still_compact());
    for n in 0..20 {
        let items = copy.get_iter(n);
        assert!(items.contains(&n));
        assert!(items.contains(&(n + 1)));
    }
}

#[test]
fn leaf_values_are_their_own_compaction() {
    let x: u32 = 77;
    assert!(x.is_still_compact());
    assert_eq!(0, x.dynamic_size_bytes());
    assert_eq!(77, x.compact());
    assert_eq!(77, x.decompact());
    let y: usize = 5;
    assert_eq!(5, y.compact());
    let z: u64 = 6;
    assert_eq!(6, z.decompact());
    let b: u8 = 3;
    assert_eq!(3, b.compact());
}

#[test]
fn block_size_accounts_for_tails() {
    let mut v: CVec<u32> = CVec::with_capacity(4);
    v.push(1);
    let tail = v.dynamic_size_bytes();
    assert_eq!(4 * std::mem::size_of::<u32>(), tail);
    let block = CompactBlock::new(v);
    assert_eq!(std::mem::size_of::<CVec<u32>>() + tail, block.size_bytes());
}
