use compact::CHashMap;
use compact::CVec;

fn is_prime(n: usize) -> bool {
    if n < 2 {
        return false;
    }
    let mut d = 2;
    while d * d <= n {
        if n % d == 0 {
            return false;
        }
        d += 1;
    }
    true
}

#[test]
fn len_counts_exactly_the_held_keys() {
    let mut map: CHashMap<usize, usize> = CHashMap::new();
    for n in 0..300 {
        map.insert(n, n);
    }
    for n in 100..200 {
        map.remove(n);
    }
    let mut count: usize = 0;
    for n in 0..400 {
        if map.contains_key(n) {
            count += 1;
        }
    }
    assert_eq!(count, map.len());
    assert_eq!(map.keys().len(), map.len());
}

#[test]
fn used_never_below_alive() {
    let mut map: CHashMap<usize, usize> = CHashMap::new();
    for n in 0..500 {
        map.insert(n, n);
        assert!(map.len_used() >= map.len());
    }
    for n in 0..250 {
        map.remove(n);
        assert!(map.len_used() >= map.len());
    }
}

#[test]
fn capacity_is_always_prime() {
    let mut map: CHashMap<usize, usize> = CHashMap::new();
    assert!(is_prime(map.capacity()));
    for n in 0..2000 {
        map.insert(n, n);
        assert!(is_prime(map.capacity()));
    }
    for n in 0..1500 {
        map.remove(n);
        assert!(is_prime(map.capacity()));
    }
    for n in 3000..4000 {
        map.insert(n, n);
        assert!(is_prime(map.capacity()));
    }
    let sized: CHashMap<usize, usize> = CHashMap::with_capacity(10000);
    assert_eq!(10007, sized.capacity());
}

#[test]
fn after_any_insert_at_most_half_used_plus_one() {
    let mut map: CHashMap<usize, usize> = CHashMap::new();
    for n in 0..1000 {
        map.insert(n, n);
        assert!(map.len_used() <= map.capacity() / 2 + 1);
    }
    for n in 0..600 {
        map.remove(n);
    }
    for n in 1000..2000 {
        map.insert(n, n);
        assert!(map.len_used() <= map.capacity() / 2 + 1);
    }
}

#[test]
fn inserted_pairs_not_removed_keep_their_value() {
    let mut map: CHashMap<usize, usize> = CHashMap::new();
    for n in 0..400 {
        map.insert(n, n * 7);
    }
    for n in 0..100 {
        map.remove(n * 4);
    }
    for n in 0..400 {
        if n % 4 == 0 {
            assert_eq!(None, map.get(n));
        } else {
            assert_eq!(Some(&(n * 7)), map.get(n));
        }
    }
}

#[test]
fn removal_then_lookup_is_absent() {
    let mut map: CHashMap<u32, u32> = CHashMap::new();
    map.insert(5, 50);
    assert_eq!(Some(50), map.remove(5));
    assert_eq!(None, map.get(5));
    assert_eq!(None, map.remove(5));
}

#[test]
fn insert_remove_insert_leaves_one_entry() {
    let mut map: CHashMap<u32, u32> = CHashMap::new();
    map.insert(9, 1);
    map.remove(9);
    map.insert(9, 2);
    assert_eq!(1, map.len());
    assert_eq!(Some(&2), map.get(9));
    let mut seen: usize = 0;
    for (k, _) in map.pairs() {
        if k == 9 {
            seen += 1;
        }
    }
    assert_eq!(1, seen);
}

#[test]
fn iterating_after_from_iter_yields_seq_in_order() {
    let v: CVec<u32> = CVec::from_iter(vec![3, 1, 4, 1, 5, 9, 2, 6]);
    assert_eq!(&[3, 1, 4, 1, 5, 9, 2, 6], v.as_slice());
    let mut it = v.into_iter();
    for expect in [3u32, 1, 4, 1, 5, 9, 2, 6] {
        assert_eq!(Some(expect), it.next());
    }
    assert_eq!(None, it.next());
}

#[test]
fn empty_containers_report_absence() {
    let map: CHashMap<usize, usize> = CHashMap::new();
    assert_eq!(None, map.get(0));
    assert!(map.keys().is_empty());
    assert!(map.values().is_empty());
    assert!(map.pairs().is_empty());
    let mut empty_map: CHashMap<usize, CVec<usize>> = CHashMap::new();
    assert!(empty_map.get_iter(3).is_empty());
    assert!(empty_map.remove_iter(3).is_empty());
    let mut v: CVec<u32> = CVec::new();
    assert_eq!(None, v.pop());
    let mut it = v.drain();
    assert_eq!(None, it.next());
}

#[test]
fn single_element_map_life_cycle() {
    let mut map: CHashMap<u32, u32> = CHashMap::with_capacity(2);
    assert_eq!(None, map.insert(42, 420));
    assert_eq!(Some(&420), map.get(42));
    assert_eq!(1, map.len());
    assert_eq!(Some(420), map.remove(42));
    assert_eq!(None, map.get(42));
    assert_eq!(0, map.len());
}

#[test]
fn overwrite_returns_prior_value() {
    let mut map: CHashMap<u32, u32> = CHashMap::new();
    assert_eq!(None, map.insert(1, 10));
    assert_eq!(Some(10), map.insert(1, 11));
    assert_eq!(Some(&11), map.get(1));
    assert_eq!(1, map.len());
    assert_eq!(1, map.len_used());
}

#[test]
fn hash_is_deterministic() {
    for i in 0..100u32 {
        assert_eq!(
            CHashMap::<u32, u32>::hash(i),
            CHashMap::<u32, u32>::hash(i)
        );
    }
    assert_eq!(
        CHashMap::<usize, usize>::hash(7),
        CHashMap::<usize, usize>::hash(7)
    );
}

#[test]
fn default_containers_are_empty() {
    let map: CHashMap<usize, usize> = Default::default();
    assert!(map.is_empty());
    assert_eq!(5, map.capacity());
    let v: CVec<u32> = Default::default();
    assert!(v.is_empty());
    assert_eq!(0, v.capacity());
}

#[test]
fn from_iter_builds_the_pair_map() {
    let map: CHashMap<usize, usize> = CHashMap::from_iter(vec![(1, 10), (2, 20), (1, 11)]);
    assert_eq!(2, map.len());
    assert_eq!(Some(&11), map.get(1));
    assert_eq!(Some(&20), map.get(2));
    assert_eq!(None, map.get(3));
}
