use compact::OpenAddressingMap;
use compact::CVec;
use std::collections::HashMap;

fn elem(n: usize) -> usize {
    (n * n) as usize
}

#[test]
fn very_basic1() {
    let mut map: OpenAddressingMap<u32, u32> = OpenAddressingMap::with_capacity(2);
    map.insert(0, 54);
    assert!(*map.get(0).unwrap() == 54);
    map.insert(1, 48);
    assert!(*map.get(1).unwrap() == 48);
}

#[test]
fn very_basic2() {
    let mut map: OpenAddressingMap<u32, u32> = OpenAddressingMap::with_capacity(3);
    map.insert(0, 54);
    map.insert(1, 48);
    assert!(*map.get(0).unwrap() == 54);
    assert!(*map.get(1).unwrap() == 48);
}

#[test]
fn basic() {
    let n: usize = 10000;
    let mut map: OpenAddressingMap<usize, usize> = OpenAddressingMap::with_capacity(n);
    assert!(map.is_empty() == true);
    for i in 0..n {
        let e = elem(i);
        map.insert(i, e);
    }
    assert!(map.is_empty() == false);
    for i in 0..n {
        let test = map.get(i).unwrap();
        let exp = elem(i);
        assert!(*test == exp, " failed exp {:?}  was {:?}", exp, test);
    }
    assert!(map.len() == n as usize);
    assert!(*map.get(n - 1).unwrap() == elem(n - 1));
    assert!(*map.get(n - 100).unwrap() == elem(n - 100));
    assert!(map.contains_key(n - 300) == true);
    assert!(map.contains_key(n + 1) == false);
    assert!(map.remove(500) == Some(elem(500)));
    assert!(map.get(500).is_none());
}

#[test]
fn iter() {
    let mut map: OpenAddressingMap<usize, usize> = OpenAddressingMap::with_capacity(200);
    let n = 10;
    assert!(map.is_empty() == true);
    for n in 0..n {
        map.insert(n, n * n);
    }
    for k in map.keys() {
        println!(" k {:?}", k);
    }
    for n in 0..n {
        let keys = map.keys();
        assert!(
            keys.iter()
                .find(|&&i| {
                    println!("find {:?} {:?}", i, n);
                    i == n
                })
                .is_some(),
            "fail n {:?} ",
            n
        );
    }
    for n in 0..n {
        let values = map.values();
        assert!(values.iter().find(|&&i| i == elem(n)).is_some());
    }
}

#[test]
fn values_mut() {
    let mut map: OpenAddressingMap<usize, usize> = OpenAddressingMap::new();
    assert!(map.is_empty() == true);
    for n in 0..100 {
        map.insert(n, n * n);
    }
    {
        for k in map.keys() {
            let bumped = *map.get(k).unwrap() + 1;
            map.insert(k, bumped);
        }
    }
    for i in 0..100 {
        assert!(*map.get(i).unwrap() == i * i + 1);
    }
}

#[test]
fn pairs() {
    let mut map: OpenAddressingMap<usize, usize> = OpenAddressingMap::new();
    assert!(map.is_empty() == true);
    for n in 0..100 {
        map.insert(n, n * n);
    }
    for (key, value) in map.pairs() {
        assert!(elem(key) == value);
    }
}

#[test]
fn push_at() {
    let mut map: OpenAddressingMap<usize, CVec<usize>> = OpenAddressingMap::new();
    assert!(map.is_empty() == true);
    for n in 0..10000 {
        map.push_at(n, elem(n));
        map.push_at(n, elem(n) + 1);
    }

    for n in 0..10000 {
        println!("n {:?}", n);
        let mut iter = map.get_iter(n).into_iter();
        assert!(iter.find(|&i| i == elem(n)).is_some());
        let mut iter2 = map.get_iter(n).into_iter();
        assert!(iter2.find(|&i| i == elem(n) + 1).is_some());
    }
}

#[test]
fn remove_iter() {
    let mut map: OpenAddressingMap<usize, CVec<usize>> = OpenAddressingMap::new();
    assert!(map.is_empty() == true);
    for n in 0..1000 {
        map.push_at(n, elem(n));
        map.push_at(n, elem(n) + 1);
    }
    let target = 500;
    let mut iter = map.remove_iter(target).into_iter();
    assert!(iter.find(|&i| i == elem(target)).is_some());
    assert!(iter.find(|&i| i == elem(target) + 1).is_some());
}

#[test]
fn ensure_capacity_works() {
    let mut map: OpenAddressingMap<usize, CVec<usize>> = OpenAddressingMap::new();
    assert!(map.is_empty() == true);
    for n in 0..100 {
        map.push_at(n, elem(n));
        map.push_at(n, elem(n) + 1);
    }
    assert!(map.is_empty() == false);
}

#[test]
fn insert_after_remove_works_same_hash() {
    // get 2 elems with the same hash
    let mut hash_to_usize: HashMap<u32, usize> = HashMap::new();
    let mut bad_pair_opt = None;
    for i in 0..<usize>::max_value() {
        if i % 10000 == 0 {
            println!("i {}", i);
        }
        let hash = OpenAddressingMap::<usize, usize>::hash(i);
        if hash_to_usize.contains_key(&hash) {
            let p: usize = *hash_to_usize.get(&hash).unwrap();
            bad_pair_opt = Some((i, p));
            break;
        }
        hash_to_usize.insert(hash, i);
    }

    type NestedType = OpenAddressingMap<usize, usize>;
    let mut map: NestedType = OpenAddressingMap::new();

    let bad_pair = bad_pair_opt.unwrap();
    println!("bad pair {:?}", bad_pair);
    map.insert(bad_pair.0, 1);
    map.insert(bad_pair.1, 2);
    map.remove(bad_pair.0);
    map.insert(bad_pair.1, 3);

    let mut n1: usize = 0;
    for (key, _) in map.pairs() {
        if key == bad_pair.1 {
            n1 += 1;
        }
    }
    assert!(n1 == 1);
}

#[test]
fn map_len_is_the_amount_of_inserted_and_not_removed_items() {
    type Map = OpenAddressingMap<usize, usize>;
    let mut map: Map = OpenAddressingMap::new();
    for n in 0..1000 {
        map.insert(n, elem(n));
    }
    for n in 0..10 {
        map.remove(n);
    }
    assert_eq!(990, map.len());
}

#[test]
fn when_there_are_lots_of_dead_tombstoned_entries_capacity_is_not_doubled() {
    type Map = OpenAddressingMap<usize, usize>;
    let mut map: Map = OpenAddressingMap::new();
    for n in 0..1000 {
        map.insert(n, elem(n));
    }
    for n in 0..600 {
        map.remove(n);
    }
    println!("self {}", map.capacity());
    assert_eq!(400, map.len());
    assert_eq!(1000, map.len_used());
    assert_eq!(3203, map.capacity());
    for n in 0..1000 {
        map.insert(10000 + n, elem(n));
    }
    assert_eq!(1400, map.len());
    assert_eq!(3203, map.capacity());
}

#[test]
fn when_there_are_lots_of_few_tombstoned_entries_capacity_is_doubled() {
    type Map = OpenAddressingMap<usize, usize>;
    let mut map: Map = OpenAddressingMap::new();
    for n in 0..1000 {
        map.insert(n, elem(n));
    }
    for n in 0..60 {
        map.remove(n);
    }
    println!("self {}", map.capacity());
    assert_eq!(940, map.len());
    assert_eq!(1000, map.len_used());
    assert_eq!(3203, map.capacity());
    for n in 0..1000 {
        map.insert(10000 + n, elem(n));
    }
    assert_eq!(1940, map.len());
    assert_eq!(6421, map.capacity());
}
