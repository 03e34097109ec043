use compact::compact::CompactBlock;
use compact::storage::StorageMode;
use compact::CVec;
use compact::Compact;

#[test]
fn basic_vector() {
    let mut list: CVec<u32> = CVec::new();

    list.push(1);
    list.push(2);
    list.push(3);

    assert_eq!(&[1, 2, 3], list.as_slice());

    let bytes = std::mem::size_of::<CVec<u32>>() + list.dynamic_size_bytes();
    let block = CompactBlock::new(list);
    assert_eq!(bytes, block.size_bytes());

    assert_eq!(&[1, 2, 3], block.root().as_slice());
    assert!(block.root().is_still_compact());
    println!("before decompact!");
    let decompacted = block.decompact();
    println!("after decompact!");
    assert_eq!(&[1, 2, 3], decompacted.as_slice());
    assert!(!decompacted.is_still_compact());
}

#[test]
fn nested_vector() {
    type NestedType = CVec<CVec<u32>>;
    let mut list_of_lists: NestedType = CVec::new();

    list_of_lists.push(CVec::from_iter(vec![1, 2, 3]));
    list_of_lists.push(CVec::from_iter(vec![4, 5, 6, 7, 8, 9]));

    assert_eq!(&[1, 2, 3], list_of_lists.get_ref(0).as_slice());
    assert_eq!(&[4, 5, 6, 7, 8, 9], list_of_lists.get_ref(1).as_slice());

    let block = CompactBlock::new(list_of_lists);
    assert!(block.root().is_still_compact());
    assert_eq!(&[1, 2, 3], block.root().get_ref(0).as_slice());
    assert_eq!(&[4, 5, 6, 7, 8, 9], block.root().get_ref(1).as_slice());
    println!("before decompact!");
    let decompacted = block.decompact();
    println!("after decompact!");
    assert_eq!(&[1, 2, 3], decompacted.get_ref(0).as_slice());
    assert_eq!(&[4, 5, 6, 7, 8, 9], decompacted.get_ref(1).as_slice());
}

#[test]
fn vector_push_pop_len() {
    let mut v: CVec<u32> = CVec::new();
    assert!(v.is_empty());
    assert_eq!(0, v.len());
    assert_eq!(0, v.capacity());
    v.push(7);
    v.push(8);
    assert_eq!(2, v.len());
    assert!(!v.is_empty());
    assert_eq!(Some(8), v.pop());
    assert_eq!(Some(7), v.pop());
    assert_eq!(None, v.pop());
    assert!(v.is_empty());
}

#[test]
fn vector_growth_doubles_capacity() {
    let mut v: CVec<u32> = CVec::new();
    let mut caps: Vec<usize> = Vec::new();
    for i in 0..9 {
        v.push(i);
        caps.push(v.capacity());
    }
    assert_eq!(vec![1, 2, 4, 4, 8, 8, 8, 8, 16], caps);
    assert_eq!("free", v.ptr_to_string());
}

#[test]
fn vector_with_capacity_mode() {
    let v: CVec<u32> = CVec::with_capacity(10);
    assert_eq!(10, v.capacity());
    assert_eq!(0, v.len());
    assert_eq!("free", v.ptr_to_string());
    let w: CVec<u32> = CVec::new();
    assert_eq!("compact", w.ptr_to_string());
}

#[test]
fn vector_insert_remove_swap_remove() {
    let mut v: CVec<u32> = CVec::new();
    for i in [1u32, 2, 4, 5] {
        v.push(i);
    }
    v.insert(2, 3);
    assert_eq!(&[1, 2, 3, 4, 5], v.as_slice());
    assert_eq!(3, v.remove(2));
    assert_eq!(&[1, 2, 4, 5], v.as_slice());
    assert_eq!(2, v.swap_remove(1));
    assert_eq!(&[1, 5, 4], v.as_slice());
}

#[test]
fn vector_truncate_clear() {
    let mut v: CVec<u32> = CVec::from_iter(vec![1, 2, 3, 4, 5]);
    v.truncate(3);
    assert_eq!(&[1, 2, 3], v.as_slice());
    v.truncate(10);
    assert_eq!(&[1, 2, 3], v.as_slice());
    let cap = v.capacity();
    v.clear();
    assert!(v.is_empty());
    assert_eq!(cap, v.capacity());
}

#[test]
fn vector_retain_keeps_order() {
    let mut v: CVec<u32> = CVec::from_iter(vec![1, 2, 3, 4, 5, 6]);
    v.retain(|x| x % 2 == 0);
    assert_eq!(&[2, 4, 6], v.as_slice());
}

#[test]
fn vector_extend_from_copy_slice() {
    let mut v: CVec<u32> = CVec::from_iter(vec![1, 2]);
    v.extend_from_copy_slice(&[3, 4, 5]);
    assert_eq!(&[1, 2, 3, 4, 5], v.as_slice());
}

#[test]
fn vector_extend() {
    let mut v: CVec<u32> = CVec::from_iter(vec![1, 2]);
    v.extend(vec![3, 4]);
    assert_eq!(&[1, 2, 3, 4], v.as_slice());
}

#[test]
fn vector_drain_resets() {
    let mut v: CVec<u32> = CVec::from_iter(vec![1, 2, 3]);
    let mut it = v.drain();
    assert!(v.is_empty());
    assert_eq!(0, v.capacity());
    assert_eq!("compact", v.ptr_to_string());
    assert_eq!(3, it.remaining_len());
    assert_eq!(Some(1), it.next());
    assert_eq!(Some(2), it.next());
    assert_eq!(Some(3), it.next());
    assert_eq!(None, it.next());
}

#[test]
fn vector_into_iter_yields_in_order() {
    let v: CVec<u32> = CVec::from_iter(vec![9, 8, 7]);
    let mut it = v.into_iter();
    assert_eq!(Some(9), it.next());
    assert_eq!(Some(8), it.next());
    assert_eq!(Some(7), it.next());
    assert_eq!(None, it.next());
}

#[test]
fn vector_replace_at() {
    let mut v: CVec<u32> = CVec::from_iter(vec![1, 2, 3]);
    let prev = v.replace_at(1, 9);
    assert_eq!(2, prev);
    assert_eq!(&[1, 9, 3], v.as_slice());
}

#[test]
fn vector_push_at_appends() {
    let mut v: CVec<u32> = CVec::new();
    v.push_at(17, 1);
    v.push_at(99, 2);
    assert_eq!(&[1, 2], v.as_slice());
}

#[test]
fn storage_mode_tags() {
    let m = StorageMode::default();
    assert!(m.is_compact());
    assert!(!m.is_free());
    let f = StorageMode::Free;
    assert!(f.is_free());
    assert!(!f.is_compact());
}
