use svgen::min_heap::{MinHeap, NodeHandle, INVALID};

#[test]
fn pops_lowest_key_first() {
    let mut heap: MinHeap<u32> = MinHeap::with_capacity(4);
    let mut handles: Vec<NodeHandle> = vec![INVALID; 4];
    heap.insert_or_update(&mut handles[0], 30, 0);
    heap.insert_or_update(&mut handles[1], 10, 1);
    heap.insert_or_update(&mut handles[2], 20, 2);
    assert!(handles.iter().take(3).all(|h| *h != INVALID));
    assert_eq!(heap.pop_min_with_value(), Some((10, 1)));
    assert_eq!(heap.pop_min(), Some(2));
    assert_eq!(heap.pop_min(), Some(0));
    assert_eq!(heap.pop_min(), None);
}

#[test]
fn update_and_remove_through_handles() {
    let mut heap: MinHeap<u32> = MinHeap::with_capacity(0);
    let mut a = INVALID;
    let mut b = INVALID;
    let mut c = INVALID;
    heap.insert_or_update(&mut a, 5, 100);
    heap.insert_or_update(&mut b, 7, 200);
    heap.insert_or_update(&mut c, 9, 300);
    assert_ne!(a, b);
    assert_ne!(b, c);
    // moving an entry keeps its handle
    let before = b;
    heap.insert_or_update(&mut b, 1, 201);
    assert_eq!(b, before);
    heap.remove(a);
    assert_eq!(heap.pop_min_with_value(), Some((1, 201)));
    assert_eq!(heap.pop_min_with_value(), Some((9, 300)));
    assert_eq!(heap.pop_min_with_value(), None);
}

#[test]
fn equal_keys_all_come_out() {
    let mut heap: MinHeap<char> = MinHeap::with_capacity(3);
    let mut hs = [INVALID; 3];
    heap.insert_or_update(&mut hs[0], 4, 'x');
    heap.insert_or_update(&mut hs[1], 4, 'y');
    heap.insert_or_update(&mut hs[2], 4, 'z');
    let mut out = vec![
        heap.pop_min_with_value().unwrap(),
        heap.pop_min_with_value().unwrap(),
        heap.pop_min_with_value().unwrap(),
    ];
    out.sort();
    assert_eq!(out, vec![(4, 'x'), (4, 'y'), (4, 'z')]);
    assert_eq!(heap.pop_min(), None);
}

#[test]
fn many_entries_come_out_sorted() {
    let mut heap: MinHeap<usize> = MinHeap::with_capacity(0);
    let mut handles = vec![INVALID; 200];
    for i in 0..200usize {
        let key = ((i * 7919) % 200) as u64;
        heap.insert_or_update(&mut handles[i], key, i);
    }
    // withdraw every tenth entry and lower every seventh
    for i in (0..200).step_by(10) {
        heap.remove(handles[i]);
    }
    for i in (3..200).step_by(7) {
        if i % 10 != 0 {
            heap.insert_or_update(&mut handles[i], 0, i);
        }
    }
    let mut last = 0u64;
    let mut count = 0;
    while let Some((k, v)) = heap.pop_min_with_value() {
        assert!(k >= last);
        assert!(v % 10 != 0);
        last = k;
        count += 1;
    }
    assert_eq!(count, 180);
}
