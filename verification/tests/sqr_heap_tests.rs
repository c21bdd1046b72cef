use sqr_heap::{base_layer, base_layer_lookup, cumulative_base, parent_index, LastPointer, SqrHeap};

#[test]
fn test_last_ptr() {
    let mut p = LastPointer::new();
    let n: u64 = 1000;
    for i in 0..n {
        p.inc();
        assert_eq!(p.base + p.last_row_fill, i + 1);
    }
    for i in 0..n {
        p.dec();
        assert_eq!(p.base + p.last_row_fill, n - i - 1);
    }
}

#[test]
fn test_parent() {
    // first layer
    assert_eq!((0, 0), parent_index(1, 1, 1));
    assert_eq!((0, 0), parent_index(2, 1, 1));
    // second layer
    assert_eq!((1, 0), parent_index(3, 2, 3));
    assert_eq!((1, 0), parent_index(4, 2, 3));
    assert_eq!((1, 0), parent_index(5, 2, 3));
    assert_eq!((1, 0), parent_index(6, 2, 3));

    assert_eq!((1, 1), parent_index(7, 2, 3));
    assert_eq!((1, 1), parent_index(8, 2, 3));
    assert_eq!((1, 1), parent_index(9, 2, 3));
    assert_eq!((1, 1), parent_index(10, 2, 3));
}

#[test]
fn test_basic() {
    let mut sh = SqrHeap::new();
    let n: u64 = 1000;
    for i in 0..n {
        sh.push(i);
    }
    let mut ptr = LastPointer::new();
    ptr.inc();
    for i in 1..n {
        ptr.inc();
        let (b, o) = parent_index(i, ptr.depth, ptr.base);
        let parent = b + o;
        // checking all parents are greater than all children
        assert!(sh.get(parent as usize) >= sh.get(i as usize), "{:?}", i);
    }

    let mut out = vec![];
    for _ in 0..n {
        out.push(sh.pop().unwrap());
    }
    for i in 0..(n as usize) - 1 {
        assert!(out[i] >= out[i + 1], "{:?}", out);
    }
}

#[test]
fn scenario_push_five_pop_sorted() {
    let mut h = SqrHeap::new();
    for v in [5u64, 1, 4, 2, 8] {
        h.push(v);
    }
    assert_eq!(h.peek(), Some(8));
    assert_eq!(h.pop(), Some(8));
    assert_eq!(h.pop(), Some(5));
    assert_eq!(h.pop(), Some(4));
    assert_eq!(h.pop(), Some(2));
    assert_eq!(h.pop(), Some(1));
    assert_eq!(h.pop(), None);
}

#[test]
fn empty_heap_signals_absence() {
    let mut h = SqrHeap::new();
    assert_eq!(h.peek(), None);
    assert_eq!(h.pop(), None);
    assert_eq!(h.peek(), None);
    h.push(42);
    assert_eq!(h.pop(), Some(42));
    assert_eq!(h.peek(), None);
    assert_eq!(h.pop(), None);
}

#[test]
fn peek_is_idempotent() {
    let mut h = SqrHeap::new();
    for v in [3u64, 9, 7] {
        h.push(v);
    }
    let first = h.peek();
    let second = h.peek();
    assert_eq!(first, Some(9));
    assert_eq!(second, Some(9));
    // size unchanged: all three values still come out
    assert_eq!(h.pop(), Some(9));
    assert_eq!(h.pop(), Some(7));
    assert_eq!(h.pop(), Some(3));
    assert_eq!(h.pop(), None);
}

#[test]
fn layer_table_values() {
    assert_eq!(base_layer(0), 1);
    assert_eq!(base_layer(1), 2);
    assert_eq!(base_layer(2), 8);
    assert_eq!(base_layer(3), 64);
    assert_eq!(base_layer(4), 1024);
    assert_eq!(base_layer(10), 1u64 << 55);
    assert_eq!(cumulative_base(0), 0);
    assert_eq!(cumulative_base(3), 11);
    for d in 0..=10u8 {
        assert_eq!(base_layer_lookup(d), base_layer(d as usize));
        assert_eq!(cumulative_base(d + 1) - cumulative_base(d), base_layer_lookup(d));
    }
}

#[test]
fn tracker_boundary_small_sizes() {
    // sizes 0, 1, 2: the bottom layer empties and depth drops back to 0
    let mut p = LastPointer::new();
    assert_eq!((p.depth, p.base, p.last_row_fill), (0, 0, 0));
    p.inc();
    assert_eq!((p.depth, p.base, p.last_row_fill), (0, 0, 1));
    p.inc();
    assert_eq!((p.depth, p.base, p.last_row_fill), (1, 1, 1));
    p.dec();
    assert_eq!((p.depth, p.base, p.last_row_fill), (0, 0, 1));
    p.dec();
    assert_eq!((p.depth, p.base, p.last_row_fill), (0, 0, 0));
}

#[test]
fn tracker_base_matches_cumulative_base() {
    let mut p = LastPointer::new();
    // after filling layers 0..3 completely, the base is cumulative_base(3) == 11
    for _ in 0..12 {
        p.inc();
    }
    assert_eq!(p.depth, 3);
    assert_eq!(p.base, cumulative_base(3));
    assert_eq!(p.base, 11);
}

#[test]
fn equal_keys_are_interchangeable() {
    let mut h = SqrHeap::new();
    for v in [3u64, 3, 1, 3] {
        h.push(v);
    }
    assert_eq!(h.pop(), Some(3));
    assert_eq!(h.pop(), Some(3));
    assert_eq!(h.pop(), Some(3));
    assert_eq!(h.pop(), Some(1));
    assert_eq!(h.pop(), None);
}

#[test]
fn heap_orders_scrambled_input() {
    let mut h = SqrHeap::new();
    let mut expected = Vec::new();
    for i in 0..200u64 {
        let v = (i * 37) % 101;
        h.push(v);
        expected.push(v);
    }
    expected.sort();
    expected.reverse();
    let mut out = Vec::new();
    while let Some(v) = h.pop() {
        out.push(v);
    }
    assert_eq!(out, expected);
}

#[test]
fn pop_interleaved_with_push() {
    let mut h = SqrHeap::new();
    h.push(10);
    h.push(20);
    assert_eq!(h.pop(), Some(20));
    h.push(5);
    h.push(30);
    assert_eq!(h.peek(), Some(30));
    assert_eq!(h.pop(), Some(30));
    assert_eq!(h.pop(), Some(10));
    assert_eq!(h.pop(), Some(5));
    assert_eq!(h.pop(), None);
}
