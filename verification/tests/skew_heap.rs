use network_algorithms::data_structures::skew_heap::SkewHeap;

#[test]
fn skew_heap_pops_largest_first() {
    let mut heap = SkewHeap::new();
    assert!(heap.is_empty());
    heap.push(3, 'a');
    heap.push(7, 'b');
    heap.push(5, 'c');
    assert_eq!(heap.peek(), Some((7, 'b')));
    assert_eq!(heap.pop(), Some((7, 'b')));
    assert_eq!(heap.pop(), Some((5, 'c')));
    assert_eq!(heap.pop(), Some((3, 'a')));
    assert_eq!(heap.pop(), None);
    assert_eq!(heap.peek(), None);
}

#[test]
fn skew_heap_add_all_and_merge() {
    let mut a = SkewHeap::new();
    a.push(1, 10);
    a.push(4, 40);
    a.add_all(-2);
    let mut b = SkewHeap::new();
    b.push(3, 30);
    b.add_all(5);
    a.merge_with(b);
    assert_eq!(a.pop(), Some((8, 30)));
    assert_eq!(a.pop(), Some((2, 40)));
    assert_eq!(a.pop(), Some((-1, 10)));
    assert!(a.is_empty());
}
