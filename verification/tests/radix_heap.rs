use network_algorithms::data_structures::radix_heap::RadixHeap;

#[test]
fn radix_heap_test() {
    let mut heap = RadixHeap::<i32>::new(5);

    heap.push(1, 0);
    heap.push(3, 1);
    heap.push(2, 2);
    assert_eq!(Some((1, 0)), heap.pop());

    heap.push(4, 3);
    heap.push(4, 3);
    assert_eq!(Some((2, 2)), heap.pop());
    assert_eq!(Some((3, 1)), heap.pop());
    assert_eq!(Some((4, 3)), heap.pop());
    assert_eq!(Some((4, 3)), heap.pop());
    assert_eq!(None, heap.pop());
}

#[test]
fn radix_heap_len_and_empty() {
    let mut heap = RadixHeap::<&str>::new(10);
    assert!(heap.is_empty());
    heap.push(7, "a");
    heap.push(3, "b");
    assert_eq!(heap.len(), 2);
    assert_eq!(heap.pop(), Some((3, "b")));
    heap.push(5, "c");
    assert_eq!(heap.pop(), Some((5, "c")));
    assert_eq!(heap.pop(), Some((7, "a")));
    assert!(heap.is_empty());
    assert_eq!(heap.pop(), None);
}
