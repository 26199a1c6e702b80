use network_algorithms::data_structures::bit_vector::BitVector;
use network_algorithms::data_structures::rollback_union_find::RollbackUnionFind;
use network_algorithms::data_structures::simple_queue::SimpleQueue;
use network_algorithms::data_structures::union_find::UnionFind;

#[test]
fn bit_vector_set_get_clear() {
    let mut bv = BitVector::new(130);
    assert_eq!(bv.len(), 130);
    assert!(!bv.get(129));
    bv.set(0, true);
    bv.set(64, true);
    bv.set(129, true);
    assert!(bv.get(0) && bv.get(64) && bv.get(129));
    assert!(!bv.get(63) && !bv.get(65));
    bv.set(64, false);
    assert!(!bv.get(64));
    bv.clear();
    assert!(!bv.get(0) && !bv.get(129));
    assert_eq!(bv.len(), 130);
}

#[test]
fn simple_queue_is_first_in_first_out() {
    let mut q = SimpleQueue::new();
    assert!(q.is_empty());
    q.push(1);
    q.push(2);
    q.extend(vec![3, 4]);
    assert_eq!(q.len(), 4);
    assert_eq!(q.peek(), Some(&1));
    assert_eq!(q.pop(), Some(1));
    assert_eq!(q.pop(), Some(2));
    assert_eq!(q.len(), 2);
    q.reset();
    assert!(q.is_empty());
    assert_eq!(q.pop(), None);
    let mut r: SimpleQueue<u8> = SimpleQueue::with_capacity(8);
    assert_eq!(r.peek(), None);
    r.push(9);
    assert_eq!(r.pop(), Some(9));
}

#[test]
fn union_find_groups() {
    let mut uf = UnionFind::new(6);
    assert!(!uf.same(0, 1));
    assert!(uf.union(0, 1));
    assert!(uf.union(1, 2));
    assert!(!uf.union(0, 2));
    assert!(uf.same(0, 2));
    assert_eq!(uf.size(2), 3);
    assert_eq!(uf.size(5), 1);
    assert_eq!(uf.find(0), uf.find(2));
    let mut g = uf.group(1);
    g.sort();
    assert_eq!(g, vec![0, 1, 2]);
    assert_eq!(uf.group(4), vec![4]);
}

#[test]
fn rollback_union_find_undoes_unions() {
    let mut uf = RollbackUnionFind::new(5);
    assert_eq!(uf.time(), 0);
    assert!(uf.union(0, 1));
    let t = uf.time();
    assert!(uf.union(1, 2));
    assert!(uf.union(3, 4));
    assert!(!uf.union(0, 2));
    assert!(uf.same(0, 2));
    assert_eq!(uf.time(), 3);
    uf.rollback(t);
    assert_eq!(uf.time(), 1);
    assert!(uf.same(0, 1));
    assert!(!uf.same(0, 2));
    assert!(!uf.same(3, 4));
    uf.rollback(0);
    assert!(!uf.same(0, 1));
}
