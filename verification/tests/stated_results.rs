use network_algorithms::data_structures::skew_heap::SkewHeap;
use network_algorithms::data_structures::union_find::UnionFind;
use network_algorithms::graph::ids::NodeId;
use network_algorithms::shortest_path::bellman_ford::BellmanFord as OneShotBellmanFord;
use network_algorithms::shortest_path::graph::ShortestPathGraph;

#[test]
fn union_find_group_lists_the_whole_set() {
    let mut uf = UnionFind::new(6);
    uf.union(0, 3);
    uf.union(4, 3);
    uf.union(1, 2);
    let mut g = uf.group(4);
    assert_eq!(g[0], uf.find(4));
    g.sort();
    assert_eq!(g, vec![0, 3, 4]);
    let mut h = uf.group(2);
    h.sort();
    assert_eq!(h, vec![1, 2]);
    assert_eq!(uf.group(5), vec![5]);
}

#[test]
fn skew_heap_peek_shows_what_pop_takes() {
    let mut heap = SkewHeap::new();
    heap.push(4, 'x');
    heap.push(4, 'y');
    heap.push(1, 'z');
    let seen = heap.peek();
    assert_eq!(heap.pop(), seen);
}

#[test]
fn bellman_ford_negative_edge_without_cycle_is_solved() {
    let mut g = ShortestPathGraph::new();
    let n = g.add_nodes(3);
    g.add_edge(n[0], n[1], 4).unwrap();
    g.add_edge(n[1], n[2], -2).unwrap();
    g.add_edge(n[2], n[1], 3).unwrap();
    let d = OneShotBellmanFord::default().solve(g.graph(), NodeId(0)).unwrap();
    assert_eq!(d, vec![Some(0), Some(4), Some(2)]);
}
