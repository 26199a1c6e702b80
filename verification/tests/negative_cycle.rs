use network_algorithms::minimum_cost_flow::cycle_canceling::{find_negative_cycle, CycleSearch};

#[test]
fn negative_arc_without_negative_cycle_settles() {
    let list = vec![(0usize, 1usize, 2i64), (1, 2, -3), (2, 0, 1)];
    match find_negative_cycle(3, &list) {
        CycleSearch::Settled(dist) => {
            assert_eq!(dist, vec![-2, 0, -3]);
            for &(u, v, w) in &list {
                assert!(dist[v] <= dist[u] + w);
            }
        },
        _ => panic!("expected distances"),
    }
}

#[test]
fn negative_cycle_is_found() {
    let list = vec![(0usize, 1usize, 1i64), (1, 2, -3), (2, 0, 1), (2, 3, 5)];
    match find_negative_cycle(4, &list) {
        CycleSearch::Cycle(c) => {
            let total: i64 = c.iter().map(|&i| list[i].2).sum();
            assert!(total < 0);
            assert_eq!(c.len(), 3);
        },
        _ => panic!("expected a cycle"),
    }
}

#[test]
fn nonnegative_arcs_settle_at_zero() {
    let list = vec![(0usize, 1usize, 4i64), (1, 0, 0)];
    match find_negative_cycle(2, &list) {
        CycleSearch::Settled(dist) => assert_eq!(dist, vec![0, 0]),
        _ => panic!("expected distances"),
    }
}
