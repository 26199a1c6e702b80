use network_algorithms::graph::direction::Directed;
use network_algorithms::graph::graph::Graph;
use network_algorithms::graph::ids::EdgeId;
use network_algorithms::shortest_path::csr::WeightEdge;
use network_algorithms::spanning_tree::edmonds::Edmonds;

fn graph_with(n: usize, edges: &[(usize, usize, i64)]) -> Graph<Directed, (), WeightEdge> {
    let mut graph: Graph<Directed, (), WeightEdge> = Graph::new();
    let nodes = graph.add_nodes(n);
    for &(u, v, w) in edges {
        graph.add_directed_edge(nodes[u], nodes[v], WeightEdge { weight: w });
    }
    graph
}

fn sorted(ids: &[EdgeId]) -> Vec<usize> {
    let mut v: Vec<usize> = ids.iter().map(|e| e.0).collect();
    v.sort();
    v
}

#[test]
fn edmonds_contracts_a_cycle() {
    let graph = graph_with(4, &[(0, 1, 5), (1, 2, 1), (2, 1, 1), (0, 2, 6), (2, 3, 2)]);
    let mut solver = Edmonds::default();
    let (cost, edges) = solver.solve(&graph, 0).unwrap();
    assert_eq!(cost, 8);
    assert_eq!(sorted(&edges), vec![0, 1, 4]);
}

#[test]
fn edmonds_without_cycles_takes_the_cheapest_entries() {
    let graph = graph_with(3, &[(0, 1, 3), (0, 2, 7), (1, 2, 2), (2, 1, 9)]);
    let mut solver = Edmonds::default();
    let (cost, edges) = solver.solve(&graph, 0).unwrap();
    assert_eq!(cost, 5);
    assert_eq!(sorted(&edges), vec![0, 2]);
}

#[test]
fn edmonds_unreachable_node_gives_none() {
    let graph = graph_with(4, &[(0, 1, 1), (1, 2, 1), (3, 3, 1)]);
    let mut solver = Edmonds::default();
    assert!(solver.solve(&graph, 0).is_none());
}

#[test]
fn edmonds_negative_weights() {
    let graph = graph_with(3, &[(0, 1, -4), (1, 2, -1), (2, 1, -3), (0, 2, 2)]);
    let mut solver = Edmonds::default();
    let (cost, edges) = solver.solve(&graph, 0).unwrap();
    assert_eq!(cost, -5);
    assert_eq!(sorted(&edges), vec![0, 1]);
}

#[test]
fn edmonds_single_node() {
    let graph = graph_with(1, &[]);
    let mut solver = Edmonds::default();
    let (cost, edges) = solver.solve(&graph, 0).unwrap();
    assert_eq!(cost, 0);
    assert!(edges.is_empty());
}

#[test]
fn edmonds_result_leads_back_to_the_root() {
    let edges = [
        (0, 1, 10),
        (1, 2, 1),
        (2, 3, 1),
        (3, 1, 1),
        (3, 4, 2),
        (4, 5, 1),
        (5, 4, 1),
        (0, 4, 20),
        (2, 5, 30),
    ];
    let graph = graph_with(6, &edges);
    let mut solver = Edmonds::default();
    let (cost, ids) = solver.solve(&graph, 0).unwrap();
    let mut parent = vec![usize::MAX; 6];
    let mut total = 0;
    for id in ids.iter() {
        let (u, v, w) = edges[id.0];
        assert_eq!(parent[v], usize::MAX);
        parent[v] = u;
        total += w;
    }
    assert_eq!(total, cost);
    assert_eq!(cost, 15);
    for x in 1..6 {
        let mut y = x;
        let mut steps = 0;
        while y != 0 {
            y = parent[y];
            steps += 1;
            assert!(steps <= 6);
        }
    }
}

fn brute_force_minimum(n: usize, edges: &[(usize, usize, i64)], root: usize) -> Option<i64> {
    // every node but the root picks one entering edge; keep the choices
    // that lead back to the root from every node
    let mut best: Option<i64> = None;
    let others: Vec<usize> = (0..n).filter(|&x| x != root).collect();
    let mut choice = vec![0usize; others.len()];
    loop {
        let mut parent = vec![usize::MAX; n];
        let mut cost = 0;
        let mut ok = true;
        for (k, &x) in others.iter().enumerate() {
            let entering: Vec<usize> = (0..edges.len()).filter(|&i| edges[i].1 == x).collect();
            if entering.is_empty() {
                return None;
            }
            let i = entering[choice[k] % entering.len()];
            parent[x] = edges[i].0;
            cost += edges[i].2;
        }
        for &x in others.iter() {
            let mut y = x;
            let mut steps = 0;
            while y != root && steps <= n {
                y = parent[y];
                steps += 1;
            }
            if y != root {
                ok = false;
            }
        }
        if ok {
            best = Some(match best {
                Some(b) if b <= cost => b,
                _ => cost,
            });
        }
        let mut k = 0;
        loop {
            if k == others.len() {
                return best;
            }
            choice[k] += 1;
            if choice[k] < edges.len() {
                break;
            }
            choice[k] = 0;
            k += 1;
        }
    }
}

#[test]
fn edmonds_matches_brute_force() {
    let edges = [
        (0, 1, 6),
        (0, 2, 9),
        (1, 2, 2),
        (2, 1, -3),
        (2, 3, 4),
        (3, 1, 1),
        (1, 3, 7),
        (3, 2, 2),
        (0, 3, 10),
    ];
    let graph = graph_with(4, &edges);
    let mut solver = Edmonds::default();
    let (cost, _) = solver.solve(&graph, 0).unwrap();
    assert_eq!(Some(cost), brute_force_minimum(4, &edges, 0));
}
