use roads_from_nd::forest::check_forest;
use roads_from_nd::graph::{Graph, Node};
use roads_from_nd::paths::Strategy;

fn graph_of(n: usize, records: &[(usize, usize, u64)]) -> Graph {
    let nodes = (0..n).map(|i| Node::new(i as i64, 0, 0)).collect();
    Graph::from_records(nodes, &records.to_vec()).unwrap()
}

fn depth(pred: &[usize], mut v: usize) -> usize {
    let mut steps = 0;
    while pred[v] != v {
        v = pred[v];
        steps += 1;
    }
    steps
}

#[test]
fn cycle_fixture_usage() {
    let g = graph_of(4, &[(0, 1, 1), (1, 2, 1), (2, 3, 1)]);
    let pred = g.dijkstra(0).unwrap();
    assert_eq!(g.count_uses(&pred), vec![((2, 3), 1), ((1, 2), 2), ((0, 1), 3)]);
}

#[test]
fn every_edge_counts_the_walks_below_it() {
    //        0
    //      /   \
    //     1     2
    //    / \     \
    //   3   4     5      6 is left alone
    let pred = vec![0, 0, 0, 1, 1, 2, 6];
    assert!(check_forest(&pred));
    let g = graph_of(7, &[]);
    assert_eq!(
        g.count_uses(&pred),
        vec![((1, 3), 1), ((1, 4), 1), ((2, 5), 1), ((0, 2), 2), ((0, 1), 3)]
    );
}

#[test]
fn equal_counts_are_listed_by_the_vertex_the_edge_leads_to() {
    let pred = vec![3, 3, 3, 3, 3];
    let g = graph_of(5, &[]);
    assert_eq!(g.count_uses(&pred), vec![((3, 0), 1), ((3, 1), 1), ((3, 2), 1), ((3, 4), 1)]);
}

#[test]
fn counting_again_gives_the_same_list() {
    let g = graph_of(6, &[(0, 1, 1), (0, 2, 1), (1, 3, 1), (2, 3, 1), (3, 4, 0), (4, 5, 2)]);
    let pred = g.dijkstra(0).unwrap();
    let first = g.count_uses(&pred);
    let second = g.count_uses(&pred);
    assert_eq!(first, second);
    assert_eq!(first.len(), 5);
}

#[test]
fn the_counts_add_up_to_the_steps_of_all_walks() {
    let records = [(0, 1, 3), (1, 2, 1), (0, 2, 9), (2, 3, 2), (3, 4, 2), (1, 5, 1), (6, 0, 1)];
    let g = graph_of(7, &records);
    for strategy in [Strategy::Directed, Strategy::Undirected] {
        let found = g.shortest_paths(strategy, 0).unwrap();
        let uses = g.count_uses(&found.pred);
        let total: usize = uses.iter().map(|&(_, c)| c).sum();
        let steps: usize = (0..7).map(|v| depth(&found.pred, v)).sum();
        assert_eq!(total, steps);
        for &((u, v), c) in &uses {
            assert_eq!(found.pred[v], u);
            assert!(c >= 1);
            let through = (0..7)
                .filter(|&d| {
                    let mut x = d;
                    while found.pred[x] != x && x != v {
                        x = found.pred[x];
                    }
                    x == v
                })
                .count();
            assert_eq!(c, through);
        }
    }
    let found = g.shortest_paths(Strategy::Directed, 0).unwrap();
    assert_eq!(found.pred, vec![0, 0, 1, 2, 3, 1, 6]);
    assert_eq!(
        g.count_uses(&found.pred),
        vec![((3, 4), 1), ((1, 5), 1), ((2, 3), 2), ((1, 2), 3), ((0, 1), 5)]
    );
}

#[test]
fn a_lone_source_uses_no_edge() {
    let g = graph_of(1, &[]);
    let pred = g.dijkstra(0).unwrap();
    assert_eq!(pred, vec![0]);
    assert_eq!(g.count_uses(&pred), vec![]);
}

#[test]
fn forests_are_told_from_what_is_none() {
    assert!(check_forest(&vec![]));
    assert!(check_forest(&vec![0]));
    assert!(check_forest(&vec![0, 0, 1, 2]));
    assert!(check_forest(&vec![1, 2, 3, 3]));
    assert!(check_forest(&vec![0, 1, 2]));
    assert!(check_forest(&vec![4, 4, 4, 4, 4]));
    // A predecessor that is no vertex.
    assert!(!check_forest(&vec![1]));
    assert!(!check_forest(&vec![0, 2]));
    assert!(!check_forest(&vec![usize::MAX, 0]));
    // Walks that never end.
    assert!(!check_forest(&vec![1, 0]));
    assert!(!check_forest(&vec![1, 2, 0]));
    assert!(!check_forest(&vec![0, 2, 3, 1]));
    assert!(!check_forest(&vec![0, 0, 3, 4, 2, 2]));
}
