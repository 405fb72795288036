use roads_from_nd::error::Error;
use roads_from_nd::forest::check_forest;
use roads_from_nd::graph::{Graph, Node};
use roads_from_nd::paths::Strategy;

fn plain_nodes(n: usize) -> Vec<Node> {
    (0..n).map(|i| Node::new(100 + i as i64, i as i32, -(i as i32))).collect()
}

fn graph_of(n: usize, records: &[(usize, usize, u64)]) -> Graph {
    Graph::from_records(plain_nodes(n), &records.to_vec()).unwrap()
}

/// A small generator of repeatable numbers.
struct Dice(u64);

impl Dice {
    fn roll(&mut self, sides: u64) -> u64 {
        self.0 = self.0.wrapping_mul(6364136223846793005).wrapping_add(1442695040888963407);
        (self.0 >> 33) % sides
    }
}

/// All distances from `s` by trying every hop until nothing improves.
fn brute_force(n: usize, records: &[(usize, usize, u64)], both_ways: bool, s: usize) -> Vec<Option<u128>> {
    let mut dist: Vec<Option<u128>> = vec![None; n];
    dist[s] = Some(0);
    for _ in 0..n {
        for &(a, b, w) in records {
            let mut hops = vec![(a, b)];
            if both_ways {
                hops.push((b, a));
            }
            for (from, to) in hops {
                if let Some(d) = dist[from] {
                    let through = d + w as u128;
                    if dist[to].map_or(true, |old| through < old) {
                        dist[to] = Some(through);
                    }
                }
            }
        }
    }
    dist
}

fn random_records(dice: &mut Dice, n: usize) -> Vec<(usize, usize, u64)> {
    let count = dice.roll(3 * n as u64 + 1) as usize;
    (0..count)
        .map(|_| {
            (dice.roll(n as u64) as usize, dice.roll(n as u64) as usize, dice.roll(7))
        })
        .collect()
}

fn check_against_brute_force(strategy: Strategy, both_ways: bool) {
    let mut dice = Dice(2017);
    for round in 0..300 {
        let n = 1 + (round % 20);
        let records = random_records(&mut dice, n);
        let g = graph_of(n, &records);
        let s = dice.roll(n as u64) as usize;
        let found = g.shortest_paths(strategy, s).unwrap();
        let expected = brute_force(n, &records, both_ways, s);
        assert_eq!(found.dist, expected);
        assert_eq!(found.pred.len(), n);
        assert_eq!(found.pred[s], s);
        assert!(check_forest(&found.pred));
        for v in 0..n {
            if v != s {
                assert_eq!(found.pred[v] == v, expected[v].is_none());
            }
            if v != s && expected[v].is_some() {
                let u = found.pred[v];
                let step = expected[v].unwrap() - expected[u].unwrap();
                assert!(records.iter().any(|&(a, b, w)| {
                    w as u128 == step && ((a == u && b == v) || (both_ways && a == v && b == u))
                }));
            }
        }
    }
}

#[test]
fn compare_inf() {
    assert!(32. < f64::INFINITY);
}

#[test]
fn directed_distances_match_brute_force() {
    check_against_brute_force(Strategy::Directed, false);
}

#[test]
fn undirected_distances_match_brute_force() {
    check_against_brute_force(Strategy::Undirected, true);
}

#[test]
fn cycle_fixture_predecessors() {
    let g = graph_of(4, &[(0, 1, 1), (1, 2, 1), (2, 3, 1)]);
    assert_eq!(g.dijkstra(100), Ok(vec![0, 0, 1, 2]));
    let found = g.shortest_paths(Strategy::Directed, 0).unwrap();
    assert_eq!(found.pred, vec![0, 0, 1, 2]);
    assert_eq!(found.dist, vec![Some(0), Some(1), Some(2), Some(3)]);
}

#[test]
fn source_is_its_own_predecessor_and_so_is_what_it_cannot_reach() {
    let g = graph_of(5, &[(1, 2, 4), (2, 3, 1), (0, 1, 9)]);
    let found = g.shortest_paths(Strategy::Directed, 1).unwrap();
    assert_eq!(found.pred, vec![0, 1, 1, 2, 4]);
    assert_eq!(found.dist, vec![None, Some(0), Some(4), Some(5), None]);
}

#[test]
fn undirected_search_walks_against_the_arcs() {
    let g = graph_of(3, &[(0, 1, 2), (2, 1, 3)]);
    let along = g.shortest_paths(Strategy::Directed, 0).unwrap();
    assert_eq!(along.dist, vec![Some(0), Some(2), None]);
    assert_eq!(along.pred, vec![0, 0, 2]);
    let both = g.shortest_paths(Strategy::Undirected, 0).unwrap();
    assert_eq!(both.dist, vec![Some(0), Some(2), Some(5)]);
    assert_eq!(both.pred, vec![0, 0, 1]);
    let back = g.shortest_paths(Strategy::Undirected, 2).unwrap();
    assert_eq!(back.dist, vec![Some(5), Some(3), Some(0)]);
    assert_eq!(back.pred, vec![1, 2, 2]);
}

#[test]
fn a_label_that_improves_later_replaces_the_stale_one() {
    // Vertex 2 is first reached at 10, then at 3 through vertex 1; vertex 3
    // hangs below it and must see the better label.
    let g = graph_of(4, &[(0, 2, 10), (0, 1, 1), (1, 2, 2), (2, 3, 1)]);
    let found = g.shortest_paths(Strategy::Directed, 0).unwrap();
    assert_eq!(found.dist, vec![Some(0), Some(1), Some(3), Some(4)]);
    assert_eq!(found.pred, vec![0, 0, 1, 2]);
}

#[test]
fn the_lighter_of_two_parallel_arcs_is_taken() {
    let g = graph_of(2, &[(0, 1, 7), (0, 1, 4), (0, 1, 9)]);
    let found = g.shortest_paths(Strategy::Directed, 0).unwrap();
    assert_eq!(found.dist, vec![Some(0), Some(4)]);
}

#[test]
fn arcs_of_no_weight_form_no_cycle_of_predecessors() {
    let g = graph_of(4, &[(0, 1, 0), (1, 2, 0), (2, 1, 0), (2, 3, 0), (3, 0, 0), (1, 1, 0)]);
    for strategy in [Strategy::Directed, Strategy::Undirected] {
        let found = g.shortest_paths(strategy, 0).unwrap();
        assert_eq!(found.dist, vec![Some(0); 4]);
        assert!(check_forest(&found.pred));
        assert_eq!(found.pred[0], 0);
        assert!((1..4).all(|v| found.pred[v] != v));
    }
}

#[test]
fn distances_outgrow_sixty_four_bits() {
    let w = u64::MAX;
    let g = graph_of(4, &[(0, 1, w), (1, 2, w), (2, 3, w)]);
    let found = g.shortest_paths(Strategy::Directed, 0).unwrap();
    assert_eq!(found.dist[3], Some(3 * (w as u128)));
    assert_eq!(found.dist[3], Some(55340232221128654845));
}

#[test]
fn a_source_that_is_no_vertex_is_refused() {
    let g = graph_of(4, &[(0, 1, 1)]);
    assert!(matches!(g.shortest_paths(Strategy::Directed, 4), Err(Error::InvalidSource)));
    assert!(matches!(g.shortest_paths(Strategy::Undirected, 4), Err(Error::InvalidSource)));
    assert!(matches!(g.shortest_paths(Strategy::Directed, usize::MAX), Err(Error::InvalidSource)));
    assert!(g.shortest_paths(Strategy::Directed, 3).is_ok());
    assert_eq!(g.dijkstra(99), Err(Error::InvalidSource));
    assert_eq!(g.dijkstra(104), Err(Error::InvalidSource));
    assert!(g.dijkstra(103).is_ok());
    let empty = graph_of(0, &[]);
    assert!(matches!(empty.shortest_paths(Strategy::Directed, 0), Err(Error::InvalidSource)));
}

#[test]
fn a_lone_source_reaches_only_itself() {
    let g = graph_of(1, &[]);
    let found = g.shortest_paths(Strategy::Directed, 0).unwrap();
    assert_eq!(found.pred, vec![0]);
    assert_eq!(found.dist, vec![Some(0)]);
}
