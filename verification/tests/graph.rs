use roads_from_nd::error::Error;
use roads_from_nd::graph::{Edge, Graph, Node, MIN_CAPACITY};

fn arcs(g: &Graph, v: usize) -> Vec<(usize, u64)> {
    (0..g.degree(v)).map(|k| g.arc(v, k)).collect()
}

#[test]
fn roads_become_arcs_by_capacity() {
    let nodes = vec![Node::new(1, 0, 0), Node::new(2, 5, 5), Node::new(3, 9, 9)];
    let edges = vec![
        Edge::new(1, 2, 600, 2, 3),
        Edge::new(2, 3, 601, 3, 1),
        Edge::new(3, 1, 10, 0, 6),
        Edge::new(1, 3, 50, 1, -1),
    ];
    let g = Graph::from_osm(nodes, &edges).unwrap();
    assert_eq!(g.len(), 3);
    assert_eq!(arcs(&g, 0), vec![(1, 300), (2, 1)]);
    assert_eq!(arcs(&g, 1), vec![(0, 200), (2, 200)]);
    assert_eq!(arcs(&g, 2), vec![]);
}

#[test]
fn the_least_capacity_that_counts_is_two() {
    assert_eq!(MIN_CAPACITY, 2);
    let nodes = vec![Node::new(1, 0, 0), Node::new(2, 5, 5)];
    let g = Graph::from_osm(nodes, &vec![Edge::new(1, 2, 7, 1, 2)]).unwrap();
    assert_eq!(arcs(&g, 0), vec![]);
    assert_eq!(arcs(&g, 1), vec![(0, 3)]);
}

#[test]
fn a_road_from_a_node_to_itself_adds_both_arcs_there() {
    let nodes = vec![Node::new(1, 0, 0)];
    let g = Graph::from_osm(nodes, &vec![Edge::new(1, 1, 12, 2, 4)]).unwrap();
    assert_eq!(arcs(&g, 0), vec![(0, 6), (0, 3)]);
}

#[test]
fn a_drivable_road_to_an_unknown_node_is_refused() {
    let nodes = vec![Node::new(1, 0, 0), Node::new(2, 5, 5)];
    let dangling = vec![Edge::new(1, 2, 5, 2, 2), Edge::new(2, 7, 5, 2, 0)];
    assert!(matches!(Graph::from_osm(nodes.clone(), &dangling), Err(Error::MalformedRecord)));
    let from_nowhere = vec![Edge::new(7, 2, 5, 0, 3)];
    assert!(matches!(Graph::from_osm(nodes.clone(), &from_nowhere), Err(Error::MalformedRecord)));
    let closed = vec![Edge::new(2, 7, 5, 1, 0)];
    let g = Graph::from_osm(nodes, &closed).unwrap();
    assert_eq!(arcs(&g, 1), vec![]);
}

#[test]
fn a_record_that_names_no_vertex_is_refused() {
    let nodes = vec![Node::new(1, 0, 0), Node::new(2, 5, 5)];
    assert!(matches!(
        Graph::from_records(nodes.clone(), &vec![(0, 1, 3), (0, 2, 3)]),
        Err(Error::MalformedRecord)
    ));
    assert!(matches!(
        Graph::from_records(nodes.clone(), &vec![(2, 0, 3)]),
        Err(Error::MalformedRecord)
    ));
    assert!(matches!(Graph::from_records(vec![], &vec![(0, 0, 0)]), Err(Error::MalformedRecord)));
    let g = Graph::from_records(nodes, &vec![(1, 0, 3), (1, 1, 4), (0, 1, 5), (1, 0, 6)]).unwrap();
    assert_eq!(arcs(&g, 0), vec![(1, 5)]);
    assert_eq!(arcs(&g, 1), vec![(0, 3), (1, 4), (0, 6)]);
}

#[test]
fn nodes_are_found_by_identifier() {
    let nodes = vec![Node::new(-5, 1, 2), Node::new(40, 3, 4), Node::new(i64::MAX, 5, 6)];
    let g = Graph::from_records(nodes, &vec![]).unwrap();
    assert_eq!(g.vertex_of(-5), Ok(0));
    assert_eq!(g.vertex_of(40), Ok(1));
    assert_eq!(g.vertex_of(i64::MAX), Ok(2));
    assert_eq!(g.vertex_of(0), Err(Error::NotFound));
    assert_eq!(g.node(1), Node { id: 40, lon: 3, lat: 4 });
}

#[test]
fn the_last_node_with_an_identifier_stands_for_it() {
    let nodes = vec![Node::new(8, 0, 0), Node::new(9, 1, 1), Node::new(8, 2, 2)];
    let g = Graph::from_osm(nodes, &vec![Edge::new(9, 8, 10, 5, 0)]).unwrap();
    assert_eq!(g.vertex_of(8), Ok(2));
    assert_eq!(arcs(&g, 1), vec![(2, 2)]);
    assert_eq!(arcs(&g, 0), vec![]);
}

#[test]
fn an_empty_list_gives_an_empty_graph() {
    let g = Graph::from_osm(vec![], &vec![]).unwrap();
    assert_eq!(g.len(), 0);
    assert_eq!(g.vertex_of(1), Err(Error::NotFound));
}

#[test]
fn the_capacity_that_counts_can_be_chosen() {
    let nodes = vec![Node::new(1, 0, 0), Node::new(2, 5, 5)];
    let edges = vec![Edge::new(1, 2, 60, 1, 4), Edge::new(1, 2, 9, 0, -1), Edge::new(2, 1, 7, 3, 3)];
    let all = Graph::from_roads(nodes.clone(), &edges, 1).unwrap();
    assert_eq!(arcs(&all, 0), vec![(1, 60), (1, 2)]);
    assert_eq!(arcs(&all, 1), vec![(0, 15), (0, 2)]);
    let wide = Graph::from_roads(nodes.clone(), &edges, 4).unwrap();
    assert_eq!(arcs(&wide, 0), vec![]);
    assert_eq!(arcs(&wide, 1), vec![(0, 15)]);
    let none = Graph::from_roads(nodes.clone(), &edges, i8::MAX).unwrap();
    assert_eq!(arcs(&none, 0), vec![]);
    assert_eq!(arcs(&none, 1), vec![]);
    // A class below one has nothing to divide by, whatever is let in.
    let any = Graph::from_roads(nodes.clone(), &edges, i8::MIN).unwrap();
    assert_eq!(arcs(&any, 0), vec![(1, 60), (1, 2)]);
    assert_eq!(arcs(&any, 1), vec![(0, 15), (0, 2)]);
    let same = Graph::from_osm(nodes.clone(), &edges).unwrap();
    let two = Graph::from_roads(nodes, &edges, 2).unwrap();
    assert_eq!(arcs(&same, 0), arcs(&two, 0));
    assert_eq!(arcs(&same, 1), arcs(&two, 1));
    assert_eq!(arcs(&same, 1), vec![(0, 15), (0, 2)]);
}

#[test]
fn a_road_is_only_asked_for_its_ends_if_it_is_let_in() {
    let nodes = vec![Node::new(1, 0, 0)];
    let edges = vec![Edge::new(1, 9, 60, 3, 0)];
    assert!(Graph::from_roads(nodes.clone(), &edges, 4).is_ok());
    assert!(matches!(Graph::from_roads(nodes, &edges, 3), Err(Error::MalformedRecord)));
}
