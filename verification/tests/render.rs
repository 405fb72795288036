use roads_from_nd::error::Error;
use roads_from_nd::graph::{Graph, Node};
use roads_from_nd::paths::Strategy;
use roads_from_nd::render::{page, Page, Row, Stroke, Weight};

fn town() -> Graph {
    let nodes = vec![
        Node::new(1, 2_000_000, 48_000_000),
        Node::new(2, 2_500_000, 48_400_000),
        Node::new(3, 1_900_000, 49_000_001),
        Node::new(4, -3_000_000, -1_000_000),
    ];
    Graph::from_records(nodes, &vec![(0, 1, 5), (1, 2, 5), (0, 3, 50)]).unwrap()
}

#[test]
fn the_box_is_the_least_around_the_vertices_reached() {
    let g = town();
    let pred = g.dijkstra(1).unwrap();
    assert_eq!(pred, vec![0, 0, 1, 0]);
    assert_eq!(g.bounds(&pred), (-3_000_000, 2_500_000, -1_000_000, 49_000_001));
    assert_eq!(g.bounds(&vec![0, 0, 1, 3]), (1_900_000, 2_500_000, 48_400_000, 49_000_001));
    assert_eq!(g.bounds(&vec![0, 0, 2, 3]), (2_500_000, 2_500_000, 48_400_000, 48_400_000));
}

#[test]
fn the_root_lies_outside_the_box() {
    let g = town();
    // Only vertex 3 hangs below the root, which lies further east and north.
    assert_eq!(g.bounds(&vec![0, 1, 2, 0]), (-3_000_000, -3_000_000, -1_000_000, -1_000_000));
}

#[test]
fn a_lone_source_has_the_empty_box_and_nothing_to_draw() {
    let g = Graph::from_records(vec![Node::new(7, 11, 22)], &vec![]).unwrap();
    let pred = g.dijkstra(7).unwrap();
    let uses = g.count_uses(&pred);
    assert!(uses.is_empty());
    let b = g.bounds(&pred);
    assert_eq!(b, (i32::MAX, i32::MIN, i32::MAX, i32::MIN));
    let map = g.render(&uses, 100000, b);
    assert_eq!(map.page, None);
    assert!(map.strokes.is_empty());
    assert!(g.rows(&uses).is_empty());
}

#[test]
fn the_sheet_spans_the_box() {
    assert_eq!(
        page((-3_000_000, 2_500_000, -1_000_000, 49_000_001)),
        Some(Page { width: 5_500_000, height: 50_000_001, mean_lat: 24_000_000 })
    );
    assert_eq!(page((5, 5, 9, 9)), Some(Page { width: 0, height: 0, mean_lat: 9 }));
    assert_eq!(page((0, 1, -7, -4)), Some(Page { width: 1, height: 3, mean_lat: -6 }));
    assert_eq!(
        page((i32::MIN, i32::MAX, i32::MIN, i32::MAX)),
        Some(Page { width: 4294967295, height: 4294967295, mean_lat: -1 })
    );
    assert_eq!(page((6, 5, 0, 0)), None);
    assert_eq!(page((0, 0, 1, 0)), None);
    assert_eq!(page((i32::MAX, i32::MIN, i32::MAX, i32::MIN)), None);
}

#[test]
fn strokes_are_placed_from_the_lower_left_corner() {
    let g = town();
    let pred = g.dijkstra(1).unwrap();
    let uses = g.count_uses(&pred);
    assert_eq!(uses, vec![((1, 2), 1), ((0, 3), 1), ((0, 1), 2)]);
    let b = g.bounds(&pred);
    let map = g.render(&uses, 10, b);
    assert_eq!(map.page, page(b));
    assert_eq!(
        map.strokes,
        vec![
            Stroke {
                x_a: 5_500_000,
                y_a: 49_400_000,
                x_b: 4_900_000,
                y_b: 50_000_001,
                weight: Weight::Share { count: 1, of: 2 },
            },
            Stroke {
                x_a: 5_000_000,
                y_a: 49_000_000,
                x_b: 0,
                y_b: 0,
                weight: Weight::Share { count: 1, of: 2 },
            },
            Stroke {
                x_a: 5_000_000,
                y_a: 49_000_000,
                x_b: 5_500_000,
                y_b: 49_400_000,
                weight: Weight::Share { count: 2, of: 2 },
            },
        ]
    );
}

#[test]
fn only_the_busiest_edges_are_kept_and_the_busiest_is_drawn_last() {
    let g = town();
    let uses = vec![((1, 2), 1), ((0, 3), 1), ((3, 2), 4), ((0, 1), 9)];
    let b = (0, 10, 0, 10);
    for keep in 0..4 {
        let map = g.render(&uses, keep, b);
        assert_eq!(map.strokes.len(), keep);
        let all = g.render(&uses, 4, b);
        assert_eq!(map.strokes[..], all.strokes[4 - keep..]);
    }
    let two = g.render(&uses, 2, b);
    assert_eq!(two.strokes[0].weight, Weight::Share { count: 4, of: 9 });
    assert_eq!(two.strokes[1].weight, Weight::Share { count: 9, of: 9 });
    for keep in [4, 5, 100000, usize::MAX] {
        assert_eq!(g.render(&uses, keep, b).strokes.len(), 4);
    }
}

#[test]
fn strokes_are_weighed_against_the_busiest_edge_of_the_whole_list() {
    let g = town();
    let uses = vec![((0, 1), 7), ((1, 2), 3), ((0, 3), 5)];
    let map = g.render(&uses, 1, (0, 0, 0, 0));
    assert_eq!(map.strokes.len(), 1);
    assert_eq!(map.strokes[0].weight, Weight::Share { count: 5, of: 7 });
}

#[test]
fn where_no_edge_is_used_twice_every_stroke_is_the_thinnest() {
    let g = town();
    let uses = vec![((0, 1), 1), ((0, 2), 1), ((0, 3), 1)];
    let map = g.render(&uses, 3, (0, 10, 0, 10));
    assert_eq!(map.strokes.len(), 3);
    assert!(map.strokes.iter().all(|s| s.weight == Weight::Thinnest));
    let star = Graph::from_records(
        vec![Node::new(0, 0, 0), Node::new(1, 1, 1), Node::new(2, 2, 2)],
        &vec![(0, 1, 1), (0, 2, 1)],
    )
    .unwrap();
    let drawn = star.flow_map(Strategy::Directed, 0, 10).unwrap();
    assert_eq!(drawn.strokes.len(), 2);
    assert!(drawn.strokes.iter().all(|s| s.weight == Weight::Thinnest));
}

#[test]
fn the_table_has_a_line_for_each_edge() {
    let g = town();
    let uses = vec![((1, 2), 1), ((0, 1), 2)];
    assert!(g.holds(&uses));
    assert_eq!(
        g.rows(&uses),
        vec![
            Row { count: 1, lon_a: 2_500_000, lat_a: 48_400_000, lon_b: 1_900_000, lat_b: 49_000_001 },
            Row { count: 2, lon_a: 2_000_000, lat_a: 48_000_000, lon_b: 2_500_000, lat_b: 48_400_000 },
        ]
    );
}

#[test]
fn edges_that_leave_the_graph_are_told_apart() {
    let g = town();
    assert!(g.holds(&vec![]));
    assert!(g.holds(&vec![((3, 0), 1)]));
    assert!(!g.holds(&vec![((3, 0), 1), ((4, 0), 1)]));
    assert!(!g.holds(&vec![((0, 4), 1)]));
}

#[test]
fn the_whole_map_is_drawn_in_one_call() {
    let g = town();
    let drawn = g.flow_map(Strategy::Directed, 0, 2).unwrap();
    let pred = g.dijkstra(1).unwrap();
    let uses = g.count_uses(&pred);
    let by_hand = g.render(&uses, 2, g.bounds(&pred));
    assert_eq!(drawn, by_hand);
    assert_eq!(drawn.strokes.len(), 2);
    assert!(matches!(g.flow_map(Strategy::Directed, 4, 2), Err(Error::InvalidSource)));
    let both = g.flow_map(Strategy::Undirected, 3, 9).unwrap();
    assert_eq!(both.strokes.len(), 3);
    assert_eq!(both.strokes[2].weight, Weight::Share { count: 3, of: 3 });
}
