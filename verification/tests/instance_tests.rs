use sat_layout::graph::Vec2;
use sat_layout::instance::{build_graph, node_count};

#[test]
fn node_count_covers_clauses_and_variables() {
    let formula = vec![vec![1, -2, -3], vec![2, 3, 1], vec![1], vec![2]];
    // 4 clauses and variables 1..=3.
    assert_eq!(node_count(&formula), 7);
    assert_eq!(node_count(&Vec::<Vec<i32>>::new()), 0);
    assert_eq!(node_count(&vec![Vec::<i32>::new()]), 1);
}

#[test]
fn build_graph_joins_clauses_to_variables() {
    let formula = vec![vec![1, -2], vec![2]];
    let n = node_count(&formula);
    assert_eq!(n, 4);
    let positions: Vec<Vec2> = (0..n as i64).map(|i| Vec2 { x: i * 1000, y: -i }).collect();
    let g = build_graph(&formula, &positions);
    assert_eq!(g.node_size(), 4);
    for (i, node) in g.nodes().iter().enumerate() {
        assert_eq!(node.pos, positions[i]);
        assert_eq!(node.vel, Vec2 { x: 0, y: 0 });
    }
    // Clause node 0 holds literals 1 and -2: variable nodes 2 and 3.
    assert_eq!(g.nodes()[0].neighbors, vec![2, 3]);
    // Clause node 1 holds literal 2: variable node 3.
    assert_eq!(g.nodes()[1].neighbors, vec![3]);
    // The symmetric sides.
    assert_eq!(g.nodes()[2].neighbors, vec![0]);
    assert_eq!(g.nodes()[3].neighbors, vec![0, 1]);
}

#[test]
fn parallel_occurrences_give_parallel_edges() {
    let formula = vec![vec![1, -1]];
    let positions = vec![Vec2 { x: 0, y: 0 }, Vec2 { x: 5000, y: 0 }];
    let g = build_graph(&formula, &positions);
    assert_eq!(g.nodes()[0].neighbors, vec![1, 1]);
    assert_eq!(g.nodes()[1].neighbors, vec![0, 0]);
}
