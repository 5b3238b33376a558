use sat_layout::graph::{Graph, Vec2};

#[test]
fn add_node_assigns_sequential_ids() {
    let mut g = Graph::new();
    assert_eq!(g.add_node(Vec2 { x: 10, y: 20 }), 0);
    assert_eq!(g.add_node(Vec2 { x: -5, y: 7 }), 1);
    assert_eq!(g.add_node(Vec2 { x: 0, y: 0 }), 2);
    assert_eq!(g.node_size(), 3);
    assert_eq!(g.nodes()[0].pos, Vec2 { x: 10, y: 20 });
    assert_eq!(g.nodes()[1].vel, Vec2 { x: 0, y: 0 });
}

#[test]
fn get_fails_beyond_range() {
    let mut g = Graph::new();
    g.add_node(Vec2 { x: 1, y: 2 });
    assert!(g.get(0).is_some());
    assert_eq!(g.get(0).unwrap().pos, Vec2 { x: 1, y: 2 });
    assert!(g.get(1).is_none());
}

#[test]
fn add_edge_is_symmetric() {
    let mut g = Graph::new();
    g.add_node(Vec2 { x: 0, y: 0 });
    g.add_node(Vec2 { x: 100, y: 0 });
    g.add_edge(0, 1).unwrap();
    assert_eq!(g.nodes()[0].neighbors, vec![1]);
    assert_eq!(g.nodes()[1].neighbors, vec![0]);
    g.add_edge(0, 1).unwrap();
    assert_eq!(g.nodes()[0].neighbors, vec![1, 1]);
    assert_eq!(g.nodes()[1].neighbors, vec![0, 0]);
}

#[test]
fn add_edge_reports_the_offending_id() {
    let mut g = Graph::new();
    g.add_node(Vec2 { x: 0, y: 0 });
    let e = g.add_edge(0, 3).unwrap_err();
    assert_eq!(e.id, 3);
    let e = g.add_edge(7, 0).unwrap_err();
    assert_eq!(e.id, 7);
    assert_eq!(g.nodes()[0].neighbors.len(), 0);
}

#[test]
fn self_loop_is_tolerated() {
    let mut g = Graph::new();
    g.add_node(Vec2 { x: 4, y: 4 });
    g.add_edge(0, 0).unwrap();
    assert_eq!(g.nodes()[0].neighbors, vec![0, 0]);
}
