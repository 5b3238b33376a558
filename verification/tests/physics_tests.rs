use sat_layout::graph::{Graph, Vec2};
use sat_layout::physics::{update_positions, update_positions_pinned, Physics, SCALE};

fn params() -> Physics {
    Physics {
        repell_force: SCALE,
        spring_force: SCALE,
        frame_multiplier: SCALE,
        repel_coefficient: 5 * SCALE,
        stiffness: SCALE,
        equilibrium_len: 4 * SCALE,
        damping: 819,
        epsilon: 1,
        max_delta_v: 1000 * SCALE,
    }
}

fn separation(g: &Graph, a: usize, b: usize) -> f64 {
    let dx = (g.nodes[a].pos.x - g.nodes[b].pos.x) as f64;
    let dy = (g.nodes[a].pos.y - g.nodes[b].pos.y) as f64;
    (dx * dx + dy * dy).sqrt()
}

#[test]
fn recentering_keeps_mean_at_origin() {
    let c = params();
    let mut g = Graph::new();
    g.add_node(Vec2 { x: 900_000, y: -250_000 });
    g.add_node(Vec2 { x: -123_456, y: 700_001 });
    g.add_node(Vec2 { x: 333_333, y: 444_445 });
    g.add_edge(0, 1).unwrap();
    g.add_edge(1, 2).unwrap();
    for _ in 0..25 {
        update_positions(&c, &mut g, 64);
        let n = g.node_size() as i64;
        let sx: i64 = g.nodes().iter().map(|nd| nd.pos.x).sum();
        let sy: i64 = g.nodes().iter().map(|nd| nd.pos.y).sum();
        assert!(sx.abs() < n, "x sum {sx} not within {n}");
        assert!(sy.abs() < n, "y sum {sy} not within {n}");
    }
}

#[test]
fn pure_repulsion_strictly_separates() {
    let c = params();
    let mut g = Graph::new();
    g.add_node(Vec2 { x: -1024, y: 0 });
    g.add_node(Vec2 { x: 1024, y: 0 });
    let mut last = separation(&g, 0, 1);
    for _ in 0..10 {
        update_positions(&c, &mut g, SCALE);
        let now = separation(&g, 0, 1);
        assert!(now > last, "separation did not grow: {now} <= {last}");
        last = now;
    }
}

#[test]
fn single_spring_approaches_equilibrium_length() {
    // A repulsion numerator of one whole unit rounds to zero force at
    // these distances, leaving the pure spring dynamics.
    let mut c = params();
    c.repel_coefficient = 1;
    let eq = c.equilibrium_len as f64;
    let mut g = Graph::new();
    g.add_node(Vec2 { x: -10_240, y: 0 });
    g.add_node(Vec2 { x: 10_240, y: 0 });
    g.add_edge(0, 1).unwrap();
    let initial_gap = (separation(&g, 0, 1) - eq).abs();
    for _ in 0..2000 {
        update_positions(&c, &mut g, 64);
    }
    let final_gap = (separation(&g, 0, 1) - eq).abs();
    assert!(final_gap < 256.0, "distance {} still far from {eq}", separation(&g, 0, 1));
    assert!(final_gap < initial_gap / 10.0);
}

#[test]
fn coincident_nodes_stay_finite_and_still() {
    let c = params();
    let mut g = Graph::new();
    g.add_node(Vec2 { x: 512, y: 512 });
    g.add_node(Vec2 { x: 512, y: 512 });
    for _ in 0..100 {
        update_positions(&c, &mut g, SCALE);
        // The coincident pair is the documented zero-force degenerate
        // case: both nodes sit at the recentered origin forever.
        assert_eq!(g.nodes[0].pos, g.nodes[1].pos);
        assert_eq!(g.nodes[0].vel, Vec2 { x: 0, y: 0 });
        assert!(g.nodes[0].pos.x.abs() <= 1 && g.nodes[0].pos.y.abs() <= 1);
    }
}

#[test]
fn parallel_edges_double_the_spring_velocity() {
    // Repulsion rounds to zero at this distance (numerator one unit), so
    // the first step's velocity shows the spring term alone; damping of
    // exactly one half keeps the doubling exact.
    let mut c = params();
    c.repel_coefficient = 1;
    c.damping = 512;

    let mut single = Graph::new();
    single.add_node(Vec2 { x: -5120, y: 0 });
    single.add_node(Vec2 { x: 5120, y: 0 });
    single.add_edge(0, 1).unwrap();

    let mut double = Graph::new();
    double.add_node(Vec2 { x: -5120, y: 0 });
    double.add_node(Vec2 { x: 5120, y: 0 });
    double.add_edge(0, 1).unwrap();
    double.add_edge(0, 1).unwrap();

    update_positions(&c, &mut single, 0);
    update_positions(&c, &mut double, 0);

    // deviation 10240 - 4096 = 6144; damped by 1/2: 3072 and 6144.
    assert_eq!(single.nodes[0].vel, Vec2 { x: 3072, y: 0 });
    assert_eq!(double.nodes[0].vel, Vec2 { x: 6144, y: 0 });
    assert_eq!(double.nodes[0].vel.x, 2 * single.nodes[0].vel.x);
    assert_eq!(double.nodes[1].vel.x, 2 * single.nodes[1].vel.x);
}

#[test]
fn pinned_node_holds_its_position() {
    let c = params();
    let mut g = Graph::new();
    g.add_node(Vec2 { x: -2048, y: 1024 });
    g.add_node(Vec2 { x: 4096, y: -512 });
    g.add_edge(0, 1).unwrap();
    let pin = Vec2 { x: 100_000, y: -50_000 };
    let pins = vec![(0usize, pin)];
    for _ in 0..5 {
        update_positions_pinned(&c, &mut g, SCALE, &pins).unwrap();
        assert_eq!(g.nodes[0].pos, pin);
        assert_eq!(g.nodes[0].vel, Vec2 { x: 0, y: 0 });
    }
    // Release: the node resumes from the pin with zero initial velocity.
    assert_eq!(g.nodes[0].pos, pin);
    assert_eq!(g.nodes[0].vel, Vec2 { x: 0, y: 0 });
    update_positions(&c, &mut g, SCALE);
    assert!(g.nodes[0].pos != pin);
}

#[test]
fn pin_of_unknown_node_fails_fast() {
    let c = params();
    let mut g = Graph::new();
    g.add_node(Vec2 { x: 0, y: 0 });
    g.add_node(Vec2 { x: 1000, y: 0 });
    let before: Vec<Vec2> = g.nodes().iter().map(|n| n.pos).collect();
    let pins = vec![(5usize, Vec2 { x: 1, y: 1 })];
    let e = update_positions_pinned(&c, &mut g, SCALE, &pins).unwrap_err();
    assert_eq!(e.id, 5);
    let after: Vec<Vec2> = g.nodes().iter().map(|n| n.pos).collect();
    assert_eq!(before, after);
}

#[test]
fn identical_runs_give_identical_trajectories() {
    let c = params();
    let build = || {
        let mut g = Graph::new();
        g.add_node(Vec2 { x: 813_000, y: -77_000 });
        g.add_node(Vec2 { x: -40_960, y: 204_800 });
        g.add_node(Vec2 { x: 0, y: -300_000 });
        g.add_node(Vec2 { x: 55_555, y: 66_666 });
        g.add_edge(0, 2).unwrap();
        g.add_edge(1, 2).unwrap();
        g.add_edge(3, 0).unwrap();
        g.add_edge(3, 0).unwrap();
        g
    };
    let mut g1 = build();
    let mut g2 = build();
    let dts = [1024i64, 64, 512, 2048, 16, 1024, 0, 333];
    for step in 0..48 {
        let dt = dts[step % dts.len()];
        update_positions(&c, &mut g1, dt);
        update_positions(&c, &mut g2, dt);
    }
    for i in 0..4 {
        assert_eq!(g1.nodes[i].pos, g2.nodes[i].pos);
        assert_eq!(g1.nodes[i].vel, g2.nodes[i].vel);
    }
}

#[test]
fn zero_frame_time_only_recenters() {
    let c = params();
    let mut g = Graph::new();
    g.add_node(Vec2 { x: 1000, y: 2000 });
    g.add_node(Vec2 { x: 3000, y: 4000 });
    let d_before = separation(&g, 0, 1);
    update_positions(&c, &mut g, 0);
    // Positions only shift by the common centroid: the shape is kept.
    let d_after = separation(&g, 0, 1);
    assert_eq!(d_before, d_after);
    let sx: i64 = g.nodes().iter().map(|nd| nd.pos.x).sum();
    assert!(sx.abs() < 2);
}

#[test]
fn invalid_parameter_bundles_are_detected() {
    let mut c = params();
    assert!(c.is_valid());
    c.damping = SCALE;
    assert!(!c.is_valid());
    c.damping = 819;
    c.repel_coefficient = 0;
    assert!(!c.is_valid());
}
