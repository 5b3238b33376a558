//! Graph store for the force-directed layout: nodes with fixed-point
//! positions and velocities, and symmetric edges kept as neighbor lists.
//!
//! Coordinates are fixed-point numbers: an `i64` counts units of
//! `1 / SCALE` (see `crate::physics::SCALE`), so the whole simulation is
//! exact integer arithmetic and no coordinate can ever become NaN or
//! infinite.

use vstd::prelude::*;
use vstd::math::abs;

verus! {

/// Identifier of a node; ids are assigned sequentially from 0 and never
/// reused.
pub type NodeId = usize;

/// Largest coordinate magnitude a node position may hold (fixed-point
/// units). Kept by every operation, so coordinate differences and their
/// squares stay well inside `i64`.
pub const POS_LIMIT: i64 = 1_000_000_000;

/// Positions committed by an integration step are clamped to this bound,
/// half of `POS_LIMIT`, so that subtracting the centroid keeps every
/// coordinate within `POS_LIMIT`.
pub const POS_COMMIT_LIMIT: i64 = 500_000_000;

/// Largest velocity component magnitude (fixed-point units per second).
pub const VEL_LIMIT: i64 = 2_000_000_000;

/// A 2D vector in fixed-point coordinates.
#[derive(Clone, Copy, PartialEq, Eq, Structural, Debug)]
pub struct Vec2 {
    pub x: i64,
    pub y: i64,
}

impl Vec2 {
    /// Both components within `lim` in magnitude.
    pub open spec fn in_range(self, lim: int) -> bool {
        abs(self.x as int) <= lim && abs(self.y as int) <= lim
    }
}

/// One node of the layout graph.
#[derive(Debug)]
pub struct Node {
    /// Current position.
    pub pos: Vec2,
    /// Scratch slot holding the tentative position between the force pass
    /// and the commit pass of a step.
    pub tmp_pos: Vec2,
    /// Current velocity.
    pub vel: Vec2,
    /// Ids of neighbors, one entry per edge occurrence; duplicates are
    /// meaningful (parallel edges) and never deduplicated.
    pub neighbors: Vec<NodeId>,
}

impl Node {
    /// Well-formed for a graph of `n` nodes: every neighbor id is a real
    /// node, and position and velocity are within the simulation bounds.
    pub open spec fn wf(self, n: nat) -> bool {
        &&& forall|j: int|
            0 <= j < self.neighbors@.len() ==> (self.neighbors@[j] as nat) < n
        &&& self.pos.in_range(POS_LIMIT as int)
        &&& self.vel.in_range(VEL_LIMIT as int)
    }
}

/// How many entries of `s` equal `v`.
pub open spec fn count_of(s: Seq<NodeId>, v: int) -> nat
    decreases s.len(),
{
    if s.len() == 0 {
        0
    } else {
        count_of(s.drop_last(), v) + if s.last() as int == v {
            1nat
        } else {
            0nat
        }
    }
}

/// Error for an operation that names a node id the graph does not hold.
#[derive(Clone, Copy, PartialEq, Eq, Structural, Debug)]
pub struct StructuralError {
    /// The offending id.
    pub id: NodeId,
}

/// Dense, id-addressable collection of nodes with symmetric edges.
/// Topology is append-only: nodes and edges are added, never removed.
pub struct Graph {
    pub nodes: Vec<Node>,
}

impl Graph {
    /// Every node is well formed.
    pub open spec fn wf(self) -> bool {
        forall|i: int|
            0 <= i < self.nodes@.len() ==> (#[trigger] self.nodes@[i]).wf(
                self.nodes@.len() as nat,
            )
    }

    /// The positions of all nodes, in id order.
    pub open spec fn positions(self) -> Seq<Vec2> {
        self.nodes@.map(|i: int, n: Node| n.pos)
    }

    /// The velocities of all nodes, in id order.
    pub open spec fn velocities(self) -> Seq<Vec2> {
        self.nodes@.map(|i: int, n: Node| n.vel)
    }

    /// The neighbor lists of all nodes, in id order.
    pub open spec fn neighbor_lists(self) -> Seq<Seq<NodeId>> {
        self.nodes@.map(|i: int, n: Node| n.neighbors@)
    }

    /// How often node `b` occurs in node `a`'s neighbor list, that is,
    /// how many parallel edges join `a` to `b` as seen from `a`.
    pub open spec fn edge_count(self, a: int, b: int) -> nat {
        count_of(self.nodes@[a].neighbors@, b)
    }

    /// Edges are stored symmetrically: `b` occurs in `a`'s neighbor list
    /// exactly as often as `a` occurs in `b`'s.
    pub open spec fn edges_symmetric(self) -> bool {
        forall|a: int, b: int|
            0 <= a < self.nodes@.len() && 0 <= b < self.nodes@.len() && a != b
                ==> #[trigger] self.edge_count(a, b) == self.edge_count(b, a)
    }

    /// The empty graph.
    pub fn new() -> (g: Graph)
        ensures
            g.nodes@.len() == 0,
            g.wf(),
            g.edges_symmetric(),
    {
        Graph { nodes: Vec::new() }
    }

    /// Number of nodes.
    pub fn node_size(&self) -> (n: usize)
        ensures
            n == self.nodes@.len(),
    {
        self.nodes.len()
    }

    /// Adds a node at `pos` with zero velocity and no neighbors; returns
    /// its id. Ids increase monotonically from 0.
    pub fn add_node(&mut self, pos: Vec2) -> (id: NodeId)
        requires
            pos.in_range(POS_LIMIT as int),
        ensures
            id == old(self).nodes@.len(),
            final(self).nodes@.len() == id + 1,
            forall|i: int| 0 <= i < id ==> final(self).nodes@[i] == old(self).nodes@[i],
            final(self).nodes@[id as int].pos == pos,
            final(self).nodes@[id as int].vel == (Vec2 { x: 0, y: 0 }),
            final(self).nodes@[id as int].neighbors@.len() == 0,
            old(self).wf() ==> final(self).wf(),
            (old(self).wf() && old(self).edges_symmetric()) ==> final(self).edges_symmetric(),
    {
        let node_id = self.nodes.len();
        self.nodes.push(Node {
            pos,
            tmp_pos: Vec2 { x: 0, y: 0 },
            vel: Vec2 { x: 0, y: 0 },
            neighbors: Vec::new(),
        });
        proof {
            if old(self).wf() && old(self).edges_symmetric() {
                let g0 = *old(self);
                let g1 = *self;
                let n = g0.nodes@.len();
                assert forall|p: int, q: int|
                    0 <= p < g1.nodes@.len() && 0 <= q < g1.nodes@.len() && p != q implies #[trigger] g1.edge_count(p, q) == g1.edge_count(q, p) by {
                    if p < n && q < n {
                        assert(g0.edge_count(p, q) == g0.edge_count(q, p));
                    } else if p < n {
                        lemma_count_absent(g0.nodes@[p].neighbors@, q, n as nat);
                    } else {
                        lemma_count_absent(g0.nodes@[q].neighbors@, p, n as nat);
                    }
                }
            }
        }
        node_id
    }

    /// Adds the edge `(a, b)` symmetrically: appends `b` to `a`'s neighbor
    /// list and `a` to `b`'s. Fails fast, reporting the offending id, when
    /// either end does not exist. A self-loop is tolerated: it appends `a`
    /// to its own list twice and later contributes no force.
    pub fn add_edge(&mut self, a: NodeId, b: NodeId) -> (r: Result<(), StructuralError>)
        ensures
            r is Ok <==> a < old(self).nodes@.len() && b < old(self).nodes@.len(),
            r is Err ==> *final(self) == *old(self) && (r == Err::<(), StructuralError>(
                StructuralError { id: if a < old(self).nodes@.len() { b } else { a } },
            )),
            r is Ok ==> {
                &&& final(self).nodes@.len() == old(self).nodes@.len()
                &&& forall|i: int|
                    0 <= i < old(self).nodes@.len() ==> {
                        &&& final(self).nodes@[i].pos == old(self).nodes@[i].pos
                        &&& final(self).nodes@[i].vel == old(self).nodes@[i].vel
                        &&& final(self).nodes@[i].tmp_pos == old(self).nodes@[i].tmp_pos
                    }
                &&& a != b ==> {
                    &&& final(self).nodes@[a as int].neighbors@ == old(self).nodes@[a as int].neighbors@.push(b)
                    &&& final(self).nodes@[b as int].neighbors@ == old(self).nodes@[b as int].neighbors@.push(a)
                }
                &&& a == b ==> final(self).nodes@[a as int].neighbors@ == old(self).nodes@[a as int].neighbors@.push(b).push(a)
                &&& forall|i: int|
                    0 <= i < old(self).nodes@.len() && i != a && i != b
                        ==> final(self).nodes@[i].neighbors@ == old(self).nodes@[i].neighbors@
                &&& old(self).wf() ==> final(self).wf()
                &&& (old(self).wf() && old(self).edges_symmetric()) ==> final(self).edges_symmetric()
            },
    {
        let n = self.nodes.len();
        if a >= n {
            return Err(StructuralError { id: a });
        }
        if b >= n {
            return Err(StructuralError { id: b });
        }
        self.nodes[a].neighbors.push(b);
        self.nodes[b].neighbors.push(a);
        proof {
            if old(self).wf() && old(self).edges_symmetric() {
                lemma_add_edge_symmetric(*old(self), *self, a, b);
            }
        }
        Ok(())
    }

    /// The node with id `a`, or `None` when no such node exists.
    pub fn get(&self, a: NodeId) -> (r: Option<&Node>)
        ensures
            match r {
                Some(node) => a < self.nodes@.len() && *node == self.nodes@[a as int],
                None => a >= self.nodes@.len(),
            },
    {
        if a < self.nodes.len() {
            Some(&self.nodes[a])
        } else {
            None
        }
    }

    /// All nodes in id order, for iteration by a caller.
    pub fn nodes(&self) -> (r: &Vec<Node>)
        ensures
            r@ == self.nodes@,
    {
        &self.nodes
    }
}

impl Default for Graph {
    /// The empty graph.
    fn default() -> (g: Graph)
        ensures
            g.nodes@.len() == 0,
            g.wf(),
            g.edges_symmetric(),
    {
        Graph { nodes: Vec::new() }
    }
}

/// Appending `v` to a list raises its count of `v` by one and keeps every
/// other count.
proof fn lemma_count_push(s: Seq<NodeId>, x: NodeId, v: int)
    ensures
        count_of(s.push(x), v) == count_of(s, v) + if x as int == v {
            1nat
        } else {
            0nat
        },
{
    assert(s.push(x).drop_last() =~= s);
    assert(s.push(x).last() == x);
}

/// A list whose entries are all below `n` holds no id at or above `n`.
proof fn lemma_count_absent(s: Seq<NodeId>, v: int, n: nat)
    requires
        forall|j: int| 0 <= j < s.len() ==> (#[trigger] s[j] as nat) < n,
        v >= n,
    ensures
        count_of(s, v) == 0,
    decreases s.len(),
{
    if s.len() > 0 {
        lemma_count_absent(s.drop_last(), v, n);
    }
}

/// Pushing the two neighbor entries of one new edge keeps the symmetric
/// count invariant.
proof fn lemma_add_edge_symmetric(g0: Graph, g1: Graph, a: NodeId, b: NodeId)
    requires
        g0.edges_symmetric(),
        (a as int) < g0.nodes@.len(),
        (b as int) < g0.nodes@.len(),
        g1.nodes@.len() == g0.nodes@.len(),
        a != b ==> g1.nodes@[a as int].neighbors@ == g0.nodes@[a as int].neighbors@.push(b)
            && g1.nodes@[b as int].neighbors@ == g0.nodes@[b as int].neighbors@.push(a),
        a == b ==> g1.nodes@[a as int].neighbors@ == g0.nodes@[a as int].neighbors@.push(b).push(a),
        forall|i: int|
            0 <= i < g0.nodes@.len() && i != a && i != b
                ==> g1.nodes@[i].neighbors@ == g0.nodes@[i].neighbors@,
    ensures
        g1.edges_symmetric(),
{
    assert forall|p: int, q: int|
        0 <= p < g1.nodes@.len() && 0 <= q < g1.nodes@.len() && p != q implies #[trigger] g1.edge_count(p, q) == g1.edge_count(q, p) by {
        assert(g0.edge_count(p, q) == g0.edge_count(q, p));
        lemma_count_push(g0.nodes@[a as int].neighbors@, b, q);
        lemma_count_push(g0.nodes@[a as int].neighbors@, b, p);
        if a != b {
            lemma_count_push(g0.nodes@[b as int].neighbors@, a, q);
            lemma_count_push(g0.nodes@[b as int].neighbors@, a, p);
        } else {
            lemma_count_push(g0.nodes@[a as int].neighbors@.push(b), a, q);
            lemma_count_push(g0.nodes@[a as int].neighbors@.push(b), a, p);
        }
    }
}

} // verus!
