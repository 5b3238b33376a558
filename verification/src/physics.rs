//! The layout engine: one discrete step of the force-directed simulation.
//!
//! All quantities are fixed-point numbers held in `i64`: a value counts
//! units of `1 / SCALE`. Forces are computed for every node from the
//! pre-step snapshot of all positions (repulsion from every other node,
//! spring attraction toward every neighbor occurrence, both with defined
//! zero-vector fallbacks for coincident positions), combined with a
//! magnitude clamp, integrated into velocity and a tentative position,
//! and committed in a whole-graph second pass that recenters the layout
//! on the centroid. The step is a pure function of the graph, the
//! parameter bundle and the frame time, so trajectories are reproducible
//! bit for bit.

use vstd::prelude::*;
use vstd::math::abs;
use crate::graph::{Graph, NodeId, Vec2, StructuralError, POS_LIMIT, POS_COMMIT_LIMIT, VEL_LIMIT};

verus! {

/// Fixed-point scale: the integer `SCALE` stands for 1.0.
pub const SCALE: i64 = 1024;

/// Upper bound on every tunable of the parameter bundle (fixed-point),
/// chosen so that every intermediate product in a step fits in `i64`.
pub const PARAM_LIMIT: i64 = 1_000_000;

/// Upper bound on the frame-time argument of a step (fixed-point
/// seconds).
pub const DT_LIMIT: i64 = 1_000_000;

/// Saturation bound for the per-node force accumulators.
pub const TERM_LIMIT: i64 = 1_000_000_000_000;

/// Upper bound on the per-step velocity change clamp.
pub const DELTA_V_LIMIT: i64 = 1_000_000_000;

/// The tunable parameter bundle of the layout engine. All values are
/// fixed-point with `SCALE` standing for 1.0, and all must be positive:
/// see `valid`.
#[derive(Clone, Copy, PartialEq, Eq, Structural, Debug)]
pub struct Physics {
    /// Weight of the accumulated repulsion term.
    pub repell_force: i64,
    /// Weight of the accumulated spring term.
    pub spring_force: i64,
    /// Multiplier on the frame time.
    pub frame_multiplier: i64,
    /// Numerator of the clamped inverse-distance repulsion law:
    /// a pair at distance `d` repels with magnitude
    /// `repel_coefficient * SCALE / max(d, epsilon)`.
    pub repel_coefficient: i64,
    /// Spring stiffness: a neighbor at distance `d` attracts with
    /// magnitude `stiffness * (d - equilibrium_len) / SCALE`.
    pub stiffness: i64,
    /// The spring's zero-force resting distance.
    pub equilibrium_len: i64,
    /// Velocity retained per step, in `(0, SCALE)`: the damping factor.
    pub damping: i64,
    /// Floor on the distance used by the repulsion law, keeping it
    /// bounded for near-coincident pairs.
    pub epsilon: i64,
    /// Clamp on the magnitude of each component of the per-step velocity
    /// change, bounding numerical blow-up.
    pub max_delta_v: i64,
}

impl Physics {
    /// Every tunable positive and within the machine bounds that keep a
    /// step free of overflow. Non-positive or out-of-range bundles are
    /// rejected before they can reach force computation.
    pub open spec fn valid(self) -> bool {
        &&& 0 < self.repell_force <= PARAM_LIMIT
        &&& 0 < self.spring_force <= PARAM_LIMIT
        &&& 0 < self.frame_multiplier <= PARAM_LIMIT
        &&& 0 < self.repel_coefficient <= PARAM_LIMIT
        &&& 0 < self.stiffness <= PARAM_LIMIT
        &&& 0 < self.equilibrium_len <= POS_LIMIT
        &&& 0 < self.damping < SCALE
        &&& 1 <= self.epsilon <= PARAM_LIMIT
        &&& 0 < self.max_delta_v <= DELTA_V_LIMIT
    }

    /// Runtime check of `valid`, for callers that receive tunables from
    /// outside.
    pub fn is_valid(&self) -> (r: bool)
        ensures
            r == self.valid(),
    {
        0 < self.repell_force && self.repell_force <= PARAM_LIMIT
            && 0 < self.spring_force && self.spring_force <= PARAM_LIMIT
            && 0 < self.frame_multiplier && self.frame_multiplier <= PARAM_LIMIT
            && 0 < self.repel_coefficient && self.repel_coefficient <= PARAM_LIMIT
            && 0 < self.stiffness && self.stiffness <= PARAM_LIMIT
            && 0 < self.equilibrium_len && self.equilibrium_len <= POS_LIMIT
            && 0 < self.damping && self.damping < SCALE
            && 1 <= self.epsilon && self.epsilon <= PARAM_LIMIT
            && 0 < self.max_delta_v && self.max_delta_v <= DELTA_V_LIMIT
    }
}

/// `v` clamped to `[-lim, lim]`.
pub open spec fn sat_s(v: int, lim: int) -> int {
    if v > lim {
        lim
    } else if v < -lim {
        -lim
    } else {
        v
    }
}

/// `a * b / d` computed on magnitudes and then signed, i.e. truncated
/// toward zero — exactly what the executable fixed-point multiply-divide
/// produces.
pub open spec fn mul_div_s(a: int, b: int, d: int) -> int {
    if (a >= 0) == (b >= 0) {
        (abs(a) * abs(b)) as int / d
    } else {
        -((abs(a) * abs(b)) as int / d)
    }
}

/// The floor of the square root of `n` (0 for negative `n`).
pub open spec fn sqrt_floor(n: int) -> int
    decreases n,
{
    if n <= 0 {
        0
    } else {
        let p = sqrt_floor(n - 1);
        if (p + 1) * (p + 1) <= n {
            p + 1
        } else {
            p
        }
    }
}

/// `sqrt_floor(n)` is the unique nonnegative root: its square is at most
/// `n` and the next square is beyond `n`.
pub proof fn lemma_sqrt_floor(n: int)
    requires
        n >= 0,
    ensures
        0 <= sqrt_floor(n),
        sqrt_floor(n) * sqrt_floor(n) <= n,
        n < (sqrt_floor(n) + 1) * (sqrt_floor(n) + 1),
    decreases n,
{
    if n > 0 {
        lemma_sqrt_floor(n - 1);
        let p = sqrt_floor(n - 1);
        if (p + 1) * (p + 1) <= n {
            assert(n < (p + 2) * (p + 2)) by (nonlinear_arith)
                requires
                    p >= 0,
                    n - 1 < (p + 1) * (p + 1),
                    (p + 1) * (p + 1) <= n,
            ;
        }
    }
}

/// Any `r` with `r * r <= n < (r + 1) * (r + 1)` equals `sqrt_floor(n)`.
pub proof fn lemma_sqrt_floor_unique(n: int, r: int)
    requires
        n >= 0,
        r >= 0,
        r * r <= n,
        n < (r + 1) * (r + 1),
    ensures
        r == sqrt_floor(n),
{
    lemma_sqrt_floor(n);
    let s = sqrt_floor(n);
    if r < s {
        assert((r + 1) * (r + 1) <= s * s) by (nonlinear_arith)
            requires
                0 <= r + 1 <= s,
        ;
    } else if s < r {
        assert((s + 1) * (s + 1) <= r * r) by (nonlinear_arith)
            requires
                0 <= s + 1 <= r,
        ;
    }
}

/// The magnitude of `mul_div_s(a, b, d)` is `abs(a) * abs(b) / d`, and it
/// is bounded by `ca * cb / d` for any componentwise bounds `ca`, `cb`.
pub proof fn lemma_mul_div_s_bound(a: int, b: int, d: int, ca: int, cb: int)
    requires
        0 < d,
        abs(a) <= ca,
        abs(b) <= cb,
    ensures
        abs(mul_div_s(a, b, d)) == (abs(a) * abs(b)) as int / d,
        abs(mul_div_s(a, b, d)) <= ca * cb / d,
        ca * cb / d >= 0,
{
    let aa = abs(a) as int;
    let bb = abs(b) as int;
    let p = aa * bb;
    let q = ca * cb;
    assert(0 <= p && p <= q) by (nonlinear_arith)
        requires
            0 <= aa <= ca,
            0 <= bb <= cb,
            p == aa * bb,
            q == ca * cb,
    ;
    vstd::arithmetic::div_mod::lemma_div_pos_is_pos(p, d);
    vstd::arithmetic::div_mod::lemma_div_is_ordered(p, q, d);
    vstd::arithmetic::div_mod::lemma_div_pos_is_pos(q, d);
}

/// Saturating clamp of `v` to `[-lim, lim]`.
fn sat_i64(v: i64, lim: i64) -> (r: i64)
    requires
        0 < lim,
    ensures
        r as int == sat_s(v as int, lim as int),
        -lim <= r <= lim,
{
    if v > lim {
        lim
    } else if v < -lim {
        -lim
    } else {
        v
    }
}

/// Fixed-point multiply-divide: `a * b / d` truncated toward zero,
/// computed without overflow on `u64` magnitudes.
fn mul_div(a: i64, b: i64, d: i64) -> (r: i64)
    requires
        0 < d,
        abs(a as int) <= i64::MAX as int,
        abs(b as int) <= i64::MAX as int,
        abs(a as int) * abs(b as int) <= i64::MAX as int,
    ensures
        r as int == mul_div_s(a as int, b as int, d as int),
{
    let an: u64 = if a < 0 {
        (-a) as u64
    } else {
        a as u64
    };
    let bn: u64 = if b < 0 {
        (-b) as u64
    } else {
        b as u64
    };
    proof {
        assert(an as int == abs(a as int));
        assert(bn as int == abs(b as int));
    }
    let p: u64 = an * bn;
    let q: u64 = p / (d as u64);
    proof {
        vstd::arithmetic::div_mod::lemma_div_is_ordered_by_denominator(p as int, 1, d as int);
        vstd::arithmetic::div_mod::lemma_div_pos_is_pos(p as int, d as int);
    }
    let qi: i64 = q as i64;
    if (a < 0) != (b < 0) {
        -qi
    } else {
        qi
    }
}

/// Floor of the square root of `n`, by binary search on the root.
fn isqrt(n: u64) -> (r: u64)
    ensures
        (r as int) * (r as int) <= n as int,
        (n as int) < (r as int + 1) * (r as int + 1),
        r <= 4_294_967_295,
{
    let mut lo: u64 = 0;
    let mut hi: u64 = 4_294_967_296;
    proof {
        assert((hi as int) * (hi as int) > n as int) by (nonlinear_arith)
            requires
                hi as int == 0x1_0000_0000,
                n as int <= 0xffff_ffff_ffff_ffff,
        ;
    }
    while hi - lo > 1
        invariant
            0 <= lo < hi <= 4_294_967_296,
            (lo as int) * (lo as int) <= n as int,
            (n as int) < (hi as int) * (hi as int),
        decreases hi - lo,
    {
        let mid: u64 = lo + (hi - lo) / 2;
        proof {
            assert(lo < mid < hi);
            assert((mid as int) * (mid as int) <= 0xffff_fffe_0000_0001) by (nonlinear_arith)
                requires
                    0 <= mid as int <= 0xffff_ffff,
            ;
        }
        if mid * mid <= n {
            lo = mid;
        } else {
            hi = mid;
        }
    }
    lo
}

/// Squared Euclidean distance of two positions.
pub open spec fn dist2_s(p: Vec2, q: Vec2) -> int {
    (p.x - q.x) * (p.x - q.x) + (p.y - q.y) * (p.y - q.y)
}

/// Euclidean distance of two positions, rounded down to a whole
/// fixed-point unit.
pub open spec fn dist_fix_s(p: Vec2, q: Vec2) -> int {
    sqrt_floor(dist2_s(p, q))
}

/// The distance dominates each coordinate difference.
pub proof fn lemma_component_le_dist(p: Vec2, q: Vec2)
    ensures
        0 <= dist_fix_s(p, q),
        abs(p.x - q.x) <= dist_fix_s(p, q),
        abs(p.y - q.y) <= dist_fix_s(p, q),
{
    let dx = p.x - q.x;
    let dy = p.y - q.y;
    let d2 = dist2_s(p, q);
    assert(dx * dx >= 0 && dy * dy >= 0) by (nonlinear_arith);
    lemma_sqrt_floor(d2);
    let d = sqrt_floor(d2);
    assert(abs(dx) <= d && abs(dy) <= d) by (nonlinear_arith)
        requires
            d >= 0,
            dx * dx + dy * dy < (d + 1) * (d + 1),
            dx * dx >= 0,
            dy * dy >= 0,
    ;
}

/// Repulsion contribution on the node at `p` from the node at `q`:
/// magnitude `repel_coefficient * SCALE / max(d, epsilon)` along the
/// direction away from `q`, and the zero vector for a coincident pair —
/// the documented degenerate case.
pub open spec fn repel_pair_s(p: Vec2, q: Vec2, c: Physics) -> (int, int) {
    let d = dist_fix_s(p, q);
    if d == 0 {
        (0, 0)
    } else {
        let dm = if d < c.epsilon {
            c.epsilon as int
        } else {
            d
        };
        let mag = mul_div_s(c.repel_coefficient as int, SCALE as int, dm);
        let dirx = mul_div_s(p.x - q.x, SCALE as int, d);
        let diry = mul_div_s(p.y - q.y, SCALE as int, d);
        (mul_div_s(dirx, mag, SCALE as int), mul_div_s(diry, mag, SCALE as int))
    }
}

/// Spring contribution on the node at `p` from one neighbor occurrence at
/// `q`: magnitude `stiffness * (d - equilibrium_len) / SCALE` along the
/// direction toward `q`, and the zero vector for a coincident pair (which
/// also covers a self-loop edge).
pub open spec fn spring_pair_s(p: Vec2, q: Vec2, c: Physics) -> (int, int) {
    let d = dist_fix_s(p, q);
    if d == 0 {
        (0, 0)
    } else {
        let dev = d - c.equilibrium_len;
        let f = mul_div_s(c.stiffness as int, dev, SCALE as int);
        let dirx = mul_div_s(q.x - p.x, SCALE as int, d);
        let diry = mul_div_s(q.y - p.y, SCALE as int, d);
        (mul_div_s(dirx, f, SCALE as int), mul_div_s(diry, f, SCALE as int))
    }
}

/// Largest magnitude of one repulsion contribution component.
pub const REPEL_PAIR_LIMIT: i64 = 1_024_000_000;

/// Largest magnitude of one spring contribution component.
pub const SPRING_PAIR_LIMIT: i64 = 6_000_000_000_000;

/// Distance of two in-range positions.
fn dist_fix(p: Vec2, q: Vec2) -> (d: i64)
    requires
        p.in_range(POS_LIMIT as int),
        q.in_range(POS_LIMIT as int),
    ensures
        d as int == dist_fix_s(p, q),
        0 <= d <= 4_294_967_295,
        abs(p.x - q.x) <= d as int,
        abs(p.y - q.y) <= d as int,
{
    let dx: i64 = p.x - q.x;
    let dy: i64 = p.y - q.y;
    proof {
        assert(dx * dx <= 4_000_000_000_000_000_000 && dx * dx >= 0) by (nonlinear_arith)
            requires
                abs(dx as int) <= 2_000_000_000,
        ;
        assert(dy * dy <= 4_000_000_000_000_000_000 && dy * dy >= 0) by (nonlinear_arith)
            requires
                abs(dy as int) <= 2_000_000_000,
        ;
    }
    let d2: i64 = dx * dx + dy * dy;
    let r = isqrt(d2 as u64);
    proof {
        lemma_sqrt_floor_unique(d2 as int, r as int);
        lemma_component_le_dist(p, q);
    }
    r as i64
}

/// Repulsion contribution on `p` from `q`; see `repel_pair_s`.
fn repel_pair(p: Vec2, q: Vec2, c: &Physics) -> (r: (i64, i64))
    requires
        c.valid(),
        p.in_range(POS_LIMIT as int),
        q.in_range(POS_LIMIT as int),
    ensures
        r.0 as int == repel_pair_s(p, q, *c).0,
        r.1 as int == repel_pair_s(p, q, *c).1,
        abs(r.0 as int) <= REPEL_PAIR_LIMIT as int,
        abs(r.1 as int) <= REPEL_PAIR_LIMIT as int,
{
    let d = dist_fix(p, q);
    if d == 0 {
        (0, 0)
    } else {
        let dm = if d < c.epsilon {
            c.epsilon
        } else {
            d
        };
        proof {
            assert(abs(c.repel_coefficient as int) * abs(SCALE as int) <= i64::MAX as int)
                by (nonlinear_arith)
                requires
                    0 < c.repel_coefficient <= PARAM_LIMIT,
            ;
        }
        let mag = mul_div(c.repel_coefficient, SCALE, dm);
        proof {
            lemma_mul_div_s_bound(
                c.repel_coefficient as int,
                SCALE as int,
                dm as int,
                PARAM_LIMIT as int,
                SCALE as int,
            );
            vstd::arithmetic::div_mod::lemma_div_is_ordered_by_denominator(
                (PARAM_LIMIT * SCALE) as int,
                1,
                dm as int,
            );
            vstd::arithmetic::div_mod::lemma_div_basics((PARAM_LIMIT * SCALE) as int);
            assert(abs(mag as int) <= (PARAM_LIMIT * SCALE) as int);
        }
        proof {
            assert(abs((p.x - q.x) as int) * abs(SCALE as int) <= i64::MAX as int && abs(
            (p.y - q.y) as int) * abs(SCALE as int) <= i64::MAX as int) by (nonlinear_arith)
                requires
                    abs((p.x - q.x) as int) <= 2_000_000_000,
                    abs((p.y - q.y) as int) <= 2_000_000_000,
            ;
        }
        let dirx = mul_div(p.x - q.x, SCALE, d);
        let diry = mul_div(p.y - q.y, SCALE, d);
        proof {
            lemma_mul_div_s_bound(p.x - q.x, SCALE as int, d as int, d as int, SCALE as int);
            lemma_mul_div_s_bound(p.y - q.y, SCALE as int, d as int, d as int, SCALE as int);
            vstd::arithmetic::div_mod::lemma_div_multiples_vanish(SCALE as int, d as int);
            assert(abs(dirx as int) <= SCALE as int && abs(diry as int) <= SCALE as int);
            lemma_mul_div_s_bound(dirx as int, mag as int, SCALE as int, SCALE as int, abs(mag as int) as int);
            lemma_mul_div_s_bound(diry as int, mag as int, SCALE as int, SCALE as int, abs(mag as int) as int);
            vstd::arithmetic::div_mod::lemma_div_multiples_vanish(abs(mag as int) as int, SCALE as int);
        }
        (mul_div(dirx, mag, SCALE), mul_div(diry, mag, SCALE))
    }
}

/// Spring contribution on `p` from one neighbor occurrence at `q`; see
/// `spring_pair_s`.
fn spring_pair(p: Vec2, q: Vec2, c: &Physics) -> (r: (i64, i64))
    requires
        c.valid(),
        p.in_range(POS_LIMIT as int),
        q.in_range(POS_LIMIT as int),
    ensures
        r.0 as int == spring_pair_s(p, q, *c).0,
        r.1 as int == spring_pair_s(p, q, *c).1,
        abs(r.0 as int) <= SPRING_PAIR_LIMIT as int,
        abs(r.1 as int) <= SPRING_PAIR_LIMIT as int,
{
    let d = dist_fix(p, q);
    if d == 0 {
        (0, 0)
    } else {
        let dev: i64 = d - c.equilibrium_len;
        proof {
            assert(abs(dev as int) <= 5_294_967_295int);
            assert(abs(c.stiffness as int) * abs(dev as int) <= i64::MAX as int) by (nonlinear_arith)
                requires
                    0 <= abs(c.stiffness as int) <= 1_000_000,
                    0 <= abs(dev as int) <= 5_294_967_295int,
            ;
        }
        let f = mul_div(c.stiffness, dev, SCALE);
        proof {
            lemma_mul_div_s_bound(
                c.stiffness as int,
                dev as int,
                SCALE as int,
                PARAM_LIMIT as int,
                5_294_967_295int,
            );
            vstd::arithmetic::div_mod::lemma_div_is_ordered(
                PARAM_LIMIT as int * 5_294_967_295int,
                SCALE as int * SPRING_PAIR_LIMIT as int,
                SCALE as int,
            );
            vstd::arithmetic::div_mod::lemma_div_multiples_vanish(
                SPRING_PAIR_LIMIT as int,
                SCALE as int,
            );
            assert(abs(f as int) <= SPRING_PAIR_LIMIT as int);
        }
        proof {
            assert(abs((q.x - p.x) as int) * abs(SCALE as int) <= i64::MAX as int && abs(
            (q.y - p.y) as int) * abs(SCALE as int) <= i64::MAX as int) by (nonlinear_arith)
                requires
                    abs((q.x - p.x) as int) <= 2_000_000_000,
                    abs((q.y - p.y) as int) <= 2_000_000_000,
            ;
        }
        let dirx = mul_div(q.x - p.x, SCALE, d);
        let diry = mul_div(q.y - p.y, SCALE, d);
        proof {
            lemma_mul_div_s_bound(q.x - p.x, SCALE as int, d as int, d as int, SCALE as int);
            lemma_mul_div_s_bound(q.y - p.y, SCALE as int, d as int, d as int, SCALE as int);
            vstd::arithmetic::div_mod::lemma_div_multiples_vanish(SCALE as int, d as int);
            assert(abs(dirx as int) <= SCALE as int && abs(diry as int) <= SCALE as int);
            lemma_mul_div_s_bound(dirx as int, f as int, SCALE as int, SCALE as int, abs(f as int) as int);
            lemma_mul_div_s_bound(diry as int, f as int, SCALE as int, SCALE as int, abs(f as int) as int);
            vstd::arithmetic::div_mod::lemma_div_multiples_vanish(abs(f as int) as int, SCALE as int);
            assert(abs(dirx as int) * abs(f as int) <= i64::MAX as int && abs(diry as int) * abs(
            f as int) <= i64::MAX as int) by (nonlinear_arith)
                requires
                    0 <= abs(dirx as int) <= 1024,
                    0 <= abs(diry as int) <= 1024,
                    0 <= abs(f as int) <= 6_000_000_000_000i64 as int,
            ;
        }
        (mul_div(dirx, f, SCALE), mul_div(diry, f, SCALE))
    }
}

/// Saturating accumulation of the repulsion contributions on node `i`
/// from every node with index below `k` (skipping `i` itself), in index
/// order.
pub open spec fn repel_acc_s(ps: Seq<Vec2>, i: int, c: Physics, k: int) -> (int, int)
    decreases k,
{
    if k <= 0 {
        (0, 0)
    } else {
        let prev = repel_acc_s(ps, i, c, k - 1);
        if k - 1 == i {
            prev
        } else {
            let contr = repel_pair_s(ps[i], ps[k - 1], c);
            (
                sat_s(prev.0 + contr.0, TERM_LIMIT as int),
                sat_s(prev.1 + contr.1, TERM_LIMIT as int),
            )
        }
    }
}

/// The repulsion term of node `i`: contributions from every other node.
pub open spec fn repel_term_s(ps: Seq<Vec2>, i: int, c: Physics) -> (int, int) {
    repel_acc_s(ps, i, c, ps.len() as int)
}

/// Saturating accumulation of the spring contributions on the node at
/// `p` from the first `k` entries of its neighbor list `nb`, in list
/// order — one contribution per occurrence, so parallel edges count as
/// often as they occur. An entry naming no node contributes nothing.
pub open spec fn spring_acc_s(ps: Seq<Vec2>, p: Vec2, nb: Seq<NodeId>, c: Physics, k: int) -> (
    int,
    int,
)
    decreases k,
{
    if k <= 0 {
        (0, 0)
    } else {
        let prev = spring_acc_s(ps, p, nb, c, k - 1);
        let j = nb[k - 1] as int;
        if 0 <= j < ps.len() {
            let contr = spring_pair_s(p, ps[j], c);
            (
                sat_s(prev.0 + contr.0, TERM_LIMIT as int),
                sat_s(prev.1 + contr.1, TERM_LIMIT as int),
            )
        } else {
            prev
        }
    }
}

/// The spring term of node `i`: contributions from its whole neighbor
/// list.
pub open spec fn spring_term_s(ps: Seq<Vec2>, i: int, nb: Seq<NodeId>, c: Physics) -> (int, int) {
    spring_acc_s(ps, ps[i], nb, c, nb.len() as int)
}

/// The clamped velocity change of node `i`: the two weighted force terms
/// combined and clamped to `max_delta_v` per component.
pub open spec fn delta_v_s(ps: Seq<Vec2>, ns: Seq<Seq<NodeId>>, i: int, c: Physics) -> (int, int) {
    let r = repel_term_s(ps, i, c);
    let s = spring_term_s(ps, i, ns[i], c);
    (
        sat_s(
            mul_div_s(r.0, c.repell_force as int, SCALE as int) + mul_div_s(
                s.0,
                c.spring_force as int,
                SCALE as int,
            ),
            c.max_delta_v as int,
        ),
        sat_s(
            mul_div_s(r.1, c.repell_force as int, SCALE as int) + mul_div_s(
                s.1,
                c.spring_force as int,
                SCALE as int,
            ),
            c.max_delta_v as int,
        ),
    )
}

/// The post-step velocity of node `i`: the velocity change applied and
/// the whole damped by `damping / SCALE`.
pub open spec fn step_vel_s(
    ps: Seq<Vec2>,
    vs: Seq<Vec2>,
    ns: Seq<Seq<NodeId>>,
    c: Physics,
    i: int,
) -> (int, int) {
    let dv = delta_v_s(ps, ns, i, c);
    (
        sat_s(mul_div_s(vs[i].x + dv.0, c.damping as int, SCALE as int), VEL_LIMIT as int),
        sat_s(mul_div_s(vs[i].y + dv.1, c.damping as int, SCALE as int), VEL_LIMIT as int),
    )
}

/// The tentative position of node `i`: the post-step velocity applied
/// over `dt * frame_multiplier`, clamped to the commit range.
pub open spec fn tmp_pos_s(
    ps: Seq<Vec2>,
    vs: Seq<Vec2>,
    ns: Seq<Seq<NodeId>>,
    c: Physics,
    dt: int,
    i: int,
) -> (int, int) {
    let nv = step_vel_s(ps, vs, ns, c, i);
    (
        sat_s(
            ps[i].x + mul_div_s(
                mul_div_s(nv.0, dt, SCALE as int),
                c.frame_multiplier as int,
                SCALE as int,
            ),
            POS_COMMIT_LIMIT as int,
        ),
        sat_s(
            ps[i].y + mul_div_s(
                mul_div_s(nv.1, dt, SCALE as int),
                c.frame_multiplier as int,
                SCALE as int,
            ),
            POS_COMMIT_LIMIT as int,
        ),
    )
}

/// All tentative positions of one step, in id order.
pub open spec fn tmp_seq_s(
    ps: Seq<Vec2>,
    vs: Seq<Vec2>,
    ns: Seq<Seq<NodeId>>,
    c: Physics,
    dt: int,
) -> Seq<(int, int)> {
    Seq::new(ps.len(), |i: int| tmp_pos_s(ps, vs, ns, c, dt, i))
}

/// Sum of the first components.
pub open spec fn sum_x_s(tp: Seq<(int, int)>) -> int
    decreases tp.len(),
{
    if tp.len() == 0 {
        0
    } else {
        sum_x_s(tp.drop_last()) + tp.last().0
    }
}

/// Sum of the second components.
pub open spec fn sum_y_s(tp: Seq<(int, int)>) -> int
    decreases tp.len(),
{
    if tp.len() == 0 {
        0
    } else {
        sum_y_s(tp.drop_last()) + tp.last().1
    }
}

/// `a / d` truncated toward zero.
pub open spec fn div_trunc_s(a: int, d: int) -> int {
    if a >= 0 {
        abs(a) as int / d
    } else {
        -(abs(a) as int / d)
    }
}

/// The centroid (componentwise truncated mean) of the tentative
/// positions; the zero vector for an empty graph, so an empty step never
/// divides by zero.
pub open spec fn centroid_s(tp: Seq<(int, int)>) -> (int, int) {
    if tp.len() == 0 {
        (0, 0)
    } else {
        (div_trunc_s(sum_x_s(tp), tp.len() as int), div_trunc_s(sum_y_s(tp), tp.len() as int))
    }
}

/// The committed position of node `i` after one step: its tentative
/// position, recentered by the centroid of all tentative positions.
pub open spec fn step_pos_s(
    ps: Seq<Vec2>,
    vs: Seq<Vec2>,
    ns: Seq<Seq<NodeId>>,
    c: Physics,
    dt: int,
    i: int,
) -> (int, int) {
    let tp = tmp_seq_s(ps, vs, ns, c, dt);
    let cent = centroid_s(tp);
    (tp[i].0 - cent.0, tp[i].1 - cent.1)
}

/// One layout step: forces from the pre-step snapshot, integration, a
/// whole-graph commit, and recentering on the centroid. Every node's new
/// position and velocity is exactly the step function of the old graph,
/// the parameter bundle and the frame time; the topology is untouched.
#[verifier::loop_isolation(false)]
#[verifier::rlimit(100)]
pub fn update_positions(config: &Physics, graph: &mut Graph, frametime: i64)
    requires
        old(graph).wf(),
        config.valid(),
        0 <= frametime <= DT_LIMIT,
    ensures
        final(graph).wf(),
        final(graph).nodes@.len() == old(graph).nodes@.len(),
        forall|j: int|
            0 <= j < old(graph).nodes@.len() ==> (#[trigger] final(graph).nodes@[j]).neighbors@
                == old(graph).nodes@[j].neighbors@,
        forall|j: int|
            0 <= j < old(graph).nodes@.len() ==> {
                let np = step_pos_s(
                    old(graph).positions(),
                    old(graph).velocities(),
                    old(graph).neighbor_lists(),
                    *config,
                    frametime as int,
                    j,
                );
                let nv = step_vel_s(
                    old(graph).positions(),
                    old(graph).velocities(),
                    old(graph).neighbor_lists(),
                    *config,
                    j,
                );
                &&& (#[trigger] final(graph).nodes@[j]).pos.x as int == np.0
                &&& final(graph).nodes@[j].pos.y as int == np.1
                &&& final(graph).nodes@[j].vel.x as int == nv.0
                &&& final(graph).nodes@[j].vel.y as int == nv.1
            },
        old(graph).edges_symmetric() ==> final(graph).edges_symmetric(),
{
    let ghost ps0 = old(graph).positions();
    let ghost vs0 = old(graph).velocities();
    let ghost ns0 = old(graph).neighbor_lists();
    let ghost c = *config;
    let ghost dt = frametime as int;
    let n = graph.nodes.len();

    // First pass: accumulate forces against the shared pre-step snapshot
    // and integrate velocity and a tentative position per node. Only the
    // velocity and the scratch slot are written, so every read of another
    // node's position still sees the snapshot.
    let mut i: usize = 0;
    while i < n
        invariant
            i <= n,
            graph.nodes@.len() == n,
            forall|j: int|
                0 <= j < n ==> (#[trigger] graph.nodes@[j]).pos == old(graph).nodes@[j].pos,
            forall|j: int|
                0 <= j < n ==> (#[trigger] graph.nodes@[j]).neighbors@
                    == old(graph).nodes@[j].neighbors@,
            forall|j: int|
                i <= j < n ==> (#[trigger] graph.nodes@[j]).vel == old(graph).nodes@[j].vel,
            forall|j: int|
                0 <= j < i ==> {
                    let nv = step_vel_s(ps0, vs0, ns0, c, j);
                    let tp = tmp_pos_s(ps0, vs0, ns0, c, dt, j);
                    &&& (#[trigger] graph.nodes@[j]).vel.x as int == nv.0
                    &&& graph.nodes@[j].vel.y as int == nv.1
                    &&& graph.nodes@[j].tmp_pos.x as int == tp.0
                    &&& graph.nodes@[j].tmp_pos.y as int == tp.1
                },
            graph.wf(),
        decreases n - i,
    {
        let p = graph.nodes[i].pos;
        proof {
            assert(ps0[i as int] == p);
        }

        // Repulsion from every other node.
        let mut rx: i64 = 0;
        let mut ry: i64 = 0;
        let mut j: usize = 0;
        while j < n
            invariant
                j <= n,
                rx as int == repel_acc_s(ps0, i as int, c, j as int).0,
                ry as int == repel_acc_s(ps0, i as int, c, j as int).1,
                -TERM_LIMIT <= rx <= TERM_LIMIT,
                -TERM_LIMIT <= ry <= TERM_LIMIT,
            decreases n - j,
        {
            if j != i {
                let q = graph.nodes[j].pos;
                proof {
                    assert(ps0[j as int] == q);
                }
                let contr = repel_pair(p, q, config);
                rx = sat_i64(rx + contr.0, TERM_LIMIT);
                ry = sat_i64(ry + contr.1, TERM_LIMIT);
            }
            j += 1;
        }

        // Spring attraction toward every neighbor occurrence.
        let mut sx: i64 = 0;
        let mut sy: i64 = 0;
        let deg = graph.nodes[i].neighbors.len();
        let mut k: usize = 0;
        while k < deg
            invariant
                k <= deg,
                deg == ns0[i as int].len(),
                sx as int == spring_acc_s(ps0, ps0[i as int], ns0[i as int], c, k as int).0,
                sy as int == spring_acc_s(ps0, ps0[i as int], ns0[i as int], c, k as int).1,
                -TERM_LIMIT <= sx <= TERM_LIMIT,
                -TERM_LIMIT <= sy <= TERM_LIMIT,
            decreases deg - k,
        {
            let nbid = graph.nodes[i].neighbors[k];
            proof {
                assert(ns0[i as int][k as int] == nbid);
                assert((nbid as nat) < n);
            }
            let q = graph.nodes[nbid].pos;
            proof {
                assert(ps0[nbid as int] == q);
            }
            let contr = spring_pair(p, q, config);
            sx = sat_i64(sx + contr.0, TERM_LIMIT);
            sy = sat_i64(sy + contr.1, TERM_LIMIT);
            k += 1;
        }

        // Combine the weighted terms and clamp the velocity change.
        proof {
            assert(abs(rx as int) * abs(config.repell_force as int) <= i64::MAX as int
                && abs(ry as int) * abs(config.repell_force as int) <= i64::MAX as int
                && abs(sx as int) * abs(config.spring_force as int) <= i64::MAX as int
                && abs(sy as int) * abs(config.spring_force as int) <= i64::MAX as int)
                by (nonlinear_arith)
                requires
                    0 <= abs(rx as int) <= TERM_LIMIT as int,
                    0 <= abs(ry as int) <= TERM_LIMIT as int,
                    0 <= abs(sx as int) <= TERM_LIMIT as int,
                    0 <= abs(sy as int) <= TERM_LIMIT as int,
                    0 < config.repell_force <= PARAM_LIMIT,
                    0 < config.spring_force <= PARAM_LIMIT,
            ;
        }
        let wrx = mul_div(rx, config.repell_force, SCALE);
        let wry = mul_div(ry, config.repell_force, SCALE);
        let wsx = mul_div(sx, config.spring_force, SCALE);
        let wsy = mul_div(sy, config.spring_force, SCALE);
        proof {
            lemma_mul_div_s_bound(
                rx as int,
                config.repell_force as int,
                SCALE as int,
                TERM_LIMIT as int,
                PARAM_LIMIT as int,
            );
            lemma_mul_div_s_bound(
                ry as int,
                config.repell_force as int,
                SCALE as int,
                TERM_LIMIT as int,
                PARAM_LIMIT as int,
            );
            lemma_mul_div_s_bound(
                sx as int,
                config.spring_force as int,
                SCALE as int,
                TERM_LIMIT as int,
                PARAM_LIMIT as int,
            );
            lemma_mul_div_s_bound(
                sy as int,
                config.spring_force as int,
                SCALE as int,
                TERM_LIMIT as int,
                PARAM_LIMIT as int,
            );
        }
        let dvx = sat_i64(wrx + wsx, config.max_delta_v);
        let dvy = sat_i64(wry + wsy, config.max_delta_v);

        // Integrate: damp the velocity and move the tentative position.
        let v = graph.nodes[i].vel;
        proof {
            assert(vs0[i as int] == v);
            assert(abs((v.x + dvx) as int) * abs(config.damping as int) <= i64::MAX as int
                && abs((v.y + dvy) as int) * abs(config.damping as int) <= i64::MAX as int)
                by (nonlinear_arith)
                requires
                    0 <= abs((v.x + dvx) as int) <= 3_000_000_000int,
                    0 <= abs((v.y + dvy) as int) <= 3_000_000_000int,
                    0 < config.damping < SCALE,
            ;
        }
        let nvx = sat_i64(mul_div(v.x + dvx, config.damping, SCALE), VEL_LIMIT);
        let nvy = sat_i64(mul_div(v.y + dvy, config.damping, SCALE), VEL_LIMIT);
        proof {
            assert(abs(nvx as int) * abs(frametime as int) <= i64::MAX as int && abs(nvy as int)
                * abs(frametime as int) <= i64::MAX as int) by (nonlinear_arith)
                requires
                    0 <= abs(nvx as int) <= VEL_LIMIT as int,
                    0 <= abs(nvy as int) <= VEL_LIMIT as int,
                    0 <= frametime <= DT_LIMIT,
            ;
        }
        let t1x = mul_div(nvx, frametime, SCALE);
        let t1y = mul_div(nvy, frametime, SCALE);
        proof {
            lemma_mul_div_s_bound(
                nvx as int,
                frametime as int,
                SCALE as int,
                VEL_LIMIT as int,
                DT_LIMIT as int,
            );
            lemma_mul_div_s_bound(
                nvy as int,
                frametime as int,
                SCALE as int,
                VEL_LIMIT as int,
                DT_LIMIT as int,
            );
            assert(abs(t1x as int) * abs(config.frame_multiplier as int) <= i64::MAX as int && abs(
                t1y as int,
            ) * abs(config.frame_multiplier as int) <= i64::MAX as int) by (nonlinear_arith)
                requires
                    0 <= abs(t1x as int) <= 1_953_125_000_000int,
                    0 <= abs(t1y as int) <= 1_953_125_000_000int,
                    0 < config.frame_multiplier <= PARAM_LIMIT,
            ;
        }
        let t2x = mul_div(t1x, config.frame_multiplier, SCALE);
        let t2y = mul_div(t1y, config.frame_multiplier, SCALE);
        proof {
            lemma_mul_div_s_bound(
                t1x as int,
                config.frame_multiplier as int,
                SCALE as int,
                1_953_125_000_000int,
                PARAM_LIMIT as int,
            );
            lemma_mul_div_s_bound(
                t1y as int,
                config.frame_multiplier as int,
                SCALE as int,
                1_953_125_000_000int,
                PARAM_LIMIT as int,
            );
        }
        let tx = sat_i64(p.x + t2x, POS_COMMIT_LIMIT);
        let ty = sat_i64(p.y + t2y, POS_COMMIT_LIMIT);

        graph.nodes[i].vel = Vec2 { x: nvx, y: nvy };
        graph.nodes[i].tmp_pos = Vec2 { x: tx, y: ty };
        i += 1;
    }

    if n == 0 {
        return ;
    }

    // Second pass: centroid of the committed (tentative) positions.
    let ghost tp = tmp_seq_s(ps0, vs0, ns0, c, dt);
    let mut sumx: i128 = 0;
    let mut sumy: i128 = 0;
    let mut i2: usize = 0;
    while i2 < n
        invariant
            i2 <= n,
            sumx as int == sum_x_s(tp.subrange(0, i2 as int)),
            sumy as int == sum_y_s(tp.subrange(0, i2 as int)),
            abs(sumx as int) <= (i2 as int) * (POS_COMMIT_LIMIT as int),
            abs(sumy as int) <= (i2 as int) * (POS_COMMIT_LIMIT as int),
        decreases n - i2,
    {
        let t = graph.nodes[i2].tmp_pos;
        proof {
            assert(tp[i2 as int] == tmp_pos_s(ps0, vs0, ns0, c, dt, i2 as int));
            assert(t.x as int == tp[i2 as int].0 && t.y as int == tp[i2 as int].1);
            assert(tp.subrange(0, i2 as int + 1).drop_last() =~= tp.subrange(0, i2 as int));
            assert(abs(sumx as int + t.x as int) <= (i2 as int + 1) * (POS_COMMIT_LIMIT as int)
                && abs(sumy as int + t.y as int) <= (i2 as int + 1) * (POS_COMMIT_LIMIT as int))
                by (nonlinear_arith)
                requires
                    abs(sumx as int) <= (i2 as int) * (POS_COMMIT_LIMIT as int),
                    abs(sumy as int) <= (i2 as int) * (POS_COMMIT_LIMIT as int),
                    abs(t.x as int) <= POS_COMMIT_LIMIT as int,
                    abs(t.y as int) <= POS_COMMIT_LIMIT as int,
            ;
        }
        sumx = sumx + t.x as i128;
        sumy = sumy + t.y as i128;
        i2 += 1;
    }
    proof {
        assert(tp.subrange(0, n as int) =~= tp);
        assert((n as int) * (POS_COMMIT_LIMIT as int) <= (usize::MAX as int) * (
        POS_COMMIT_LIMIT as int)) by (nonlinear_arith)
            requires
                0 < n as int <= usize::MAX as int,
        ;
    }
    let cx = div_trunc_i128(sumx, n);
    let cy = div_trunc_i128(sumy, n);
    proof {
        assert(centroid_s(tp) == (cx as int, cy as int));
    }

    // Third pass: commit every tentative position and recenter the whole
    // graph on the centroid.
    let mut i3: usize = 0;
    while i3 < n
        invariant
            i3 <= n,
            graph.nodes@.len() == n,
            forall|j: int|
                0 <= j < n ==> (#[trigger] graph.nodes@[j]).neighbors@
                    == old(graph).nodes@[j].neighbors@,
            forall|j: int|
                0 <= j < n ==> {
                    let nv = step_vel_s(ps0, vs0, ns0, c, j);
                    &&& (#[trigger] graph.nodes@[j]).vel.x as int == nv.0
                    &&& graph.nodes@[j].vel.y as int == nv.1
                },
            forall|j: int|
                i3 <= j < n ==> {
                    let tpj = tmp_pos_s(ps0, vs0, ns0, c, dt, j);
                    &&& (#[trigger] graph.nodes@[j]).tmp_pos.x as int == tpj.0
                    &&& graph.nodes@[j].tmp_pos.y as int == tpj.1
                },
            forall|j: int|
                0 <= j < i3 ==> {
                    let np = step_pos_s(ps0, vs0, ns0, c, dt, j);
                    &&& (#[trigger] graph.nodes@[j]).pos.x as int == np.0
                    &&& graph.nodes@[j].pos.y as int == np.1
                },
            graph.wf(),
        decreases n - i3,
    {
        let t = graph.nodes[i3].tmp_pos;
        let former = graph.nodes[i3].pos;
        graph.nodes[i3].pos = Vec2 { x: t.x - cx, y: t.y - cy };
        graph.nodes[i3].tmp_pos = former;
        i3 += 1;
    }
    proof {
        if old(graph).edges_symmetric() {
            assert forall|a: int, b: int|
                0 <= a < graph.nodes@.len() && 0 <= b < graph.nodes@.len() && a != b implies #[trigger] graph.edge_count(a, b) == graph.edge_count(b, a) by {
                assert(old(graph).edge_count(a, b) == old(graph).edge_count(b, a));
            }
        }
    }
}

/// `a / d` truncated toward zero, for a centroid sum of `d` clamped
/// coordinates: the quotient is a coordinate in the commit range again.
fn div_trunc_i128(a: i128, d: usize) -> (r: i64)
    requires
        0 < d,
        abs(a as int) <= (d as int) * (POS_COMMIT_LIMIT as int),
    ensures
        r as int == div_trunc_s(a as int, d as int),
        abs(r as int) <= POS_COMMIT_LIMIT as int,
{
    let am: u128 = if a < 0 {
        (-a) as u128
    } else {
        a as u128
    };
    let q: u128 = am / (d as u128);
    proof {
        vstd::arithmetic::div_mod::lemma_div_pos_is_pos(am as int, d as int);
        vstd::arithmetic::div_mod::lemma_div_is_ordered(
            am as int,
            (d as int) * (POS_COMMIT_LIMIT as int),
            d as int,
        );
        vstd::arithmetic::div_mod::lemma_div_multiples_vanish(POS_COMMIT_LIMIT as int, d as int);
    }
    let qi: i64 = q as i64;
    if a < 0 {
        -qi
    } else {
        qi
    }
}

/// The position node `x` is pinned to, if any; with several pins for one
/// node the last one wins, as the pins are applied in order.
pub open spec fn pin_lookup_s(pins: Seq<(NodeId, Vec2)>, x: int) -> Option<Vec2>
    decreases pins.len(),
{
    if pins.len() == 0 {
        None
    } else if pins.last().0 as int == x {
        Some(pins.last().1)
    } else {
        pin_lookup_s(pins.drop_last(), x)
    }
}

/// The committed position of node `i` after a step with pins: the pin
/// where one holds the node, the step function everywhere else.
pub open spec fn pinned_pos_s(
    ps: Seq<Vec2>,
    vs: Seq<Vec2>,
    ns: Seq<Seq<NodeId>>,
    c: Physics,
    dt: int,
    pins: Seq<(NodeId, Vec2)>,
    i: int,
) -> (int, int) {
    match pin_lookup_s(pins, i) {
        Some(pp) => (pp.x as int, pp.y as int),
        None => step_pos_s(ps, vs, ns, c, dt, i),
    }
}

/// The velocity of node `i` after a step with pins: a pinned node's
/// step-computed velocity is discarded and replaced by zero, so that on
/// release it resumes with no residual motion.
pub open spec fn pinned_vel_s(
    ps: Seq<Vec2>,
    vs: Seq<Vec2>,
    ns: Seq<Seq<NodeId>>,
    c: Physics,
    pins: Seq<(NodeId, Vec2)>,
    i: int,
) -> (int, int) {
    match pin_lookup_s(pins, i) {
        Some(pp) => (0int, 0int),
        None => step_vel_s(ps, vs, ns, c, i),
    }
}

/// One layout step with interaction overrides: the pins are checked
/// first and an unknown node id fails fast before anything moves; then
/// the ordinary step runs, and each pinned node's step-computed position
/// and velocity are discarded in favor of the pin. Pinned nodes still
/// took part as full repellers and attractors of every other node.
#[verifier::loop_isolation(false)]
pub fn update_positions_pinned(
    config: &Physics,
    graph: &mut Graph,
    frametime: i64,
    pins: &Vec<(NodeId, Vec2)>,
) -> (r: Result<(), StructuralError>)
    requires
        old(graph).wf(),
        config.valid(),
        0 <= frametime <= DT_LIMIT,
        forall|k: int|
            0 <= k < pins@.len() ==> (#[trigger] pins@[k]).1.in_range(POS_LIMIT as int),
    ensures
        r is Ok <==> (forall|k: int|
            0 <= k < pins@.len() ==> (#[trigger] pins@[k]).0 < old(graph).nodes@.len()),
        r matches Err(e) ==> {
            &&& *final(graph) == *old(graph)
            &&& e.id >= old(graph).nodes@.len()
            &&& exists|k: int| 0 <= k < pins@.len() && (#[trigger] pins@[k]).0 == e.id
        },
        r is Ok ==> {
            &&& final(graph).wf()
            &&& final(graph).nodes@.len() == old(graph).nodes@.len()
            &&& forall|j: int|
                0 <= j < old(graph).nodes@.len() ==> (#[trigger] final(graph).nodes@[j]).neighbors@
                    == old(graph).nodes@[j].neighbors@
            &&& forall|j: int|
                0 <= j < old(graph).nodes@.len() ==> {
                    let np = pinned_pos_s(
                        old(graph).positions(),
                        old(graph).velocities(),
                        old(graph).neighbor_lists(),
                        *config,
                        frametime as int,
                        pins@,
                        j,
                    );
                    let nv = pinned_vel_s(
                        old(graph).positions(),
                        old(graph).velocities(),
                        old(graph).neighbor_lists(),
                        *config,
                        pins@,
                        j,
                    );
                    &&& (#[trigger] final(graph).nodes@[j]).pos.x as int == np.0
                    &&& final(graph).nodes@[j].pos.y as int == np.1
                    &&& final(graph).nodes@[j].vel.x as int == nv.0
                    &&& final(graph).nodes@[j].vel.y as int == nv.1
                }
            &&& old(graph).edges_symmetric() ==> final(graph).edges_symmetric()
        },
{
    let n = graph.nodes.len();

    // Fail fast on a pin that names no node, before anything moves.
    let mut k: usize = 0;
    while k < pins.len()
        invariant
            k <= pins@.len(),
            forall|k2: int| 0 <= k2 < k ==> (#[trigger] pins@[k2]).0 < n,
        decreases pins@.len() - k,
    {
        if pins[k].0 >= n {
            return Err(StructuralError { id: pins[k].0 });
        }
        k += 1;
    }

    let ghost ps0 = old(graph).positions();
    let ghost vs0 = old(graph).velocities();
    let ghost ns0 = old(graph).neighbor_lists();
    let ghost c = *config;
    let ghost dt = frametime as int;

    update_positions(config, graph, frametime);

    // Apply the pins in order: position from the pin, velocity zeroed.
    let mut k2: usize = 0;
    while k2 < pins.len()
        invariant
            k2 <= pins@.len(),
            graph.nodes@.len() == n,
            forall|j: int|
                0 <= j < n ==> (#[trigger] graph.nodes@[j]).neighbors@
                    == old(graph).nodes@[j].neighbors@,
            forall|j: int|
                0 <= j < n ==> {
                    let np = pinned_pos_s(ps0, vs0, ns0, c, dt, pins@.subrange(0, k2 as int), j);
                    let nv = pinned_vel_s(ps0, vs0, ns0, c, pins@.subrange(0, k2 as int), j);
                    &&& (#[trigger] graph.nodes@[j]).pos.x as int == np.0
                    &&& graph.nodes@[j].pos.y as int == np.1
                    &&& graph.nodes@[j].vel.x as int == nv.0
                    &&& graph.nodes@[j].vel.y as int == nv.1
                },
            graph.wf(),
        decreases pins@.len() - k2,
    {
        let id = pins[k2].0;
        let pp = pins[k2].1;
        graph.nodes[id].pos = pp;
        graph.nodes[id].vel = Vec2 { x: 0, y: 0 };
        proof {
            assert(pins@.subrange(0, k2 as int + 1).drop_last() =~= pins@.subrange(0, k2 as int));
            assert(pins@.subrange(0, k2 as int + 1).last() == pins@[k2 as int]);
        }
        k2 += 1;
    }
    proof {
        assert(pins@.subrange(0, pins@.len() as int) =~= pins@);
        if old(graph).edges_symmetric() {
            assert forall|a: int, b: int|
                0 <= a < graph.nodes@.len() && 0 <= b < graph.nodes@.len() && a != b implies #[trigger] graph.edge_count(a, b) == graph.edge_count(b, a) by {
                assert(old(graph).edge_count(a, b) == old(graph).edge_count(b, a));
            }
        }
    }
    Ok(())
}

/// All committed positions of one unpinned step, in id order.
pub open spec fn step_pos_seq_s(
    ps: Seq<Vec2>,
    vs: Seq<Vec2>,
    ns: Seq<Seq<NodeId>>,
    c: Physics,
    dt: int,
) -> Seq<(int, int)> {
    Seq::new(ps.len(), |i: int| step_pos_s(ps, vs, ns, c, dt, i))
}

/// Shifting every entry of a sequence by a constant shifts its sum by
/// the length times that constant.
proof fn lemma_sum_shift(tp: Seq<(int, int)>, cx: int, cy: int, shifted: Seq<(int, int)>)
    requires
        shifted.len() == tp.len(),
        forall|i: int| 0 <= i < tp.len() ==> #[trigger] shifted[i] == (tp[i].0 - cx, tp[i].1 - cy),
    ensures
        sum_x_s(shifted) == sum_x_s(tp) - (tp.len() as int) * cx,
        sum_y_s(shifted) == sum_y_s(tp) - (tp.len() as int) * cy,
    decreases tp.len(),
{
    if tp.len() == 0 {
        assert((tp.len() as int) * cx == 0 && (tp.len() as int) * cy == 0) by (nonlinear_arith)
            requires
                tp.len() == 0,
        ;
    }
    if tp.len() > 0 {
        assert(forall|i: int|
            0 <= i < tp.drop_last().len() ==> #[trigger] shifted.drop_last()[i] == (
            tp.drop_last()[i].0 - cx,
            tp.drop_last()[i].1 - cy,
            ));
        lemma_sum_shift(tp.drop_last(), cx, cy, shifted.drop_last());
        assert(tp.drop_last().len() == tp.len() - 1);
        assert((tp.drop_last().len() as int) * cx == (tp.len() - 1) * cx);
        assert((tp.drop_last().len() as int) * cy == (tp.len() - 1) * cy);
        assert(shifted.last() == shifted[tp.len() - 1]);
        assert(tp.last() == tp[tp.len() - 1]);
        assert(sum_x_s(shifted) == sum_x_s(shifted.drop_last()) + shifted.last().0);
        assert(sum_y_s(shifted) == sum_y_s(shifted.drop_last()) + shifted.last().1);
        assert(sum_x_s(tp) == sum_x_s(tp.drop_last()) + tp.last().0);
        assert(sum_y_s(tp) == sum_y_s(tp.drop_last()) + tp.last().1);
        assert((tp.len() as int) * cx == (tp.len() - 1) * cx + cx) by (nonlinear_arith);
        assert((tp.len() as int) * cy == (tp.len() - 1) * cy + cy) by (nonlinear_arith);
    }
}

/// Truncating division leaves a remainder smaller than the divisor.
proof fn lemma_div_trunc_remainder(a: int, d: int)
    requires
        d >= 1,
    ensures
        abs(a - d * div_trunc_s(a, d)) < d,
{
    if a >= 0 {
        let t = a / d;
        assert(0 <= a - d * t < d) by (nonlinear_arith)
            requires
                a >= 0,
                d >= 1,
                t == a / d,
        ;
        assert(div_trunc_s(a, d) == t);
    } else {
        let m = -a;
        let t = m / d;
        assert(0 <= m - d * t < d) by (nonlinear_arith)
            requires
                m > 0,
                d >= 1,
                t == m / d,
        ;
        assert(div_trunc_s(a, d) == -t);
        assert(d * (-t) == -(d * t)) by (nonlinear_arith);
        assert(a - d * (-t) == -(m - d * t));
    }
}

/// Recentering invariant: after one step of a graph with at least one
/// node, the componentwise sum of all positions is smaller in magnitude
/// than the node count — the mean position is zero up to less than one
/// fixed-point unit of integer rounding.
pub proof fn lemma_step_recenters(
    ps: Seq<Vec2>,
    vs: Seq<Vec2>,
    ns: Seq<Seq<NodeId>>,
    c: Physics,
    dt: int,
)
    requires
        ps.len() >= 1,
    ensures
        abs(sum_x_s(step_pos_seq_s(ps, vs, ns, c, dt))) < ps.len(),
        abs(sum_y_s(step_pos_seq_s(ps, vs, ns, c, dt))) < ps.len(),
{
    let tp = tmp_seq_s(ps, vs, ns, c, dt);
    let cent = centroid_s(tp);
    let post = step_pos_seq_s(ps, vs, ns, c, dt);
    let n = ps.len() as int;
    assert(forall|i: int| 0 <= i < n ==> #[trigger] post[i] == (tp[i].0 - cent.0, tp[i].1 - cent.1));
    lemma_sum_shift(tp, cent.0, cent.1, post);
    lemma_div_trunc_remainder(sum_x_s(tp), n);
    lemma_div_trunc_remainder(sum_y_s(tp), n);
}

/// Parallel edges are never deduplicated: a neighbor list naming the
/// same node twice contributes exactly twice the single occurrence's
/// spring force, as long as the doubled contribution stays below the
/// accumulator's saturation bound.
pub proof fn lemma_parallel_edges_double(ps: Seq<Vec2>, i: int, j: NodeId, c: Physics)
    requires
        0 <= i < ps.len(),
        (j as int) < ps.len(),
        2 * abs(spring_pair_s(ps[i], ps[j as int], c).0) <= TERM_LIMIT as int,
        2 * abs(spring_pair_s(ps[i], ps[j as int], c).1) <= TERM_LIMIT as int,
    ensures
        spring_term_s(ps, i, seq![j, j], c).0 == 2 * spring_term_s(ps, i, seq![j], c).0,
        spring_term_s(ps, i, seq![j, j], c).1 == 2 * spring_term_s(ps, i, seq![j], c).1,
{
    reveal_with_fuel(spring_acc_s, 4);
    let contr = spring_pair_s(ps[i], ps[j as int], c);
    let one: Seq<NodeId> = seq![j];
    let two: Seq<NodeId> = seq![j, j];
    assert(one[0] == j && two[0] == j && two[1] == j);
    assert(spring_acc_s(ps, ps[i], one, c, 0) == (0int, 0int));
    assert(spring_acc_s(ps, ps[i], two, c, 0) == (0int, 0int));
    assert(spring_term_s(ps, i, one, c).0 == sat_s(contr.0, TERM_LIMIT as int));
    assert(spring_term_s(ps, i, two, c).0 == sat_s(
        sat_s(contr.0, TERM_LIMIT as int) + contr.0,
        TERM_LIMIT as int,
    ));
    assert(spring_term_s(ps, i, one, c).1 == sat_s(contr.1, TERM_LIMIT as int));
    assert(spring_term_s(ps, i, two, c).1 == sat_s(
        sat_s(contr.1, TERM_LIMIT as int) + contr.1,
        TERM_LIMIT as int,
    ));
}

/// Pinning: a node held by a pin ends the step exactly at the pinned
/// position with zero velocity, whatever the forces computed for it — so
/// over consecutive pinned steps it stays at the pin, and on release it
/// evolves from the pin with zero initial velocity.
pub proof fn lemma_pin_overrides(
    ps: Seq<Vec2>,
    vs: Seq<Vec2>,
    ns: Seq<Seq<NodeId>>,
    c: Physics,
    dt: int,
    pins: Seq<(NodeId, Vec2)>,
    x: int,
    pp: Vec2,
)
    requires
        pin_lookup_s(pins, x) == Some(pp),
    ensures
        pinned_pos_s(ps, vs, ns, c, dt, pins, x) == (pp.x as int, pp.y as int),
        pinned_vel_s(ps, vs, ns, c, pins, x) == (0int, 0int),
{
}

/// Determinism: equal snapshots, equal parameter bundles and equal frame
/// times give bit-for-bit equal step results — the engine has no hidden
/// randomness.
pub proof fn lemma_step_deterministic(
    ps1: Seq<Vec2>,
    vs1: Seq<Vec2>,
    ns1: Seq<Seq<NodeId>>,
    ps2: Seq<Vec2>,
    vs2: Seq<Vec2>,
    ns2: Seq<Seq<NodeId>>,
    c1: Physics,
    c2: Physics,
    dt1: int,
    dt2: int,
    i: int,
)
    requires
        ps1 =~= ps2,
        vs1 =~= vs2,
        ns1 =~~= ns2,
        c1 == c2,
        dt1 == dt2,
    ensures
        step_pos_s(ps1, vs1, ns1, c1, dt1, i) == step_pos_s(ps2, vs2, ns2, c2, dt2, i),
        step_vel_s(ps1, vs1, ns1, c1, i) == step_vel_s(ps2, vs2, ns2, c2, i),
{
    assert(ps1 == ps2);
    assert(vs1 == vs2);
    assert(ns1 == ns2);
}

/// The sign of `mul_div_s` follows the signs of its factors.
proof fn lemma_mul_div_s_sign(a: int, b: int, d: int)
    requires
        0 < d,
    ensures
        a >= 0 && b >= 0 ==> mul_div_s(a, b, d) >= 0,
        a <= 0 && b <= 0 ==> mul_div_s(a, b, d) >= 0,
        a >= 0 && b <= 0 ==> mul_div_s(a, b, d) <= 0,
        a <= 0 && b >= 0 ==> mul_div_s(a, b, d) <= 0,
{
    let x = (abs(a) * abs(b)) as int;
    vstd::arithmetic::div_mod::lemma_div_pos_is_pos(x, d);
    assert(x / d >= 0);
    if a == 0 || b == 0 {
        let aa = abs(a) as int;
        let bb = abs(b) as int;
        assert(aa == 0 || bb == 0);
        assert(aa * bb == 0) by (nonlinear_arith)
            requires
                aa == 0 || bb == 0,
        ;
        assert(x == 0);
        vstd::arithmetic::div_mod::lemma_div_of0(d);
        assert(x / d == 0);
    }
    if (a >= 0) == (b >= 0) {
        assert(mul_div_s(a, b, d) == x / d);
    } else {
        assert(mul_div_s(a, b, d) == -(x / d));
    }
}

/// Repulsion never attracts: each component of the contribution on `p`
/// from `q` points away from `q` (or vanishes). Two unconnected nodes
/// therefore only ever push each other apart; their separation grows
/// under repeated steps until the truncation floor of the fixed-point
/// force is reached.
pub proof fn lemma_repulsion_points_away(p: Vec2, q: Vec2, c: Physics)
    requires
        c.valid(),
    ensures
        p.x >= q.x ==> repel_pair_s(p, q, c).0 >= 0,
        p.x <= q.x ==> repel_pair_s(p, q, c).0 <= 0,
        p.y >= q.y ==> repel_pair_s(p, q, c).1 >= 0,
        p.y <= q.y ==> repel_pair_s(p, q, c).1 <= 0,
{
    let d = dist_fix_s(p, q);
    if d != 0 {
        let dm = if d < c.epsilon {
            c.epsilon as int
        } else {
            d
        };
        assert((p.x - q.x) * (p.x - q.x) >= 0 && (p.y - q.y) * (p.y - q.y) >= 0)
            by (nonlinear_arith);
        lemma_sqrt_floor(dist2_s(p, q));
        assert(dm > 0);
        let mag = mul_div_s(c.repel_coefficient as int, SCALE as int, dm);
        vstd::arithmetic::div_mod::lemma_div_pos_is_pos(
            (abs(c.repel_coefficient as int) * abs(SCALE as int)) as int,
            dm,
        );
        assert(mag >= 0);
        let dirx = mul_div_s(p.x - q.x, SCALE as int, d);
        let diry = mul_div_s(p.y - q.y, SCALE as int, d);
        vstd::arithmetic::div_mod::lemma_div_pos_is_pos(
            (abs(p.x - q.x) * abs(SCALE as int)) as int,
            d,
        );
        vstd::arithmetic::div_mod::lemma_div_pos_is_pos(
            (abs(p.y - q.y) * abs(SCALE as int)) as int,
            d,
        );
        vstd::arithmetic::div_mod::lemma_div_pos_is_pos((abs(dirx) * abs(mag)) as int, SCALE as int);
        vstd::arithmetic::div_mod::lemma_div_pos_is_pos((abs(diry) * abs(mag)) as int, SCALE as int);
    }
}

/// The spring restores its resting distance: a neighbor farther away
/// than `equilibrium_len` is pulled toward (each contribution component
/// points at the neighbor), one closer is pushed away. Under damping
/// below one this drives a connected pair's distance toward the
/// equilibrium length.
pub proof fn lemma_spring_restores(p: Vec2, q: Vec2, c: Physics)
    requires
        c.valid(),
    ensures
        dist_fix_s(p, q) > c.equilibrium_len ==> {
            &&& q.x >= p.x ==> spring_pair_s(p, q, c).0 >= 0
            &&& q.x <= p.x ==> spring_pair_s(p, q, c).0 <= 0
            &&& q.y >= p.y ==> spring_pair_s(p, q, c).1 >= 0
            &&& q.y <= p.y ==> spring_pair_s(p, q, c).1 <= 0
        },
        0 < dist_fix_s(p, q) < c.equilibrium_len ==> {
            &&& q.x >= p.x ==> spring_pair_s(p, q, c).0 <= 0
            &&& q.x <= p.x ==> spring_pair_s(p, q, c).0 >= 0
            &&& q.y >= p.y ==> spring_pair_s(p, q, c).1 <= 0
            &&& q.y <= p.y ==> spring_pair_s(p, q, c).1 >= 0
        },
{
    let d = dist_fix_s(p, q);
    if d != 0 {
        assert((p.x - q.x) * (p.x - q.x) >= 0 && (p.y - q.y) * (p.y - q.y) >= 0)
            by (nonlinear_arith);
        lemma_sqrt_floor(dist2_s(p, q));
        let dev = d - c.equilibrium_len;
        let f = mul_div_s(c.stiffness as int, dev, SCALE as int);
        lemma_mul_div_s_sign(c.stiffness as int, dev, SCALE as int);
        let dirx = mul_div_s(q.x - p.x, SCALE as int, d);
        let diry = mul_div_s(q.y - p.y, SCALE as int, d);
        lemma_mul_div_s_sign(q.x - p.x, SCALE as int, d);
        lemma_mul_div_s_sign(q.y - p.y, SCALE as int, d);
        lemma_mul_div_s_sign(dirx, f, SCALE as int);
        lemma_mul_div_s_sign(diry, f, SCALE as int);
    }
}

/// A coincident pair is the documented degenerate case: both force laws
/// return the zero vector for it, never an undefined direction.
pub proof fn lemma_coincident_pair_zero(p: Vec2, c: Physics)
    ensures
        repel_pair_s(p, p, c) == (0int, 0int),
        spring_pair_s(p, p, c) == (0int, 0int),
{
    assert(dist2_s(p, p) == 0) by (nonlinear_arith);
    assert(dist_fix_s(p, p) == 0);
}

} // verus!
