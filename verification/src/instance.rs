//! Building the layout graph of a parsed formula: one node per clause,
//! then one node per variable, and one symmetric edge per clause–variable
//! occurrence — the literal's sign plays no role in the structure.

use vstd::prelude::*;
use vstd::math::abs;
use crate::graph::{Graph, Vec2, POS_LIMIT};

verus! {

/// The largest variable index named in one clause (0 for an empty one).
pub open spec fn clause_max_s(cl: Seq<i32>) -> int
    decreases cl.len(),
{
    if cl.len() == 0 {
        0
    } else {
        let rest = clause_max_s(cl.drop_last());
        let v = abs(cl.last() as int) as int;
        if v > rest {
            v
        } else {
            rest
        }
    }
}

/// The largest variable index named in the formula (0 when none names
/// any): the number of variable nodes the layout graph holds.
pub open spec fn max_var_s(f: Seq<Vec<i32>>) -> int
    decreases f.len(),
{
    if f.len() == 0 {
        0
    } else {
        let rest = max_var_s(f.drop_last());
        let v = clause_max_s(f.last()@);
        if v > rest {
            v
        } else {
            rest
        }
    }
}

/// No literal of the formula is zero; the parser drops the `0` clause
/// terminators, so what it returns always satisfies this.
pub open spec fn no_zero_lit_s(f: Seq<Vec<i32>>) -> bool {
    forall|i: int, k: int|
        0 <= i < f.len() && 0 <= k < f[i]@.len() ==> (#[trigger] f[i]@[k]) != 0
}

/// The variable node id an occurrence of literal `l` is joined to, in a
/// graph whose clause nodes are `0 .. c_count`.
pub open spec fn lit_node_s(c_count: int, l: i32) -> int {
    c_count + abs(l as int) - 1
}

/// Every clause maximum dominates each of the clause's own literals.
proof fn lemma_clause_max_ge(cl: Seq<i32>, k: int)
    requires
        0 <= k < cl.len(),
    ensures
        clause_max_s(cl) >= abs(cl[k] as int),
        clause_max_s(cl) >= 0,
    decreases cl.len(),
{
    if k == cl.len() - 1 {
        if cl.len() > 1 {
            lemma_clause_max_ge(cl.drop_last(), 0);
        }
    } else {
        lemma_clause_max_ge(cl.drop_last(), k);
    }
}

/// The formula maximum dominates every literal of every clause.
proof fn lemma_max_var_ge(f: Seq<Vec<i32>>, i: int, k: int)
    requires
        0 <= i < f.len(),
        0 <= k < f[i]@.len(),
    ensures
        max_var_s(f) >= abs(f[i]@[k] as int),
        max_var_s(f) >= 0,
    decreases f.len(),
{
    if i == f.len() - 1 {
        lemma_clause_max_ge(f.last()@, k);
        if f.len() > 1 && f[0]@.len() > 0 {
            lemma_max_var_ge(f.drop_last(), 0, 0);
        }
    } else {
        lemma_max_var_ge(f.drop_last(), i, k);
    }
}

/// How many nodes the layout graph of `formula` holds: one per clause
/// plus one per variable up to the largest named index.
#[verifier::loop_isolation(false)]
pub fn node_count(formula: &Vec<Vec<i32>>) -> (r: usize)
    requires
        formula@.len() + max_var_s(formula@) <= usize::MAX as int,
    ensures
        r as int == formula@.len() + max_var_s(formula@),
{
    let mut mv: i64 = 0;
    let mut i: usize = 0;
    let n = formula.len();
    while i < n
        invariant
            i <= n,
            0 <= mv,
            mv as int == max_var_s(formula@.subrange(0, i as int)),
            mv as int <= 2_147_483_648,
        decreases n - i,
    {
        let clen = formula[i].len();
        let mut k: usize = 0;
        let mut cm: i64 = 0;
        while k < clen
            invariant
                k <= clen,
                clen == formula@[i as int]@.len(),
                0 <= cm,
                cm as int == clause_max_s(formula@[i as int]@.subrange(0, k as int)),
                cm as int <= 2_147_483_648,
            decreases clen - k,
        {
            let l = formula[i][k];
            let la: i64 = l as i64;
            let va: i64 = if la < 0 {
                -la
            } else {
                la
            };
            proof {
                let cl = formula@[i as int]@;
                assert(cl.subrange(0, k as int + 1).drop_last() =~= cl.subrange(0, k as int));
                assert(cl.subrange(0, k as int + 1).last() == cl[k as int]);
            }
            if va > cm {
                cm = va;
            }
            k += 1;
        }
        proof {
            let cl = formula@[i as int]@;
            assert(cl.subrange(0, clen as int) =~= cl);
            assert(formula@.subrange(0, i as int + 1).drop_last() =~= formula@.subrange(
                0,
                i as int,
            ));
            assert(formula@.subrange(0, i as int + 1).last() == formula@[i as int]);
        }
        if cm > mv {
            mv = cm;
        }
        i += 1;
    }
    proof {
        assert(formula@.subrange(0, n as int) =~= formula@);
    }
    n + mv as usize
}

/// Builds the layout graph of `formula` over the given initial node
/// positions: clause nodes first (ids `0 .. formula.len()`), then one
/// variable node per index up to the largest named variable, then one
/// symmetric edge per literal occurrence, in clause-major order. Every
/// node starts with zero velocity; clause node `i`'s neighbor list is
/// exactly its clause's literals mapped to their variable nodes, in
/// order, and the edge store is symmetric.
#[verifier::loop_isolation(false)]
pub fn build_graph(formula: &Vec<Vec<i32>>, positions: &Vec<Vec2>) -> (g: Graph)
    requires
        no_zero_lit_s(formula@),
        formula@.len() + max_var_s(formula@) <= usize::MAX as int,
        positions@.len() == formula@.len() + max_var_s(formula@),
        forall|i: int|
            0 <= i < positions@.len() ==> (#[trigger] positions@[i]).in_range(POS_LIMIT as int),
    ensures
        g.wf(),
        g.edges_symmetric(),
        g.nodes@.len() == positions@.len(),
        forall|i: int|
            0 <= i < positions@.len() ==> (#[trigger] g.nodes@[i]).pos == positions@[i],
        forall|i: int|
            0 <= i < positions@.len() ==> (#[trigger] g.nodes@[i]).vel == (Vec2 { x: 0, y: 0 }),
        forall|i: int|
            0 <= i < formula@.len() ==> (#[trigger] g.nodes@[i]).neighbors@.len()
                == formula@[i]@.len(),
        forall|i: int, k: int|
            0 <= i < formula@.len() && 0 <= k < formula@[i]@.len()
                ==> (#[trigger] g.nodes@[i].neighbors@[k]) as int == lit_node_s(
                formula@.len() as int,
                formula@[i]@[k],
            ),
{
    let c_count = formula.len();
    let total = positions.len();
    let mut g = Graph::new();

    // One node per clause, then one per variable, in id order.
    let mut i: usize = 0;
    while i < total
        invariant
            i <= total,
            g.nodes@.len() == i,
            g.wf(),
            g.edges_symmetric(),
            forall|j: int| 0 <= j < i ==> (#[trigger] g.nodes@[j]).pos == positions@[j],
            forall|j: int| 0 <= j < i ==> (#[trigger] g.nodes@[j]).vel == (Vec2 { x: 0, y: 0 }),
            forall|j: int| 0 <= j < i ==> (#[trigger] g.nodes@[j]).neighbors@.len() == 0,
        decreases total - i,
    {
        g.add_node(positions[i]);
        i += 1;
    }

    // One symmetric edge per literal occurrence, clause-major.
    let mut ci: usize = 0;
    while ci < c_count
        invariant
            ci <= c_count,
            g.nodes@.len() == total,
            g.wf(),
            g.edges_symmetric(),
            forall|j: int| 0 <= j < total ==> (#[trigger] g.nodes@[j]).pos == positions@[j],
            forall|j: int| 0 <= j < total ==> (#[trigger] g.nodes@[j]).vel == (Vec2 { x: 0, y: 0 }),
            forall|j: int|
                0 <= j < ci ==> (#[trigger] g.nodes@[j]).neighbors@.len() == formula@[j]@.len(),
            forall|j: int, k: int|
                0 <= j < ci && 0 <= k < formula@[j]@.len() ==> (#[trigger] g.nodes@[j].neighbors@[k]) as int
                    == lit_node_s(c_count as int, formula@[j]@[k]),
            forall|j: int|
                ci <= j < c_count ==> (#[trigger] g.nodes@[j]).neighbors@.len() == 0,
        decreases c_count - ci,
    {
        let clen = formula[ci].len();
        let mut k: usize = 0;
        while k < clen
            invariant
                k <= clen,
                clen == formula@[ci as int]@.len(),
                ci < c_count,
                g.nodes@.len() == total,
                g.wf(),
                g.edges_symmetric(),
                forall|j: int| 0 <= j < total ==> (#[trigger] g.nodes@[j]).pos == positions@[j],
                forall|j: int|
                    0 <= j < total ==> (#[trigger] g.nodes@[j]).vel == (Vec2 { x: 0, y: 0 }),
                forall|j: int|
                    0 <= j < ci ==> (#[trigger] g.nodes@[j]).neighbors@.len() == formula@[j]@.len(),
                forall|j: int, k2: int|
                    0 <= j < ci && 0 <= k2 < formula@[j]@.len() ==> (#[trigger] g.nodes@[j].neighbors@[k2]) as int
                        == lit_node_s(c_count as int, formula@[j]@[k2]),
                g.nodes@[ci as int].neighbors@.len() == k,
                forall|k2: int|
                    0 <= k2 < k ==> (#[trigger] g.nodes@[ci as int].neighbors@[k2]) as int
                        == lit_node_s(c_count as int, formula@[ci as int]@[k2]),
                forall|j: int|
                    ci < j < c_count ==> (#[trigger] g.nodes@[j]).neighbors@.len() == 0,
            decreases clen - k,
        {
            let l = formula[ci][k];
            let la: i64 = l as i64;
            let va: i64 = if la < 0 {
                -la
            } else {
                la
            };
            proof {
                lemma_max_var_ge(formula@, ci as int, k as int);
                assert(va as int == abs(l as int));
                assert(va >= 1);
            }
            let var_node: usize = c_count + (va as usize) - 1;
            match g.add_edge(ci, var_node) {
                Ok(()) => {
                },
                Err(_) => {
                    proof {
                        assert(false);
                    }
                },
            }
            k += 1;
        }
        ci += 1;
    }
    g
}

} // verus!
