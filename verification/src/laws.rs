//! Properties of the recurrence, stated and proved against the model:
//! non-negativity, monotonicity in the hop budget, enforcement of the
//! elevation gate on the final budget level, and the single-hop
//! boundary case.

use vstd::prelude::*;

use crate::model::{
    best_cell, gate_free, gate_margin, gate_ok, lemma_best_cell_props, lemma_pick_props, pick,
    spec_total, Point,
};

verus! {

/// Non-negativity: every cell of the table holds a length of at least
/// zero, at every budget level and for every target.
pub proof fn lemma_best_length_nonneg(
    points: Seq<Point>,
    d: Seq<Seq<u32>>,
    cap: int,
    k: int,
    j: int,
)
    requires
        0 <= k,
    ensures
        best_cell(points, d, cap, k, j).0 >= 0,
{
    lemma_best_cell_props(points, d, cap, k, j);
}

/// One step of monotonicity: level `k` dominates level `k - 1` whenever
/// level `k` does not newly apply the elevation gate.
proof fn lemma_mono_step(points: Seq<Point>, d: Seq<Seq<u32>>, cap: int, k: int)
    requires
        1 <= k <= cap,
        k == cap ==> gate_free(points),
    ensures
        forall|j: int|
            0 <= j < points.len() ==> #[trigger] best_cell(points, d, cap, k - 1, j).0 <= best_cell(
                points,
                d,
                cap,
                k,
                j,
            ).0,
    decreases k,
{
    if k > 1 {
        lemma_mono_step(points, d, cap, k - 1);
    }
    assert forall|j: int|
        0 <= j < points.len() implies #[trigger] best_cell(points, d, cap, k - 1, j).0 <= best_cell(
        points,
        d,
        cap,
        k,
        j,
    ).0 by {
        lemma_best_cell_props(points, d, cap, k - 1, j);
        lemma_best_cell_props(points, d, cap, k, j);
        let c = best_cell(points, d, cap, k - 1, j);
        if c.0 > 0 {
            let p = c.1;
            if k == cap {
                assert(points[p].z <= points[j].z + gate_margin());
            }
            assert(gate_ok(points, cap, k, p, j));
            assert(best_cell(points, d, cap, k - 2, p).0 <= best_cell(points, d, cap, k - 1, p).0);
            assert(best_cell(points, d, cap, k - 1, p).0 + d[p][j] <= best_cell(
                points,
                d,
                cap,
                k,
                j,
            ).0);
        }
    }
}

/// Monotonicity: a larger hop budget never makes the best achievable
/// length worse, as long as the larger budget does not newly apply the
/// elevation gate: the claim holds whenever the larger budget lies
/// below the final level, and up to the final level itself on a
/// gate-free point set. (On the final level of a gated point set it can
/// fail: that level refuses transitions that lower levels were free to
/// use.)
pub proof fn lemma_best_length_monotone(
    points: Seq<Point>,
    d: Seq<Seq<u32>>,
    cap: int,
    k1: int,
    k2: int,
    j: int,
)
    requires
        0 <= k1 <= k2 <= cap,
        0 <= j < points.len(),
        k2 == cap && k1 < k2 ==> gate_free(points),
    ensures
        best_cell(points, d, cap, k1, j).0 <= best_cell(points, d, cap, k2, j).0,
    decreases k2 - k1,
{
    if k1 < k2 {
        lemma_best_length_monotone(points, d, cap, k1, k2 - 1, j);
        lemma_mono_step(points, d, cap, k2);
    }
}

/// Elevation gate enforcement: a transition actually used while filling
/// the final budget level never steps down more than the margin:
/// the predecessor recorded in a positive final-level cell stands at
/// most `gate_margin()` above its target.
pub proof fn lemma_final_level_gate(points: Seq<Point>, d: Seq<Seq<u32>>, cap: int, j: int)
    requires
        1 <= cap,
    ensures
        best_cell(points, d, cap, cap, j).0 > 0 ==> {
            let p = best_cell(points, d, cap, cap, j).1;
            &&& 0 <= p < j
            &&& points[p].z <= points[j].z + gate_margin()
        },
{
    lemma_best_cell_props(points, d, cap, cap, j);
}

/// Elevation gate enforcement, the pathological direction: when every
/// source below a target violates the elevation bound, that target's
/// cell stays at zero.
pub proof fn lemma_gate_blocked_zero(points: Seq<Point>, d: Seq<Seq<u32>>, cap: int, j: int)
    requires
        1 <= cap,
        forall|i: int| 0 <= i < j ==> (#[trigger] points[i]).z > points[j].z + gate_margin(),
    ensures
        best_cell(points, d, cap, cap, j).0 == 0,
{
    lemma_best_cell_props(points, d, cap, cap, j);
    let c = best_cell(points, d, cap, cap, j);
    if c.0 > 0 {
        assert(gate_ok(points, cap, cap, c.1, j));
        assert((points[c.1]).z > points[j].z + gate_margin());
        assert(false);
    }
}

/// The single-hop boundary, per cell: with a budget of one, a cell is
/// an upper bound on every admissible single edge into its target, and
/// a positive cell equals one of them.
pub proof fn lemma_single_hop_cell(points: Seq<Point>, d: Seq<Seq<u32>>, j: int)
    ensures
        forall|i: int|
            0 <= i < j && points[i].z <= points[j].z + gate_margin() ==> #[trigger] d[i][j] as int
                <= best_cell(points, d, 1, 1, j).0,
        best_cell(points, d, 1, 1, j).0 > 0 ==> exists|i: int|
            0 <= i < j && points[i].z <= points[j].z + gate_margin() && best_cell(
                points,
                d,
                1,
                1,
                j,
            ).0 == #[trigger] d[i][j] as int,
{
    lemma_best_cell_props(points, d, 1, 1, j);
    let c = best_cell(points, d, 1, 1, j);
    assert forall|i: int|
        0 <= i < j && points[i].z <= points[j].z + gate_margin() implies d[i][j] as int <= c.0 by {
        assert(gate_ok(points, 1, 1, i, j));
        assert(best_cell(points, d, 1, 0, i).0 == 0);
        assert(best_cell(points, d, 1, 0, i).0 + d[i][j] <= c.0);
    }
    if c.0 > 0 {
        let p = c.1;
        assert(best_cell(points, d, 1, 0, p).0 == 0);
        assert(0 <= p < j && points[p].z <= points[j].z + gate_margin() && c.0 == d[p][j] as int);
    }
}

/// The single-hop boundary, for the reported total: with a budget of
/// one the solver reports the greatest admissible single-edge distance,
/// and zero exactly when no admissible pair has a positive distance.
pub proof fn lemma_single_hop_total(points: Seq<Point>, d: Seq<Seq<u32>>, n: int)
    requires
        1 <= n,
    ensures
        forall|i: int, j: int| #![trigger d[i][j]]
            0 <= i < j < n && points[i].z <= points[j].z + gate_margin() ==> d[i][j] as int
                <= spec_total(points, d, 1, n),
        spec_total(points, d, 1, n) > 0 ==> exists|i: int, j: int| #![trigger d[i][j]]
            0 <= i < j < n && points[i].z <= points[j].z + gate_margin() && spec_total(
                points,
                d,
                1,
                n,
            ) == d[i][j] as int,
{
    lemma_pick_props(points, d, 1, n);
    assert forall|i: int, j: int|
        0 <= i < j < n && points[i].z <= points[j].z + gate_margin() implies d[i][j] as int
        <= spec_total(points, d, 1, n) by {
        lemma_single_hop_cell(points, d, j);
        assert(best_cell(points, d, 1, 1, j).0 <= pick(points, d, 1, n).0);
    }
    if spec_total(points, d, 1, n) > 0 {
        let t = pick(points, d, 1, n).1;
        lemma_single_hop_cell(points, d, t);
        let i = choose|i: int|
            0 <= i < t && points[i].z <= points[t].z + gate_margin() && best_cell(
                points,
                d,
                1,
                1,
                t,
            ).0 == d[i][t] as int;
        assert(0 <= i < t < n && points[i].z <= points[t].z + gate_margin() && spec_total(
            points,
            d,
            1,
            n,
        ) == d[i][t] as int);
    }
}

} // verus!
