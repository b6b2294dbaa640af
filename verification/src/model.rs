//! The mathematical model of the solver: the dynamic-programming
//! recurrence, the terminal selection, and the path reconstruction, all
//! as spec functions over sequences of plain integers.

use vstd::prelude::*;

verus! {

/// A waypoint: planar coordinates `x`, `y` and an elevation `z`, all in
/// fixed integer units chosen by the caller. A point has no identity
/// beyond its index in the generation-ordered sequence.
#[derive(Clone, Copy, Debug)]
pub struct Point {
    pub x: i64,
    pub y: i64,
    pub z: i64,
}

/// The margin of the elevation gate: on the final budget level a path may
/// not grow from point `i` into point `j` when `i` stands more than this
/// many units above `j`.
pub open spec fn gate_margin() -> int {
    1000
}

/// Whether the transition from point `i` to point `j` is admissible while
/// filling budget level `k` of a table whose final level is `cap`. Only
/// the final level applies the elevation gate; every other level admits
/// all transitions.
pub open spec fn gate_ok(points: Seq<Point>, cap: int, k: int, i: int, j: int) -> bool {
    k == cap ==> points[i].z <= points[j].z + gate_margin()
}

/// Whether no pair of points in generation order can ever be stopped by
/// the elevation gate.
pub open spec fn gate_free(points: Seq<Point>) -> bool {
    forall|i: int, j: int| #![trigger points[i], points[j]]
        0 <= i < j < points.len() ==> points[i].z <= points[j].z + gate_margin()
}

/// The table cell for budget level `k` and target point `j`: the length
/// of the best strictly-increasing-index path of at most `k` edges ending
/// at `j`, paired with the predecessor index that achieved it (0 when the
/// cell still holds its zero-length initialization).
pub open spec fn best_cell(points: Seq<Point>, d: Seq<Seq<u32>>, cap: int, k: int, j: int) -> (
    int,
    int,
)
    decreases k, j + 1,
{
    if k <= 0 || j <= 0 {
        (0, 0)
    } else {
        best_scan(points, d, cap, k, j, j)
    }
}

/// The value of the cell for level `k` and target `j` after the sources
/// `i` in `[0, m)` have been considered in increasing order. A candidate
/// replaces the current value only when strictly greater, so ties keep
/// the earliest source.
pub open spec fn best_scan(
    points: Seq<Point>,
    d: Seq<Seq<u32>>,
    cap: int,
    k: int,
    j: int,
    m: int,
) -> (int, int)
    decreases k, m,
{
    if k <= 0 || m <= 0 {
        (0, 0)
    } else {
        let prev = best_scan(points, d, cap, k, j, m - 1);
        let cand = best_cell(points, d, cap, k - 1, m - 1).0 + d[m - 1][j];
        if gate_ok(points, cap, k, m - 1, j) && cand > prev.0 {
            (cand, m - 1)
        } else {
            prev
        }
    }
}

/// The terminal selection over the targets `j` in `[0, m)` at the final
/// budget level: the greatest cell value paired with the index that holds
/// it, ties broken toward the smallest index.
pub open spec fn pick(points: Seq<Point>, d: Seq<Seq<u32>>, cap: int, m: int) -> (int, int)
    decreases m,
{
    if m <= 1 {
        (best_cell(points, d, cap, cap, 0).0, 0)
    } else {
        let prev = pick(points, d, cap, m - 1);
        let v = best_cell(points, d, cap, cap, m - 1).0;
        if v > prev.0 {
            (v, m - 1)
        } else {
            prev
        }
    }
}

/// The reconstructed path ending at point `j` on budget level `level`, in
/// traversal order. The walk follows predecessor links one level down at
/// a time and stops at a cell of value zero: such a cell is a zero-cost
/// restart with no real predecessor edge before it.
pub open spec fn back_path(points: Seq<Point>, d: Seq<Seq<u32>>, cap: int, level: int, j: int) -> Seq<
    int,
>
    decreases level,
{
    if level <= 0 || best_cell(points, d, cap, level, j).0 == 0 {
        seq![j]
    } else {
        back_path(points, d, cap, level - 1, best_cell(points, d, cap, level, j).1).push(j)
    }
}

/// The summed weight of the consecutive edges of the path `p`, read from
/// the distance table `d`.
pub open spec fn path_weight(d: Seq<Seq<u32>>, p: Seq<int>) -> int
    decreases p.len(),
{
    if p.len() <= 1 {
        0
    } else {
        path_weight(d, p.drop_last()) + d[p[p.len() - 2]][p[p.len() - 1]]
    }
}

/// The rows of an executable distance table as a sequence of sequences.
pub open spec fn mat(d: Seq<Vec<u32>>) -> Seq<Seq<u32>> {
    Seq::new(d.len(), |i: int| d[i]@)
}

/// A sequence of machine-sized indices as a sequence of mathematical
/// integers.
pub open spec fn to_int_seq(p: Seq<usize>) -> Seq<int> {
    Seq::new(p.len(), |i: int| p[i] as int)
}

/// The total length the solver reports for `n` points: the best value at
/// the final budget level `cap` over all terminals.
pub open spec fn spec_total(points: Seq<Point>, d: Seq<Seq<u32>>, cap: int, n: int) -> int {
    pick(points, d, cap, n).0
}

/// The path the solver reports for `n` points: the reconstruction from
/// the selected terminal at the final budget level `cap`.
pub open spec fn spec_path(points: Seq<Point>, d: Seq<Seq<u32>>, cap: int, n: int) -> Seq<int> {
    back_path(points, d, cap, cap, pick(points, d, cap, n).1)
}

/// Each edge weight fits in 32 bits, so a cell at level `k` never exceeds
/// `k` times the largest edge weight, and it characterizes exactly one
/// update history: the recorded predecessor is the earliest source that
/// reached the cell's value, every admissible candidate is bounded by the
/// cell's value, and a positive cell equals its predecessor's cell one
/// level down plus the connecting edge.
pub proof fn lemma_best_scan_props(
    points: Seq<Point>,
    d: Seq<Seq<u32>>,
    cap: int,
    k: int,
    j: int,
    m: int,
)
    requires
        1 <= k,
    ensures
        0 <= best_scan(points, d, cap, k, j, m).0 <= k * 0xFFFF_FFFF,
        best_scan(points, d, cap, k, j, m).0 == 0 ==> best_scan(points, d, cap, k, j, m).1 == 0,
        best_scan(points, d, cap, k, j, m).0 > 0 ==> {
            let s = best_scan(points, d, cap, k, j, m);
            &&& 0 <= s.1 < m
            &&& gate_ok(points, cap, k, s.1, j)
            &&& s.0 == best_cell(points, d, cap, k - 1, s.1).0 + d[s.1][j]
        },
        forall|i: int|
            0 <= i < m && gate_ok(points, cap, k, i, j) ==> #[trigger] best_cell(
                points,
                d,
                cap,
                k - 1,
                i,
            ).0 + d[i][j] <= best_scan(points, d, cap, k, j, m).0,
        best_scan(points, d, cap, k, j, m).0 > 0 ==> forall|i: int|
            0 <= i < best_scan(points, d, cap, k, j, m).1 && gate_ok(points, cap, k, i, j)
                ==> #[trigger] best_cell(points, d, cap, k - 1, i).0 + d[i][j] < best_scan(
                points,
                d,
                cap,
                k,
                j,
                m,
            ).0,
    decreases k, m,
{
    if m <= 0 {
    } else {
        lemma_best_scan_props(points, d, cap, k, j, m - 1);
        lemma_best_cell_props(points, d, cap, k - 1, m - 1);
    }
}

/// The cell-level form of the scan characterization: non-negativity, the
/// `k * max-edge` bound, the recurrence a positive cell satisfies through
/// its predecessor, the admissible-candidate upper bound, and the
/// earliest-source tie-break.
pub proof fn lemma_best_cell_props(points: Seq<Point>, d: Seq<Seq<u32>>, cap: int, k: int, j: int)
    requires
        0 <= k,
    ensures
        0 <= best_cell(points, d, cap, k, j).0 <= k * 0xFFFF_FFFF,
        best_cell(points, d, cap, k, j).0 == 0 ==> best_cell(points, d, cap, k, j).1 == 0,
        best_cell(points, d, cap, k, j).0 > 0 ==> {
            let c = best_cell(points, d, cap, k, j);
            &&& 1 <= k
            &&& 1 <= j
            &&& 0 <= c.1 < j
            &&& gate_ok(points, cap, k, c.1, j)
            &&& c.0 == best_cell(points, d, cap, k - 1, c.1).0 + d[c.1][j]
        },
        k >= 1 ==> forall|i: int|
            0 <= i < j && gate_ok(points, cap, k, i, j) ==> #[trigger] best_cell(
                points,
                d,
                cap,
                k - 1,
                i,
            ).0 + d[i][j] <= best_cell(points, d, cap, k, j).0,
        best_cell(points, d, cap, k, j).0 > 0 ==> forall|i: int|
            0 <= i < best_cell(points, d, cap, k, j).1 && gate_ok(points, cap, k, i, j)
                ==> #[trigger] best_cell(points, d, cap, k - 1, i).0 + d[i][j] < best_cell(
                points,
                d,
                cap,
                k,
                j,
            ).0,
    decreases k, j + 1,
{
    if k <= 0 || j <= 0 {
    } else {
        lemma_best_scan_props(points, d, cap, k, j, j);
    }
}

/// The selection returns the greatest cell value at the final budget
/// level among the first `m` targets, held at the smallest index that
/// reaches it.
pub proof fn lemma_pick_props(points: Seq<Point>, d: Seq<Seq<u32>>, cap: int, m: int)
    requires
        1 <= m,
    ensures
        0 <= pick(points, d, cap, m).1 < m,
        pick(points, d, cap, m).0 == best_cell(points, d, cap, cap, pick(points, d, cap, m).1).0,
        forall|j: int|
            0 <= j < m ==> #[trigger] best_cell(points, d, cap, cap, j).0 <= pick(
                points,
                d,
                cap,
                m,
            ).0,
        forall|j: int|
            0 <= j < pick(points, d, cap, m).1 ==> #[trigger] best_cell(points, d, cap, cap, j).0
                < pick(points, d, cap, m).0,
    decreases m,
{
    if m <= 1 {
    } else {
        lemma_pick_props(points, d, cap, m - 1);
    }
}

/// A reconstructed path visits at most `level + 1` points in strictly
/// increasing index order, ends at its terminal, stays within `[0, j]`,
/// and its summed edge weight equals the cell it was read from.
pub proof fn lemma_back_path_props(points: Seq<Point>, d: Seq<Seq<u32>>, cap: int, level: int, j: int)
    requires
        0 <= level,
        0 <= j,
    ensures
        1 <= back_path(points, d, cap, level, j).len() <= level + 1,
        back_path(points, d, cap, level, j).last() == j,
        forall|a: int|
            0 <= a < back_path(points, d, cap, level, j).len() ==> 0 <= #[trigger] back_path(
                points,
                d,
                cap,
                level,
                j,
            )[a] <= j,
        forall|a: int|
            0 <= a < back_path(points, d, cap, level, j).len() - 1 ==> #[trigger] back_path(
                points,
                d,
                cap,
                level,
                j,
            )[a] < back_path(points, d, cap, level, j)[a + 1],
        path_weight(d, back_path(points, d, cap, level, j)) == best_cell(points, d, cap, level, j).0,
    decreases level,
{
    lemma_best_cell_props(points, d, cap, level, j);
    let c = best_cell(points, d, cap, level, j);
    if level <= 0 || c.0 == 0 {
    } else {
        let p = c.1;
        lemma_back_path_props(points, d, cap, level - 1, p);
        let t0 = back_path(points, d, cap, level - 1, p);
        let t = back_path(points, d, cap, level, j);
        assert(t == t0.push(j));
        assert(t.drop_last() =~= t0);
        assert(t[t.len() - 2] == t0.last());
        assert(path_weight(d, t) == path_weight(d, t0) + d[p][j]);
    }
}

} // verus!
