//! The executable bounded-hop longest-path solver: the layered
//! dynamic-programming fill, the terminal selection, and the path
//! reconstruction, verified against the model in [`crate::model`].

use vstd::prelude::*;

use crate::model::{
    back_path, best_cell, best_scan, gate_ok, lemma_back_path_props, lemma_best_cell_props,
    lemma_pick_props, mat, path_weight, pick, spec_path, spec_total, to_int_seq, Point,
};

verus! {

/// One cell of the dynamic-programming table: the length of the best
/// path of at most `k` edges ending at this point, and the predecessor
/// index that achieved it.
#[derive(Clone, Copy)]
pub struct Cell {
    pub best: u64,
    pub pred: usize,
}

/// The mathematical value of a table cell.
pub open spec fn cell_val(c: Cell) -> (int, int) {
    (c.best as int, c.pred as int)
}

/// A table row of `n` zero-initialized cells: a fresh zero-length path
/// start at every point.
fn zero_row(n: usize) -> (r: Vec<Cell>)
    ensures
        r@.len() == n,
        forall|b: int| 0 <= b < n ==> cell_val(#[trigger] r@[b]) == (0int, 0int),
{
    let mut r: Vec<Cell> = Vec::new();
    let mut b: usize = 0;
    while b < n
        invariant
            b <= n,
            r@.len() == b,
            forall|c: int| 0 <= c < b ==> cell_val(#[trigger] r@[c]) == (0int, 0int),
        decreases n - b,
    {
        r.push(Cell { best: 0, pred: 0 });
        b += 1;
    }
    r
}

/// The bounded-hop longest-path solver. Given `n` points in generation
/// order and the table of their pairwise planar distances (meaningful
/// for index pairs `i < j`), it returns the total length of the best
/// strictly-increasing-index path of at most `k` edges, together with
/// the ordered indices of the points on that path.
///
/// The name is a shrug at the deliberately restrictive traversal
/// order: the result is a heuristic, not an exact longest path, which
/// would be intractable.
///
/// The contract pins the result exactly: the total equals the greatest
/// final-level cell of the recurrence (ties among terminals broken
/// toward the smallest index, ties among predecessors toward the
/// earliest source), and the path is the predecessor walk from that
/// terminal. The path visits at most `k + 1` points in strictly
/// increasing index order and its summed edge weight equals the total.
#[verifier::loop_isolation(false)]
pub fn fast_and_maybe_wrong(
    n: usize,
    k: usize,
    points: &Vec<Point>,
    distances: &Vec<Vec<u32>>,
) -> (r: (u64, Vec<usize>))
    requires
        1 <= n,
        1 <= k,
        (k as int) < 0xFFFF_FFFF,
        points@.len() == n,
        distances@.len() == n,
        forall|i: int| 0 <= i < n ==> (#[trigger] distances@[i])@.len() == n,
    ensures
        r.0 as int == spec_total(points@, mat(distances@), k as int, n as int),
        to_int_seq(r.1@) == spec_path(points@, mat(distances@), k as int, n as int),
        1 <= r.1@.len() <= k + 1,
        forall|t: int| 0 <= t < r.1@.len() ==> (#[trigger] r.1@[t]) < n,
        forall|t: int| 0 <= t < r.1@.len() - 1 ==> (#[trigger] r.1@[t]) < r.1@[t + 1],
        r.0 as int == path_weight(mat(distances@), to_int_seq(r.1@)),
        forall|j: int|
            0 <= j < n ==> best_cell(points@, mat(distances@), k as int, k as int, j).0 <= r.0,
{
    let ghost pts = points@;
    let ghost dm = mat(distances@);
    let ghost cap = k as int;

    // Fill phase: one finished budget level per outer iteration. Level 0
    // is all zero cells: the zero-cost restart at every point.
    let mut dp: Vec<Vec<Cell>> = Vec::new();
    dp.push(zero_row(n));

    let mut kc: usize = 1;
    while kc <= k
        invariant
            1 <= kc <= k + 1,
            dp@.len() == kc,
            forall|a: int| 0 <= a < kc ==> (#[trigger] dp@[a])@.len() == n,
            forall|a: int, b: int|
                0 <= a < kc && 0 <= b < n ==> cell_val(#[trigger] dp@[a]@[b]) == best_cell(
                    pts,
                    dm,
                    cap,
                    a,
                    b,
                ),
        decreases k + 1 - kc,
    {
        let mut row: Vec<Cell> = Vec::new();
        let mut j: usize = 0;
        while j < n
            invariant
                j <= n,
                row@.len() == j,
                forall|b: int|
                    0 <= b < j ==> cell_val(#[trigger] row@[b]) == best_cell(
                        pts,
                        dm,
                        cap,
                        kc as int,
                        b,
                    ),
            decreases n - j,
        {
            let mut cur = Cell { best: 0, pred: 0 };
            let mut i: usize = 0;
            while i < j
                invariant
                    i <= j,
                    cell_val(cur) == best_scan(pts, dm, cap, kc as int, j as int, i as int),
                decreases j - i,
            {
                // Elevation gate: only the final budget level refuses to
                // grow a path from a source standing too far above its
                // target.
                let blocked = kc == k && points[i].z as i128 > points[j].z as i128 + 1000;
                proof {
                    assert(!blocked <==> gate_ok(pts, cap, kc as int, i as int, j as int));
                    lemma_best_cell_props(pts, dm, cap, kc as int - 1, i as int);
                    assert((kc as int - 1) * 0xFFFF_FFFF + 0xFFFF_FFFF == (kc as int)
                        * 0xFFFF_FFFF);
                    assert((kc as int) * 0xFFFF_FFFF <= 0xFFFF_FFFE * 0xFFFF_FFFF);
                }
                if !blocked {
                    let cand = dp[kc - 1][i].best + distances[i][j] as u64;
                    if cur.best < cand {
                        cur = Cell { best: cand, pred: i };
                    }
                }
                i += 1;
                proof {
                    assert(cell_val(cur) == best_scan(pts, dm, cap, kc as int, j as int, i as int));
                }
            }
            proof {
                assert(cell_val(cur) == best_cell(pts, dm, cap, kc as int, j as int));
            }
            row.push(cur);
            j += 1;
        }
        dp.push(row);
        kc += 1;
    }

    // Selection phase: the greatest final-level value, ties broken
    // toward the smallest terminal index.
    let mut best: u64 = dp[k][0].best;
    let mut term: usize = 0;
    proof {
        assert((best as int, term as int) == pick(pts, dm, cap, 1));
    }
    let mut j: usize = 1;
    while j < n
        invariant
            1 <= j <= n,
            term < j,
            (best as int, term as int) == pick(pts, dm, cap, j as int),
        decreases n - j,
    {
        if dp[k][j].best > best {
            best = dp[k][j].best;
            term = j;
        }
        j += 1;
    }

    proof {
        lemma_pick_props(pts, dm, cap, n as int);
        lemma_back_path_props(pts, dm, cap, cap, term as int);
    }
    let ghost full = spec_path(pts, dm, cap, n as int);
    proof {
        assert(full == back_path(pts, dm, cap, cap, term as int));
        assert(full.take(full.len() as int) =~= full);
    }

    // Reconstruction phase: walk the predecessor links one budget level
    // down at a time, stopping at a zero cell: a zero-cost restart with
    // no real predecessor edge before it.
    let mut rev: Vec<usize> = Vec::new();
    rev.push(term);
    let mut cur: usize = term;
    let mut level: usize = k;
    while level >= 1 && dp[level][cur].best != 0
        invariant
            level <= k,
            cur < n,
            1 <= rev@.len() <= full.len(),
            rev@.len() == k - level + 1,
            rev@[rev@.len() - 1] == cur,
            forall|a: int|
                0 <= a < rev@.len() ==> (#[trigger] rev@[a]) as int == full[full.len() - 1 - a]
                    && rev@[a] < n,
            full.len() == back_path(pts, dm, cap, level as int, cur as int).len() + rev@.len() - 1,
            back_path(pts, dm, cap, level as int, cur as int) == full.take(
                full.len() - rev@.len() + 1,
            ),
        decreases level,
    {
        proof {
            lemma_best_cell_props(pts, dm, cap, level as int, cur as int);
            lemma_back_path_props(
                pts,
                dm,
                cap,
                level as int - 1,
                best_cell(pts, dm, cap, level as int, cur as int).1,
            );
        }
        let ghost old_bp = back_path(pts, dm, cap, level as int, cur as int);
        let ghost new_bp = back_path(
            pts,
            dm,
            cap,
            level as int - 1,
            best_cell(pts, dm, cap, level as int, cur as int).1,
        );
        let ghost c0 = cur as int;
        let p = dp[level][cur].pred;
        rev.push(p);
        cur = p;
        level -= 1;
        proof {
            assert(old_bp == new_bp.push(c0));
            assert(new_bp == back_path(pts, dm, cap, level as int, cur as int));
            assert(new_bp =~= full.take(full.len() - rev@.len() + 1));
            assert(rev@[rev@.len() - 1] as int == full[full.len() - rev@.len()]);
        }
    }
    proof {
        assert(back_path(pts, dm, cap, level as int, cur as int) == seq![cur as int]);
        assert(full.len() == rev@.len());
    }

    // The walk accumulated the path backward; emit it in traversal
    // order.
    let m = rev.len();
    let mut fwd: Vec<usize> = Vec::new();
    let mut a: usize = 0;
    while a < m
        invariant
            a <= m,
            fwd@.len() == a,
            forall|b: int| 0 <= b < a ==> (#[trigger] fwd@[b]) == rev@[m - 1 - b],
        decreases m - a,
    {
        fwd.push(rev[m - 1 - a]);
        a += 1;
    }
    proof {
        assert forall|b: int| 0 <= b < m implies to_int_seq(fwd@)[b] == full[b] by {
            assert(fwd@[b] == rev@[m - 1 - b]);
            assert(rev@[m - 1 - b] as int == full[full.len() - 1 - (m - 1 - b)]);
        }
        assert(to_int_seq(fwd@) =~= full);
    }

    (best, fwd)
}

} // verus!
