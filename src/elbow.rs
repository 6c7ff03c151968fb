//! Choice of the number of clusters by the elbow (knee) of the inertia curve.
use vstd::prelude::*;

verus! {

/// The smallest cluster count that the elbow sweep evaluates.
pub const FIRST_K: usize = 2;

/// The largest cluster count worth evaluating: `min(max_k, num_points)`.
pub open spec fn sweep_top(num_points: usize, max_k: usize) -> int {
    if max_k < num_points {
        max_k as int
    } else {
        num_points as int
    }
}

/// Whether the elbow sweep runs: at least two points and a top of at least two.
pub open spec fn sweep_runs(num_points: usize, max_k: usize) -> bool {
    num_points >= 2 && sweep_top(num_points, max_k) >= 2
}

/// The perpendicular distance of point `i` of the curve `(FIRST_K + i, ys[i])`
/// from the line through its first and last points, scaled by that line's
/// length (a constant over the curve): the magnitude of the 2D cross product
/// `(p_last - p_first) x (p_first - p_i)`.
pub open spec fn knee_distance(ys: Seq<u64>, i: int) -> int {
    let last = ys.len() - 1;
    let c = last * (ys[0] - ys[i]) + i * (ys[last] - ys[0]);
    if c < 0 {
        -c
    } else {
        c
    }
}

/// Whether index `e` is the first point of the curve farthest from its chord.
pub open spec fn is_knee(ys: Seq<u64>, e: int) -> bool {
    &&& 0 <= e < ys.len()
    &&& forall|j: int| 0 <= j < ys.len() ==> knee_distance(ys, j) <= knee_distance(ys, e)
    &&& forall|j: int| 0 <= j < e ==> knee_distance(ys, j) < knee_distance(ys, e)
}

/// The top cluster count of the elbow sweep over `num_points` points, or
/// `None` when no sweep is needed (fewer than two points, or `max_k < 2`).
/// The caller fits k-means for every `k` in `FIRST_K..=top`.
pub fn elbow_sweep_top(num_points: usize, max_k: usize) -> (r: Option<usize>)
    ensures
        r is Some <==> sweep_runs(num_points, max_k),
        r matches Some(top) ==> top == sweep_top(num_points, max_k),
{
    let top = if max_k < num_points {
        max_k
    } else {
        num_points
    };
    if num_points >= 2 && top >= FIRST_K {
        Some(top)
    } else {
        None
    }
}

proof fn lemma_cross_bounds(last: int, i: int, a: int, b: int)
    requires
        0 <= i <= last <= 0xffff_ffff,
        -0x1_0000_0000_0000_0000 < a < 0x1_0000_0000_0000_0000,
        -0x1_0000_0000_0000_0000 < b < 0x1_0000_0000_0000_0000,
    ensures
        -0x1_0000_0000_0000_0000_0000_0000 <= last * a <= 0x1_0000_0000_0000_0000_0000_0000,
        -0x1_0000_0000_0000_0000_0000_0000 <= i * b <= 0x1_0000_0000_0000_0000_0000_0000,
{
    assert(-0x1_0000_0000_0000_0000_0000_0000 <= last * a <= 0x1_0000_0000_0000_0000_0000_0000)
        by (nonlinear_arith)
        requires
            0 <= last <= 0xffff_ffff,
            -0x1_0000_0000_0000_0000 < a < 0x1_0000_0000_0000_0000,
    ;
    assert(-0x1_0000_0000_0000_0000_0000_0000 <= i * b <= 0x1_0000_0000_0000_0000_0000_0000)
        by (nonlinear_arith)
        requires
            0 <= i <= 0xffff_ffff,
            -0x1_0000_0000_0000_0000 < b < 0x1_0000_0000_0000_0000,
    ;
}

/// The knee distance of point `i` of the inertia curve `ys`.
fn knee_distance_at(ys: &Vec<u64>, i: usize) -> (r: u128)
    requires
        0 <= i < ys@.len() <= 0x1_0000_0000,
    ensures
        r as int == knee_distance(ys@, i as int),
{
    let last = ys.len() - 1;
    let y0 = ys[0] as i128;
    let yi = ys[i] as i128;
    let yl = ys[last] as i128;
    proof {
        lemma_cross_bounds(last as int, i as int, y0 - yi, yl - y0);
    }
    let c: i128 = (last as i128) * (y0 - yi) + (i as i128) * (yl - y0);
    if c < 0 {
        (-c) as u128
    } else {
        c as u128
    }
}

/// The index of the knee of a non-empty inertia curve: the first point with
/// the greatest distance from the chord through its endpoints.
pub fn knee_index(inertias: &Vec<u64>) -> (r: usize)
    requires
        0 < inertias@.len() <= 0x1_0000_0000,
    ensures
        is_knee(inertias@, r as int),
{
    let n = inertias.len();
    let mut best: usize = 0;
    let mut best_dist = knee_distance_at(inertias, 0);
    let mut i: usize = 1;
    while i < n
        invariant
            n == inertias@.len(),
            0 < n <= 0x1_0000_0000,
            1 <= i <= n,
            best < i,
            best_dist as int == knee_distance(inertias@, best as int),
            forall|j: int| 0 <= j < i ==> knee_distance(inertias@, j) <= best_dist,
            forall|j: int| 0 <= j < best ==> knee_distance(inertias@, j) < best_dist,
        decreases n - i,
    {
        let d = knee_distance_at(inertias, i);
        if d > best_dist {
            best = i;
            best_dist = d;
        }
        i = i + 1;
    }
    best
}

/// The cluster count chosen for `num_points` points with upper bound
/// `max_k`: 1 when no sweep runs (fewer than two points, or `max_k < 2`);
/// otherwise the knee of the inertia curve.
pub open spec fn optimal_k(num_points: usize, max_k: usize, inertias: Seq<u64>, knee: int) -> bool {
    if !sweep_runs(num_points, max_k) {
        knee == 1
    } else {
        is_knee(inertias, knee - FIRST_K)
    }
}

/// Chooses the number of clusters by the elbow method. `inertias[i]` is the
/// k-means inertia for `k = FIRST_K + i`, for every `k` up to
/// `elbow_sweep_top(num_points, max_k)` (a failed fit counts as `u64::MAX`);
/// it is not read when no sweep runs.
pub fn find_optimal_k(num_points: usize, max_k: usize, inertias: &Vec<u64>) -> (r: usize)
    requires
        sweep_runs(num_points, max_k) ==> inertias@.len() == sweep_top(num_points, max_k) - 1,
        inertias@.len() <= 0x1_0000_0000,
    ensures
        optimal_k(num_points, max_k, inertias@, r as int),
        num_points < 2 ==> r == 1,
        num_points == 2 && max_k >= 2 ==> r == 2,
        1 <= r,
        num_points >= 1 && max_k >= 1 ==> r <= sweep_top(num_points, max_k),
        sweep_runs(num_points, max_k) ==> FIRST_K <= r <= sweep_top(num_points, max_k),
{
    match elbow_sweep_top(num_points, max_k) {
        None => 1,
        Some(_) => {
            let e = knee_index(inertias);
            FIRST_K + e
        },
    }
}

} // verus!
