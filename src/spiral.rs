//! Logarithmic-spiral parameters in fixed point, the distance score of a
//! sampled spiral against cluster centers, and the fitness of a candidate.
use vstd::prelude::*;

verus! {

/// Fixed-point subdivisions of one pixel: coordinates are in milli-pixels.
pub const SUBPIXELS: i64 = 1000;

/// Fixed-point subdivisions of the growth rate `b`: it is in millionths.
pub const GROWTH_UNITS: i64 = 1_000_000;

/// The growth rate of the golden spiral (0.30635), in millionths.
pub const GOLDEN_B: i64 = 306_350;

/// Candidates with a scale `a` below 15 pixels are rejected outright.
pub const MIN_A: i64 = 15_000;

/// A spiral fit needs at least this many sampled points inside the image.
pub const MIN_SAMPLES_IN_FRAME: u64 = 10;

/// The cost of a rejected candidate: it stands for an infinite fitness.
pub const INFINITE_COST: u64 = 0xffff_ffff_ffff_ffff;

/// Divisor that turns `weight * (b - GOLDEN_B)^2`, with `b` in millionths,
/// into milli-pixels.
pub const PENALTY_DIVISOR: u128 = 1_000_000_000;

/// A point in milli-pixel image coordinates.
#[derive(Clone, Copy, Debug, PartialEq, Eq, Structural)]
pub struct FixedPoint {
    pub x: i64,
    pub y: i64,
}

/// The polar curve `r(t) = a * e^(b t)` centred at `(cx, cy)`: `cx`, `cy` and
/// `a` in milli-pixels, `b` in millionths.
#[derive(Clone, Copy, Debug, PartialEq, Eq, Structural)]
pub struct SpiralParams {
    pub cx: i64,
    pub cy: i64,
    pub a: i64,
    pub b: i64,
}

/// Squared Euclidean distance between two points.
pub open spec fn sq_dist(p: FixedPoint, q: FixedPoint) -> int {
    (p.x - q.x) * (p.x - q.x) + (p.y - q.y) * (p.y - q.y)
}

/// Whether a point lies in the image `[0, width) x [0, height)`.
pub open spec fn in_frame(p: FixedPoint, width: u32, height: u32) -> bool {
    0 <= p.x < width as int * SUBPIXELS && 0 <= p.y < height as int * SUBPIXELS
}

/// How many of the first `i` samples lie in the image.
pub open spec fn frame_count(samples: Seq<FixedPoint>, width: u32, height: u32, i: nat) -> nat
    decreases i,
{
    if i == 0 {
        0
    } else if in_frame(samples[i - 1], width, height) {
        frame_count(samples, width, height, (i - 1) as nat) + 1
    } else {
        frame_count(samples, width, height, (i - 1) as nat)
    }
}

/// Stands for "no sample yet" when looking for the nearest sample.
pub open spec fn far() -> int {
    0xffff_ffff_ffff_ffff_ffff_ffff_ffff_ffff
}

/// The least squared distance from `c` to an in-image sample among the first
/// `i`, or `far()` when there is none.
pub open spec fn nearest_sq(
    c: FixedPoint,
    samples: Seq<FixedPoint>,
    width: u32,
    height: u32,
    i: nat,
) -> int
    decreases i,
{
    if i == 0 {
        far()
    } else {
        let prev = nearest_sq(c, samples, width, height, (i - 1) as nat);
        if in_frame(samples[i - 1], width, height) && sq_dist(samples[i - 1], c) < prev {
            sq_dist(samples[i - 1], c)
        } else {
            prev
        }
    }
}

/// Whether `r` is the integer square root of `n`, rounded down.
pub open spec fn is_floor_sqrt(r: int, n: int) -> bool {
    0 <= r && r * r <= n < (r + 1) * (r + 1)
}

/// The integer square root of `n`, rounded down.
pub open spec fn floor_sqrt(n: int) -> int
    recommends
        n >= 0,
{
    choose|r: int| is_floor_sqrt(r, n)
}

/// Sum over the first `k` centers of the (rounded-down) distance to their
/// nearest in-image sample.
pub open spec fn total_distance(
    centers: Seq<FixedPoint>,
    samples: Seq<FixedPoint>,
    width: u32,
    height: u32,
    k: nat,
) -> int
    decreases k,
{
    if k == 0 {
        0
    } else {
        total_distance(centers, samples, width, height, (k - 1) as nat) + floor_sqrt(
            nearest_sq(centers[k - 1], samples, width, height, samples.len()),
        )
    }
}

/// The distance score: the mean distance from each center to its nearest
/// in-image sample, rounded up, or `INFINITE_COST` when fewer than ten
/// samples lie in the image.
pub open spec fn distance_score(
    samples: Seq<FixedPoint>,
    centers: Seq<FixedPoint>,
    width: u32,
    height: u32,
) -> int
    recommends
        centers.len() > 0,
{
    if frame_count(samples, width, height, samples.len()) < MIN_SAMPLES_IN_FRAME {
        INFINITE_COST as int
    } else {
        (total_distance(centers, samples, width, height, centers.len()) + centers.len() - 1) / (
        centers.len() as int)
    }
}

/// Whether `c` coincides with one of the samples that lie in the image.
pub open spec fn lies_on_samples(c: FixedPoint, samples: Seq<FixedPoint>, width: u32, height: u32) -> bool {
    exists|j: int| 0 <= j < samples.len() && in_frame(samples[j], width, height) && samples[j] == c
}

/// The golden-ratio penalty `weight * (b - GOLDEN_B)^2`, in milli-pixels.
pub open spec fn golden_penalty(b: i64, weight: u64) -> int {
    (weight as int) * ((b - GOLDEN_B) * (b - GOLDEN_B)) / (PENALTY_DIVISOR as int)
}

/// The fitness of a candidate (lower is better): infinite when its scale is
/// below `MIN_A`, else its distance score plus the golden penalty, saturated
/// at `INFINITE_COST`.
pub open spec fn fitness(params: SpiralParams, distance: u64, weight: u64) -> int {
    let total = distance as int + golden_penalty(params.b, weight);
    if params.a < MIN_A || total >= INFINITE_COST as int {
        INFINITE_COST as int
    } else {
        total
    }
}

proof fn lemma_floor_sqrt_unique(r: int, n: int)
    requires
        is_floor_sqrt(r, n),
    ensures
        floor_sqrt(n) == r,
{
    let s = floor_sqrt(n);
    assert(is_floor_sqrt(s, n));
    if s < r {
        assert((s + 1) * (s + 1) <= r * r) by (nonlinear_arith)
            requires
                0 <= s < r,
        ;
    } else if r < s {
        assert((r + 1) * (r + 1) <= s * s) by (nonlinear_arith)
            requires
                0 <= r < s,
        ;
    }
}

/// The integer square root of `n`, rounded down.
pub fn isqrt(n: u128) -> (r: u64)
    ensures
        is_floor_sqrt(r as int, n as int),
        r as int == floor_sqrt(n as int),
{
    let mut lo: u128 = 0;
    let mut hi: u128 = 0x1_0000_0000_0000_0000;
    assert(n < hi * hi) by (nonlinear_arith)
        requires
            hi == 0x1_0000_0000_0000_0000u128,
            n <= 0xffff_ffff_ffff_ffff_ffff_ffff_ffff_ffffu128,
    ;
    while hi - lo > 1
        invariant
            lo < hi <= 0x1_0000_0000_0000_0000,
            lo * lo <= n,
            n < hi * hi,
        decreases hi - lo,
    {
        let mid: u128 = lo + (hi - lo) / 2;
        assert(mid * mid <= 0xffff_ffff_ffff_ffff_ffff_ffff_ffff_ffff) by (nonlinear_arith)
            requires
                mid < 0x1_0000_0000_0000_0000,
        ;
        if mid * mid <= n {
            lo = mid;
        } else {
            hi = mid;
        }
    }
    proof {
        assert(hi == lo + 1);
        lemma_floor_sqrt_unique(lo as int, n as int);
    }
    lo as u64
}

proof fn lemma_sq_bound(d: int)
    requires
        -0x8000_0400_0000_0000 <= d <= 0x8000_0400_0000_0000,
    ensures
        0 <= d * d <= 0x4000_0400_0010_0000_0000_0000_0000_0000,
{
    assert(0 <= d * d <= 0x8000_0400_0000_0000 * 0x8000_0400_0000_0000) by (nonlinear_arith)
        requires
            -0x8000_0400_0000_0000 <= d <= 0x8000_0400_0000_0000,
    ;
}

/// Squared distance between an in-image sample and any point.
fn squared_distance(s: FixedPoint, c: FixedPoint, width: u32, height: u32) -> (r: u128)
    requires
        in_frame(s, width, height),
    ensures
        r as int == sq_dist(s, c),
{
    assert(width as int * SUBPIXELS <= 0x400_0000_0000) by (nonlinear_arith)
        requires
            width <= 0xffff_ffff,
    ;
    assert(height as int * SUBPIXELS <= 0x400_0000_0000) by (nonlinear_arith)
        requires
            height <= 0xffff_ffff,
    ;
    let dx: i128 = s.x as i128 - c.x as i128;
    let dy: i128 = s.y as i128 - c.y as i128;
    proof {
        lemma_sq_bound(dx as int);
        lemma_sq_bound(dy as int);
    }
    let dx2: i128 = dx * dx;
    let dy2: i128 = dy * dy;
    (dx2 as u128) + (dy2 as u128)
}

proof fn lemma_sq_dist_below_far(s: FixedPoint, c: FixedPoint, width: u32, height: u32)
    requires
        in_frame(s, width, height),
    ensures
        0 <= sq_dist(s, c) < far(),
{
    assert(width as int * SUBPIXELS <= 0x400_0000_0000) by (nonlinear_arith)
        requires
            width <= 0xffff_ffff,
    ;
    assert(height as int * SUBPIXELS <= 0x400_0000_0000) by (nonlinear_arith)
        requires
            height <= 0xffff_ffff,
    ;
    lemma_sq_bound(s.x - c.x);
    lemma_sq_bound(s.y - c.y);
}

proof fn lemma_nearest_bound(
    c: FixedPoint,
    samples: Seq<FixedPoint>,
    width: u32,
    height: u32,
    i: nat,
)
    requires
        i <= samples.len(),
    ensures
        0 <= nearest_sq(c, samples, width, height, i) <= far(),
    decreases i,
{
    if i > 0 {
        lemma_nearest_bound(c, samples, width, height, (i - 1) as nat);
        if in_frame(samples[i - 1], width, height) {
            lemma_sq_dist_below_far(samples[i - 1], c, width, height);
        }
    }
}

/// The least squared distance from `c` to an in-image sample.
fn nearest_sample_sq(c: FixedPoint, samples: &Vec<FixedPoint>, width: u32, height: u32) -> (r:
    u128)
    ensures
        r as int == nearest_sq(c, samples@, width, height, samples@.len()),
{
    let mut best: u128 = 0xffff_ffff_ffff_ffff_ffff_ffff_ffff_ffff;
    let mut i: usize = 0;
    let wlim: i64 = (width as i64) * SUBPIXELS;
    let hlim: i64 = (height as i64) * SUBPIXELS;
    while i < samples.len()
        invariant
            i <= samples@.len(),
            wlim == width as int * SUBPIXELS,
            hlim == height as int * SUBPIXELS,
            best as int == nearest_sq(c, samples@, width, height, i as nat),
        decreases samples@.len() - i,
    {
        let s = samples[i];
        if 0 <= s.x && s.x < wlim && 0 <= s.y && s.y < hlim {
            let d = squared_distance(s, c, width, height);
            if d < best {
                best = d;
            }
        }
        i = i + 1;
    }
    best
}

/// How many samples lie in the image.
fn count_in_frame(samples: &Vec<FixedPoint>, width: u32, height: u32) -> (r: u64)
    ensures
        r as int == frame_count(samples@, width, height, samples@.len()),
{
    let mut count: u64 = 0;
    let mut i: usize = 0;
    let wlim: i64 = (width as i64) * SUBPIXELS;
    let hlim: i64 = (height as i64) * SUBPIXELS;
    while i < samples.len()
        invariant
            i <= samples@.len(),
            wlim == width as int * SUBPIXELS,
            hlim == height as int * SUBPIXELS,
            count as int == frame_count(samples@, width, height, i as nat),
            count <= i,
        decreases samples@.len() - i,
    {
        let s = samples[i];
        if 0 <= s.x && s.x < wlim && 0 <= s.y && s.y < hlim {
            count = count + 1;
        }
        i = i + 1;
    }
    count
}

proof fn lemma_mean_fits(total: int, k: int)
    requires
        1 <= k <= 0xffff_ffff_ffff_ffff,
        0 <= total <= k * 0xffff_ffff_ffff_ffff,
    ensures
        total + k - 1 <= 0xffff_ffff_ffff_ffff_ffff_ffff_ffff_ffff,
        0 <= (total + k - 1) / k <= 0xffff_ffff_ffff_ffff,
        (total + k - 1) / k == 0 <==> total == 0,
{
    assert(total + k - 1 <= 0xffff_ffff_ffff_ffff_ffff_ffff_ffff_ffff) by (nonlinear_arith)
        requires
            1 <= k <= 0xffff_ffff_ffff_ffff,
            0 <= total <= k * 0xffff_ffff_ffff_ffff,
    ;
    assert(0 <= (total + k - 1) / k <= 0xffff_ffff_ffff_ffff) by (nonlinear_arith)
        requires
            k >= 1,
            0 <= total <= k * 0xffff_ffff_ffff_ffff,
    ;
    if total == 0 {
        assert((k - 1) / k == 0) by (nonlinear_arith)
            requires
                k >= 1,
        ;
    } else {
        assert((total + k - 1) / k >= 1) by (nonlinear_arith)
            requires
                k >= 1,
                total >= 1,
        ;
    }
}

proof fn lemma_sq_dist_zero(p: FixedPoint, q: FixedPoint)
    ensures
        sq_dist(p, q) >= 0,
        sq_dist(p, q) == 0 <==> p == q,
{
    let dx = p.x - q.x;
    let dy = p.y - q.y;
    assert(dx * dx >= 0 && dy * dy >= 0) by (nonlinear_arith);
    if sq_dist(p, q) == 0 {
        assert(dx * dx == 0 && dy * dy == 0);
        assert(dx == 0) by (nonlinear_arith)
            requires
                dx * dx == 0,
        ;
        assert(dy == 0) by (nonlinear_arith)
            requires
                dy * dy == 0,
        ;
        assert(p.x == q.x && p.y == q.y);
    }
    if p == q {
        assert(dx == 0 && dy == 0);
        assert(dx * dx == 0 && dy * dy == 0) by (nonlinear_arith)
            requires
                dx == 0,
                dy == 0,
        ;
    }
}

proof fn lemma_nearest_zero(
    c: FixedPoint,
    samples: Seq<FixedPoint>,
    width: u32,
    height: u32,
    i: nat,
)
    requires
        i <= samples.len(),
    ensures
        nearest_sq(c, samples, width, height, i) == 0 <==> exists|j: int|
            0 <= j < i && in_frame(samples[j], width, height) && samples[j] == c,
    decreases i,
{
    if i > 0 {
        lemma_nearest_zero(c, samples, width, height, (i - 1) as nat);
        lemma_nearest_bound(c, samples, width, height, (i - 1) as nat);
        lemma_sq_dist_zero(samples[i - 1], c);
        if exists|j: int| 0 <= j < i - 1 && in_frame(samples[j], width, height) && samples[j] == c {
            let j = choose|j: int|
                0 <= j < i - 1 && in_frame(samples[j], width, height) && samples[j] == c;
            assert(0 <= j < i && in_frame(samples[j], width, height) && samples[j] == c);
        }
        if nearest_sq(c, samples, width, height, i) == 0 {
            if !(in_frame(samples[i - 1], width, height) && samples[i - 1] == c) {
                let j = choose|j: int|
                    0 <= j < i - 1 && in_frame(samples[j], width, height) && samples[j] == c;
                assert(0 <= j < i && in_frame(samples[j], width, height) && samples[j] == c);
            }
        }
    }
}

/// The distance score of a spiral sampled at `samples` against the cluster
/// `centers` in a `width x height` image: the mean, over the centers, of the
/// distance to the nearest in-image sample (milli-pixels, each distance
/// rounded down and the mean rounded up), or `INFINITE_COST` when fewer than
/// ten samples lie in the image. With enough samples in the image, the score
/// is 0 exactly when every center lies on one of them.
pub fn calculate_composition_score(
    samples: &Vec<FixedPoint>,
    centers: &Vec<FixedPoint>,
    width: u32,
    height: u32,
) -> (r: u64)
    requires
        centers@.len() > 0,
    ensures
        r as int == distance_score(samples@, centers@, width, height),
        frame_count(samples@, width, height, samples@.len()) >= MIN_SAMPLES_IN_FRAME ==> (r == 0
            <==> forall|j: int|
            0 <= j < centers@.len() ==> lies_on_samples(
                #[trigger] centers@[j],
                samples@,
                width,
                height,
            )),
{
    let in_frame_count = count_in_frame(samples, width, height);
    if in_frame_count < MIN_SAMPLES_IN_FRAME {
        return INFINITE_COST;
    }
    let mut total: u128 = 0;
    let mut k: usize = 0;
    while k < centers.len()
        invariant
            k <= centers@.len(),
            total as int == total_distance(centers@, samples@, width, height, k as nat),
            total as int <= k as int * 0xffff_ffff_ffff_ffff,
            total == 0 <==> forall|j: int|
                0 <= j < k ==> nearest_sq(
                    #[trigger] centers@[j],
                    samples@,
                    width,
                    height,
                    samples@.len(),
                ) == 0,
        decreases centers@.len() - k,
    {
        let d2 = nearest_sample_sq(centers[k], samples, width, height);
        let d = isqrt(d2);
        proof {
            if d == 0 {
                assert(((d as int) + 1) * ((d as int) + 1) == 1) by (nonlinear_arith)
                    requires
                        d == 0,
                ;
                assert(d2 == 0);
            }
            if d2 == 0 {
                assert(d == 0) by (nonlinear_arith)
                    requires
                        d as int * d as int <= 0,
                        d >= 0,
                ;
            }
        }
        let ghost before = total;
        total = total + d as u128;
        proof {
            assert(total == 0 <==> (before == 0 && d == 0));
            if total == 0 {
                assert forall|j: int| 0 <= j < k + 1 implies nearest_sq(
                    #[trigger] centers@[j],
                    samples@,
                    width,
                    height,
                    samples@.len(),
                ) == 0 by {
                    if j < k {
                        assert(before == 0);
                    }
                }
            }
        }
        k = k + 1;
    }
    proof {
        lemma_mean_fits(total as int, centers@.len() as int);
        assert forall|j: int| 0 <= j < centers@.len() implies (nearest_sq(
            #[trigger] centers@[j],
            samples@,
            width,
            height,
            samples@.len(),
        ) == 0 <==> lies_on_samples(centers@[j], samples@, width, height)) by {
            lemma_nearest_zero(centers@[j], samples@, width, height, samples@.len());
        }
    }
    let n = centers.len() as u128;
    ((total + (n - 1)) / n) as u64
}

/// Scoring is pure: the same samples and centers in the same image always
/// get the same distance score.
pub proof fn lemma_score_is_pure(
    samples1: Seq<FixedPoint>,
    samples2: Seq<FixedPoint>,
    centers1: Seq<FixedPoint>,
    centers2: Seq<FixedPoint>,
    width: u32,
    height: u32,
)
    requires
        samples1 == samples2,
        centers1 == centers2,
    ensures
        distance_score(samples1, centers1, width, height) == distance_score(
            samples2,
            centers2,
            width,
            height,
        ),
{
}

/// A candidate whose scale `a` is below `MIN_A` has infinite fitness,
/// whatever its centre, growth rate, distance score and penalty weight.
pub proof fn lemma_small_scale_rejected(params: SpiralParams, distance: u64, weight: u64)
    requires
        params.a < MIN_A,
    ensures
        fitness(params, distance, weight) == INFINITE_COST,
{
}

/// The fitness of a candidate whose spiral has the distance score
/// `distance`, with the golden-ratio penalty weighted by `weight`.
pub fn candidate_fitness(params: &SpiralParams, distance: u64, weight: u64) -> (r: u64)
    ensures
        r as int == fitness(*params, distance, weight),
        params.a < MIN_A ==> r == INFINITE_COST,
{
    if params.a < MIN_A {
        return INFINITE_COST;
    }
    let d: i128 = params.b as i128 - GOLDEN_B as i128;
    proof {
        lemma_sq_bound(d as int);
    }
    let d2: u128 = (d * d) as u128;
    let product = d2.checked_mul(weight as u128);
    match product {
        None => {
            proof {
                assert((d2 as int) * (weight as int) > 0xffff_ffff_ffff_ffff_ffff_ffff_ffff_ffff);
                assert(golden_penalty(params.b, weight) >= INFINITE_COST as int) by (nonlinear_arith)
                    requires
                        (d2 as int) * (weight as int) > 0xffff_ffff_ffff_ffff_ffff_ffff_ffff_ffff,
                        d2 as int == (params.b - GOLDEN_B) * (params.b - GOLDEN_B),
                        golden_penalty(params.b, weight) == (weight as int) * ((params.b - GOLDEN_B)
                            * (params.b - GOLDEN_B)) / 1_000_000_000,
                ;
            }
            INFINITE_COST
        },
        Some(p) => {
            assert(p as int == (weight as int) * ((params.b - GOLDEN_B) * (params.b - GOLDEN_B)))
                by (nonlinear_arith)
                requires
                    p as int == (d2 as int) * (weight as int),
                    d2 as int == (params.b - GOLDEN_B) * (params.b - GOLDEN_B),
            ;
            let penalty: u128 = p / PENALTY_DIVISOR;
            let total: u128 = penalty + distance as u128;
            if total >= INFINITE_COST as u128 {
                INFINITE_COST
            } else {
                total as u64
            }
        },
    }
}

} // verus!
