//! Generational stochastic search for the best-fitting spiral: elitism,
//! fresh random candidates and one-sided mutation of the elites, with the
//! best candidate ever seen kept across generations.
//!
//! The caller drives the search: for each generation it samples the spiral of
//! every candidate, scores the samples with
//! `spiral::calculate_composition_score`, and hands the scores to
//! `SpiralSearch::advance`.
use vstd::prelude::*;

use rand::Rng;
use rand::rngs::StdRng;

use crate::spiral::{INFINITE_COST, MIN_A, SUBPIXELS, SpiralParams, candidate_fitness, fitness};

verus! {

#[verifier::external_type_specification]
#[verifier::external_body]
pub struct ExStdRng(StdRng);

/// Candidates per generation.
pub const POPULATION: usize = 300;

/// Generations that a search runs.
pub const GENERATIONS: usize = 80;

/// Best candidates carried unchanged into the next generation.
pub const ELITES: usize = 15;

/// Fresh random candidates added to each generation (a quarter of it).
pub const FRESH: usize = 75;

/// Range of a fresh candidate's scale `a`, in milli-pixels.
pub const A_LOW: i64 = 10_000;
pub const A_HIGH: i64 = 400_000;

/// Range of a fresh candidate's growth rate `b`, in millionths.
pub const B_LOW: i64 = 100_000;
pub const B_HIGH: i64 = 500_000;

/// Largest mutation of `a` (20 pixels) and of `b` (0.05).
pub const A_STEP: i64 = 20_000;
pub const B_STEP: i64 = 50_000;

/// The centre moves by less than a tenth of the image side per mutation:
/// 100 milli-pixels for each pixel of the side.
pub const CENTER_STEP: i64 = 100;

/// Relies on `rand::Rng::gen_range` over a half-open `i64` range: the value
/// drawn lies in `[low, high)`. It panics on an empty range, which `requires`
/// leaves out.
#[verifier::external_body]
fn draw(rng: &mut StdRng, low: i64, high: i64) -> (r: i64)
    requires
        low < high,
    ensures
        low <= r < high,
{
    rng.gen_range(low..high)
}

/// An image side in milli-pixels.
pub open spec fn span(side: u32) -> int {
    side as int * SUBPIXELS
}

/// The largest centre mutation along a side, in milli-pixels.
pub open spec fn drift(side: u32) -> int {
    side as int * CENTER_STEP
}

/// A fresh random candidate: `cx` in `[-w, 2w)`, `cy` in `[-h, 2h)`, `a` in
/// `[10, 400)` pixels and `b` in `[0.1, 0.5)`.
pub open spec fn is_fresh(p: SpiralParams, width: u32, height: u32) -> bool {
    &&& -span(width) <= p.cx < 2 * span(width)
    &&& -span(height) <= p.cy < 2 * span(height)
    &&& A_LOW <= p.a < A_HIGH
    &&& B_LOW <= p.b < B_HIGH
}

/// A mutation of `parent`: each parameter moved up by less than its step.
pub open spec fn is_offspring(c: SpiralParams, parent: SpiralParams, width: u32, height: u32) -> bool {
    &&& parent.cx <= c.cx < parent.cx + drift(width)
    &&& parent.cy <= c.cy < parent.cy + drift(height)
    &&& parent.a <= c.a < parent.a + A_STEP
    &&& parent.b <= c.b < parent.b + B_STEP
}

/// Where a candidate of generation `g` can lie: fresh ranges widened upward
/// by `g` mutation steps.
pub open spec fn within_bounds(p: SpiralParams, width: u32, height: u32, g: int) -> bool {
    &&& -span(width) <= p.cx < 2 * span(width) + g * drift(width)
    &&& -span(height) <= p.cy < 2 * span(height) + g * drift(height)
    &&& A_LOW <= p.a < A_HIGH + g * A_STEP
    &&& B_LOW <= p.b < B_HIGH + g * B_STEP
}

/// Whether candidate `i` comes before candidate `j` when ranked by fitness
/// `f`; equal fitness keeps the earlier candidate first.
pub open spec fn ranks_before(f: Seq<u64>, i: int, j: int) -> bool {
    f[i] < f[j] || (f[i] == f[j] && i < j)
}

/// Whether index `j` occurs in `e`.
pub open spec fn ranked(e: Seq<usize>, j: int) -> bool {
    exists|t: int| 0 <= t < e.len() && e[t] as int == j
}

/// `e` lists the `count` best candidates under fitness `f`, best first.
pub open spec fn is_ranking(f: Seq<u64>, e: Seq<usize>, count: int) -> bool {
    &&& e.len() == count
    &&& forall|t: int| 0 <= t < count ==> #[trigger] e[t] < f.len()
    &&& forall|s: int, t: int|
        0 <= s < t < count ==> ranks_before(f, #[trigger] e[s] as int, #[trigger] e[t] as int)
    &&& count > 0 ==> forall|j: int|
        0 <= j < f.len() && !ranked(e, j) ==> ranks_before(f, e[count - 1] as int, j)
}

/// The fitness of every candidate of `population` given its distance score.
pub open spec fn generation_fitness(
    population: Seq<SpiralParams>,
    distances: Seq<u64>,
    weight: u64,
) -> Seq<u64> {
    Seq::new(population.len(), |i: int| fitness(population[i], distances[i], weight) as u64)
}

/// The generation that follows `population` with elites `e`: the elites in
/// rank order, then fresh candidates, then offspring of the elites taken in
/// turn.
pub open spec fn is_next_generation(
    population: Seq<SpiralParams>,
    next: Seq<SpiralParams>,
    e: Seq<usize>,
    width: u32,
    height: u32,
) -> bool {
    &&& next.len() == POPULATION
    &&& forall|r: int| 0 <= r < ELITES ==> #[trigger] next[r] == population[e[r] as int]
    &&& forall|i: int| ELITES <= i < ELITES + FRESH ==> is_fresh(#[trigger] next[i], width, height)
    &&& forall|i: int|
        ELITES + FRESH <= i < POPULATION ==> is_offspring(
            #[trigger] next[i],
            population[e[(i - ELITES - FRESH) % (ELITES as int)] as int],
            width,
            height,
        )
}

/// One generation of the search: `e` ranks the elites of `before`'s
/// population under `distances`, `after`'s population is the generation they
/// lead to, and the best candidate ever seen is replaced only by a strictly
/// better elite.
pub open spec fn is_step(
    before: SpiralSearch,
    after: SpiralSearch,
    distances: Seq<u64>,
    e: Seq<usize>,
) -> bool {
    let f = generation_fitness(before.population@, distances, before.b_weight);
    &&& is_ranking(f, e, ELITES as int)
    &&& is_next_generation(before.population@, after.population@, e, before.width, before.height)
    &&& if f[e[0] as int] < before.best_cost {
        &&& after.best == before.population@[e[0] as int]
        &&& after.best_cost == f[e[0] as int]
    } else {
        &&& after.best == before.best
        &&& after.best_cost == before.best_cost
    }
}

/// The best fitness ever seen never rises from one generation to the next,
/// whatever the population and its scores.
pub proof fn lemma_best_never_rises(
    before: SpiralSearch,
    after: SpiralSearch,
    distances: Seq<u64>,
    e: Seq<usize>,
)
    requires
        is_step(before, after, distances, e),
    ensures
        after.best_cost <= before.best_cost,
{
}

/// The state of a spiral search between generations.
pub struct SpiralSearch {
    /// Image width in pixels.
    pub width: u32,
    /// Image height in pixels.
    pub height: u32,
    /// Weight of the golden-ratio penalty.
    pub b_weight: u64,
    /// Generations evaluated so far.
    pub generation: usize,
    /// The candidates of the current generation.
    pub population: Vec<SpiralParams>,
    /// The best candidate evaluated so far.
    pub best: SpiralParams,
    /// Its fitness; `INFINITE_COST` before the first evaluation.
    pub best_cost: u64,
}

proof fn lemma_drift(side: u32, g: int)
    requires
        0 <= g <= GENERATIONS,
    ensures
        0 <= g * drift(side) <= GENERATIONS * drift(side),
        (g + 1) * drift(side) == g * drift(side) + drift(side),
        drift(side) == side as int * 100,
        span(side) == side as int * 1000,
        span(side) <= 0x400_0000_0000,
{
    assert(0 <= g * drift(side) <= GENERATIONS * drift(side)) by (nonlinear_arith)
        requires
            0 <= g <= GENERATIONS,
            drift(side) == side as int * 100,
            side >= 0,
    ;
    assert((g + 1) * drift(side) == g * drift(side) + drift(side)) by (nonlinear_arith);
}

proof fn lemma_fresh_within(p: SpiralParams, width: u32, height: u32, g: int)
    requires
        is_fresh(p, width, height),
        0 <= g <= GENERATIONS,
    ensures
        within_bounds(p, width, height, g),
{
    lemma_drift(width, g);
    lemma_drift(height, g);
}

proof fn lemma_within_grows(p: SpiralParams, width: u32, height: u32, g: int)
    requires
        within_bounds(p, width, height, g),
        0 <= g < GENERATIONS,
    ensures
        within_bounds(p, width, height, g + 1),
{
    lemma_drift(width, g);
    lemma_drift(height, g);
}

impl SpiralSearch {
    /// The search is consistent: a full population of the current
    /// generation's bounds, over a non-empty image, and a best candidate of
    /// finite fitness only when its scale is not rejected.
    pub open spec fn wf(&self) -> bool {
        &&& self.best_cost < INFINITE_COST ==> self.best.a >= MIN_A
        &&& self.width >= 1
        &&& self.height >= 1
        &&& self.generation <= GENERATIONS
        &&& self.population@.len() == POPULATION
        &&& forall|i: int|
            0 <= i < POPULATION ==> within_bounds(
                #[trigger] self.population@[i],
                self.width,
                self.height,
                self.generation as int,
            )
    }

    /// Whether every generation has been evaluated.
    pub open spec fn finished(&self) -> bool {
        self.generation == GENERATIONS
    }

    /// A search over a `width x height` image with golden-ratio penalty
    /// weight `b_weight`, starting from a population of fresh candidates.
    pub fn new(rng: &mut StdRng, width: u32, height: u32, b_weight: u64) -> (r: SpiralSearch)
        requires
            width >= 1,
            height >= 1,
        ensures
            r.wf(),
            r.width == width,
            r.height == height,
            r.b_weight == b_weight,
            r.generation == 0,
            r.best_cost == INFINITE_COST,
            r.best == r.population@[0],
            forall|i: int| 0 <= i < POPULATION ==> is_fresh(#[trigger] r.population@[i], width, height),
    {
        let mut population: Vec<SpiralParams> = Vec::with_capacity(POPULATION);
        let mut i: usize = 0;
        while i < POPULATION
            invariant
                width >= 1,
                height >= 1,
                i <= POPULATION,
                population@.len() == i,
                forall|k: int| 0 <= k < i ==> is_fresh(#[trigger] population@[k], width, height),
            decreases POPULATION - i,
        {
            let p = fresh_candidate(rng, width, height);
            population.push(p);
            i = i + 1;
        }
        proof {
            assert forall|k: int| 0 <= k < POPULATION implies within_bounds(
                #[trigger] population@[k],
                width,
                height,
                0,
            ) by {
                lemma_fresh_within(population@[k], width, height, 0);
            }
        }
        let best = population[0];
        SpiralSearch {
            width,
            height,
            b_weight,
            generation: 0,
            population,
            best,
            best_cost: INFINITE_COST,
        }
    }

    /// Whether every generation has been evaluated.
    pub fn is_finished(&self) -> (r: bool)
        ensures
            r == self.finished(),
    {
        self.generation == GENERATIONS
    }

    /// The best candidate evaluated so far; once its fitness is finite, its
    /// scale is at least `MIN_A`.
    pub fn best_params(&self) -> (r: SpiralParams)
        ensures
            r == self.best,
            self.wf() && self.best_cost < INFINITE_COST ==> r.a >= MIN_A,
    {
        self.best
    }

    /// Evaluates the current generation, given the distance score of each
    /// candidate's spiral, and replaces it with the next: its fifteen best
    /// candidates (ties keep population order), seventy-five fresh ones, and
    /// offspring of the best fifteen in turn. The best candidate ever seen
    /// is replaced only by a strictly better one, so its fitness never rises.
    pub fn advance(&mut self, rng: &mut StdRng, distances: &Vec<u64>)
        requires
            old(self).wf(),
            !old(self).finished(),
            distances@.len() == POPULATION,
        ensures
            final(self).wf(),
            final(self).generation == old(self).generation + 1,
            final(self).width == old(self).width,
            final(self).height == old(self).height,
            final(self).b_weight == old(self).b_weight,
            final(self).best_cost <= old(self).best_cost,
            forall|i: int|
                0 <= i < POPULATION ==> final(self).best_cost <= fitness(
                    #[trigger] old(self).population@[i],
                    distances@[i],
                    old(self).b_weight,
                ),
            exists|e: Seq<usize>| #[trigger] is_step(*old(self), *final(self), distances@, e),
    {
        let ghost before = *self;
        let width = self.width;
        let height = self.height;
        let g = self.generation;
        let ghost pop = self.population@;
        let mut scores: Vec<u64> = Vec::with_capacity(POPULATION);
        let mut i: usize = 0;
        while i < POPULATION
            invariant
                self.population@ == pop,
                pop.len() == POPULATION,
                distances@.len() == POPULATION,
                i <= POPULATION,
                scores@.len() == i,
                forall|k: int|
                    0 <= k < i ==> #[trigger] scores@[k] as int == fitness(
                        pop[k],
                        distances@[k],
                        self.b_weight,
                    ),
            decreases POPULATION - i,
        {
            let s = candidate_fitness(&self.population[i], distances[i], self.b_weight);
            scores.push(s);
            i = i + 1;
        }
        let ghost f = generation_fitness(pop, distances@, self.b_weight);
        assert(scores@ =~= f);
        let elites = rank_elites(&scores, ELITES);
        let top = elites[0];
        if scores[top] < self.best_cost {
            self.best = self.population[top];
            self.best_cost = scores[top];
        }
        proof {
            assert forall|i: int| 0 <= i < POPULATION implies self.best_cost <= fitness(
                #[trigger] pop[i],
                distances@[i],
                self.b_weight,
            ) by {
                if !ranked(elites@, i) {
                    assert(ranks_before(f, elites@[ELITES - 1] as int, i));
                    assert(ranks_before(f, elites@[0] as int, elites@[ELITES - 1] as int));
                } else {
                    let t = choose|t: int| 0 <= t < elites@.len() && elites@[t] as int == i;
                    if t > 0 {
                        assert(ranks_before(f, elites@[0] as int, elites@[t] as int));
                    }
                }
            }
        }
        let mut next: Vec<SpiralParams> = Vec::with_capacity(POPULATION);
        let mut r: usize = 0;
        while r < ELITES
            invariant
                self.population@ == pop,
                pop.len() == POPULATION,
                is_ranking(scores@, elites@, ELITES as int),
                scores@.len() == POPULATION,
                r <= ELITES,
                next@.len() == r,
                forall|k: int| 0 <= k < r ==> #[trigger] next@[k] == pop[elites@[k] as int],
            decreases ELITES - r,
        {
            next.push(self.population[elites[r]]);
            r = r + 1;
        }
        while r < ELITES + FRESH
            invariant
                width >= 1,
                height >= 1,
                ELITES <= r <= ELITES + FRESH,
                next@.len() == r,
                forall|k: int| 0 <= k < ELITES ==> #[trigger] next@[k] == pop[elites@[k] as int],
                forall|k: int| ELITES <= k < r ==> is_fresh(#[trigger] next@[k], width, height),
            decreases ELITES + FRESH - r,
        {
            let p = fresh_candidate(rng, width, height);
            next.push(p);
            r = r + 1;
        }
        while r < POPULATION
            invariant
                self.population@ == pop,
                self.wf(),
                self.width == width,
                self.height == height,
                self.generation == g,
                g < GENERATIONS,
                is_ranking(scores@, elites@, ELITES as int),
                scores@.len() == POPULATION,
                ELITES + FRESH <= r <= POPULATION,
                next@.len() == r,
                forall|k: int| 0 <= k < ELITES ==> #[trigger] next@[k] == pop[elites@[k] as int],
                forall|k: int|
                    ELITES <= k < ELITES + FRESH ==> is_fresh(#[trigger] next@[k], width, height),
                forall|k: int|
                    ELITES + FRESH <= k < r ==> is_offspring(
                        #[trigger] next@[k],
                        pop[elites@[(k - ELITES - FRESH) % (ELITES as int)] as int],
                        width,
                        height,
                    ),
            decreases POPULATION - r,
        {
            let idx = (r - ELITES - FRESH) % ELITES;
            assert(elites@[idx as int] < POPULATION);
            let parent = self.population[elites[idx]];
            assert(within_bounds(self.population@[elites@[idx as int] as int], width, height, g as int));
            let c = mutate(rng, parent, width, height, g);
            next.push(c);
            r = r + 1;
        }
        proof {
            let gi = g as int;
            assert forall|k: int| 0 <= k < POPULATION implies within_bounds(
                #[trigger] next@[k],
                width,
                height,
                gi + 1,
            ) by {
                if k < ELITES {
                    lemma_within_grows(pop[elites@[k] as int], width, height, gi);
                } else if k < ELITES + FRESH {
                    lemma_fresh_within(next@[k], width, height, gi + 1);
                } else {
                    let parent = pop[elites@[(k - ELITES - FRESH) % (ELITES as int)] as int];
                    lemma_drift(width, gi);
                    lemma_drift(height, gi);
                    assert(within_bounds(parent, width, height, gi));
                }
            }
            assert(is_next_generation(pop, next@, elites@, width, height));
        }
        self.population = next;
        self.generation = g + 1;
        assert(is_step(before, *self, distances@, elites@));
    }
}

/// A fresh random candidate for a `width x height` image.
fn fresh_candidate(rng: &mut StdRng, width: u32, height: u32) -> (r: SpiralParams)
    requires
        width >= 1,
        height >= 1,
    ensures
        is_fresh(r, width, height),
{
    proof {
        lemma_drift(width, 0);
        lemma_drift(height, 0);
    }
    let sw: i64 = (width as i64) * SUBPIXELS;
    let sh: i64 = (height as i64) * SUBPIXELS;
    let cx = draw(rng, -sw, 2 * sw);
    let cy = draw(rng, -sh, 2 * sh);
    let a = draw(rng, A_LOW, A_HIGH);
    let b = draw(rng, B_LOW, B_HIGH);
    SpiralParams { cx, cy, a, b }
}

/// A random offspring of `parent`, a candidate of generation `g`.
fn mutate(rng: &mut StdRng, parent: SpiralParams, width: u32, height: u32, g: usize) -> (r:
    SpiralParams)
    requires
        width >= 1,
        height >= 1,
        g < GENERATIONS,
        within_bounds(parent, width, height, g as int),
    ensures
        is_offspring(r, parent, width, height),
{
    proof {
        lemma_drift(width, g as int);
        lemma_drift(height, g as int);
    }
    let dw: i64 = (width as i64) * CENTER_STEP;
    let dh: i64 = (height as i64) * CENTER_STEP;
    let cx = parent.cx + draw(rng, 0, dw);
    let cy = parent.cy + draw(rng, 0, dh);
    let a = parent.a + draw(rng, 0, A_STEP);
    let b = parent.b + draw(rng, 0, B_STEP);
    SpiralParams { cx, cy, a, b }
}

proof fn lemma_some_unranked(e: Seq<usize>, n: int)
    requires
        e.len() < n,
        forall|t: int| 0 <= t < e.len() ==> #[trigger] e[t] < n,
        forall|s: int, t: int| 0 <= s < t < e.len() ==> #[trigger] e[s] != #[trigger] e[t],
    ensures
        exists|j: int| 0 <= j < n && !ranked(e, j),
{
    let ei = e.map_values(|v: usize| v as int);
    if forall|j: int| 0 <= j < n ==> ranked(e, j) {
        assert(ei.no_duplicates()) by {
            assert forall|s: int, t: int| 0 <= s < ei.len() && 0 <= t < ei.len() && s != t implies ei[s]
                != ei[t] by {
                if s < t {
                    assert(e[s] != e[t]);
                } else {
                    assert(e[t] != e[s]);
                }
            }
        }
        ei.unique_seq_to_set();
        vstd::set_lib::lemma_int_range(0, n);
        assert(vstd::set_lib::set_int_range(0, n).subset_of(ei.to_set())) by {
            assert forall|j: int| vstd::set_lib::set_int_range(0, n).contains(j) implies ei.to_set().contains(
                j,
            ) by {
                assert(ranked(e, j));
                let t = choose|t: int| 0 <= t < e.len() && e[t] as int == j;
                assert(ei[t] == j);
            }
        }
        vstd::set_lib::lemma_len_subset(vstd::set_lib::set_int_range(0, n), ei.to_set());
    }
}

/// The `count` best candidates under fitness `fitness`, best first; equal
/// fitness keeps the earlier candidate first.
pub fn rank_elites(fitness: &Vec<u64>, count: usize) -> (e: Vec<usize>)
    requires
        count <= fitness@.len(),
    ensures
        is_ranking(fitness@, e@, count as int),
{
    let n = fitness.len();
    let mut chosen: Vec<bool> = Vec::with_capacity(n);
    let mut i: usize = 0;
    while i < n
        invariant
            i <= n,
            chosen@.len() == i,
            forall|k: int| 0 <= k < i ==> !(#[trigger] chosen@[k]),
        decreases n - i,
    {
        chosen.push(false);
        i = i + 1;
    }
    let mut e: Vec<usize> = Vec::with_capacity(count);
    let mut r: usize = 0;
    let ghost f = fitness@;
    while r < count
        invariant
            n == f.len(),
            f == fitness@,
            count <= n,
            r <= count,
            chosen@.len() == n,
            e@.len() == r,
            forall|t: int| 0 <= t < r ==> #[trigger] e@[t] < n,
            forall|s: int, t: int|
                0 <= s < t < r ==> ranks_before(f, #[trigger] e@[s] as int, #[trigger] e@[t] as int),
            forall|j: int| 0 <= j < n ==> (#[trigger] chosen@[j] <==> ranked(e@, j)),
            r > 0 ==> forall|j: int|
                0 <= j < n && !ranked(e@, j) ==> ranks_before(f, e@[r - 1] as int, j),
        decreases count - r,
    {
        proof {
            lemma_some_unranked(e@, n as int);
        }
        let ghost j0 = choose|j: int| 0 <= j < n && !ranked(e@, j);
        let mut found = false;
        let mut best: usize = 0;
        let mut t: usize = 0;
        while t < n
            invariant
                n == f.len(),
                f == fitness@,
                chosen@.len() == n,
                0 <= j0 < n,
                !chosen@[j0],
                t <= n,
                found ==> best < t && !chosen@[best as int],
                !found ==> forall|j: int| 0 <= j < t ==> chosen@[j],
                found ==> forall|j: int|
                    0 <= j < t && !chosen@[j] && j != best ==> ranks_before(f, best as int, j),
                j0 < t ==> found,
            decreases n - t,
        {
            if !chosen[t] {
                if !found || fitness[t] < fitness[best] {
                    best = t;
                    found = true;
                }
            }
            t = t + 1;
        }
        proof {
            assert(found);
            let old_e = e@;
            let new_e = old_e.push(best);
            assert forall|j: int| 0 <= j < n implies (#[trigger] chosen@.update(
                best as int,
                true,
            )[j] <==> ranked(new_e, j)) by {
                if ranked(old_e, j) {
                    let t = choose|t: int| 0 <= t < old_e.len() && old_e[t] as int == j;
                    assert(new_e[t] as int == j);
                }
                if j == best {
                    assert(new_e[r as int] as int == j);
                }
                if ranked(new_e, j) && j != best {
                    let t = choose|t: int| 0 <= t < new_e.len() && new_e[t] as int == j;
                    assert(old_e[t] as int == j);
                }
            }
        }
        chosen.set(best, true);
        e.push(best);
        r = r + 1;
        proof {
            assert forall|j: int| 0 <= j < n && !ranked(e@, j) implies ranks_before(
                f,
                e@[r - 1] as int,
                j,
            ) by {
                assert(!chosen@[j]);
            }
        }
    }
    e
}

} // verus!
