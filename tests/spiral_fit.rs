use rand::rngs::StdRng;
use rand::SeedableRng;
use spiral_composition::search::{
    rank_elites, SpiralSearch, ELITES, FRESH, GENERATIONS, POPULATION,
};
use spiral_composition::spiral::{
    calculate_composition_score, candidate_fitness, isqrt, FixedPoint, SpiralParams, GOLDEN_B,
    INFINITE_COST, MIN_A,
};

fn line_samples(count: i64) -> Vec<FixedPoint> {
    (0..count).map(|i| FixedPoint { x: i * 1000, y: 0 }).collect()
}

#[test]
fn integer_square_roots() {
    assert_eq!(isqrt(0), 0);
    assert_eq!(isqrt(15), 3);
    assert_eq!(isqrt(16), 4);
    assert_eq!(isqrt(16_000_000), 4000);
    assert_eq!(isqrt(u128::MAX), u64::MAX);
}

#[test]
fn distance_score_is_mean_nearest_distance() {
    let samples = line_samples(10);
    let one = vec![FixedPoint { x: 3000, y: 4000 }];
    assert_eq!(calculate_composition_score(&samples, &one, 20, 20), 4000);
    let two = vec![FixedPoint { x: 3000, y: 4000 }, FixedPoint { x: 9000, y: 1000 }];
    assert_eq!(calculate_composition_score(&samples, &two, 20, 20), 2500);
}

#[test]
fn distance_score_rounds_the_mean_up() {
    let samples = vec![FixedPoint { x: 0, y: 0 }; 10];
    let on = vec![FixedPoint { x: 0, y: 0 }];
    assert_eq!(calculate_composition_score(&samples, &on, 1, 1), 0);
    let off = vec![FixedPoint { x: 0, y: 0 }, FixedPoint { x: 1, y: 0 }];
    assert_eq!(calculate_composition_score(&samples, &off, 1, 1), 1);
    let three = vec![
        FixedPoint { x: 0, y: 0 },
        FixedPoint { x: 3, y: 4 },
        FixedPoint { x: 0, y: 2 },
    ];
    // Distances 0, 5 and 2: the mean 7/3 rounds up to 3.
    assert_eq!(calculate_composition_score(&samples, &three, 1, 1), 3);
}

#[test]
fn distance_score_needs_ten_samples_in_frame() {
    let mut samples = line_samples(9);
    samples.push(FixedPoint { x: -1, y: 0 });
    samples.push(FixedPoint { x: 20_000, y: 0 });
    let centers = vec![FixedPoint { x: 0, y: 0 }];
    assert_eq!(calculate_composition_score(&samples, &centers, 20, 20), INFINITE_COST);
    samples.push(FixedPoint { x: 19_999, y: 19_999 });
    assert_eq!(calculate_composition_score(&samples, &centers, 20, 20), 0);
}

#[test]
fn scoring_twice_gives_the_same_value() {
    let samples = line_samples(12);
    let centers = vec![FixedPoint { x: 2500, y: 700 }, FixedPoint { x: 7000, y: 3000 }];
    let first = calculate_composition_score(&samples, &centers, 50, 50);
    let second = calculate_composition_score(&samples, &centers, 50, 50);
    assert_eq!(first, second);
}

#[test]
fn small_scale_is_infinitely_unfit() {
    for a in [i64::MIN, 0, 10_000, MIN_A - 1] {
        let p = SpiralParams { cx: 0, cy: 0, a, b: GOLDEN_B };
        assert_eq!(candidate_fitness(&p, 0, 0), INFINITE_COST);
        assert_eq!(candidate_fitness(&p, 1234, 20_000), INFINITE_COST);
    }
    let p = SpiralParams { cx: 0, cy: 0, a: MIN_A, b: GOLDEN_B };
    assert_eq!(candidate_fitness(&p, 1234, 20_000), 1234);
}

#[test]
fn golden_penalty_adds_to_distance() {
    // 20000 * 0.001^2 = 0.02 px = 20 milli-pixels.
    let p = SpiralParams { cx: 0, cy: 0, a: 100_000, b: GOLDEN_B + 1000 };
    assert_eq!(candidate_fitness(&p, 500, 20_000), 520);
    let q = SpiralParams { cx: 0, cy: 0, a: 100_000, b: GOLDEN_B - 1000 };
    assert_eq!(candidate_fitness(&q, 500, 20_000), 520);
    let far = SpiralParams { cx: 0, cy: 0, a: 100_000, b: i64::MAX };
    assert_eq!(candidate_fitness(&far, 500, u64::MAX), INFINITE_COST);
    assert_eq!(candidate_fitness(&p, INFINITE_COST, 0), INFINITE_COST);
}

#[test]
fn elites_are_ranked_by_fitness_then_position() {
    assert_eq!(rank_elites(&vec![5, 3, 3, 9, 1], 3), vec![4, 1, 2]);
    assert_eq!(rank_elites(&vec![7, 7, 7], 3), vec![0, 1, 2]);
    assert_eq!(rank_elites(&vec![2, 1], 0), Vec::<usize>::new());
}

#[test]
fn new_search_is_fresh() {
    let mut rng = StdRng::seed_from_u64(7);
    let s = SpiralSearch::new(&mut rng, 100, 50, 20_000);
    assert_eq!(s.population.len(), POPULATION);
    assert_eq!(s.generation, 0);
    assert_eq!(s.best_cost, INFINITE_COST);
    assert!(!s.is_finished());
    for p in &s.population {
        assert!(-100_000 <= p.cx && p.cx < 200_000);
        assert!(-50_000 <= p.cy && p.cy < 100_000);
        assert!(10_000 <= p.a && p.a < 400_000);
        assert!(100_000 <= p.b && p.b < 500_000);
    }
}

#[test]
fn best_fitness_never_rises() {
    let mut rng = StdRng::seed_from_u64(11);
    let mut s = SpiralSearch::new(&mut rng, 64, 64, 20_000);
    let mut previous = s.best_cost;
    let mut round: u64 = 0;
    while !s.is_finished() {
        let distances: Vec<u64> = (0..POPULATION as u64).map(|i| (i * 7919 + round * 104729) % 100_000).collect();
        let before = s.population.clone();
        s.advance(&mut rng, &distances);
        assert!(s.best_cost <= previous);
        previous = s.best_cost;
        assert_eq!(s.population.len(), POPULATION);
        // The elites lead the next generation, best first.
        let fitness: Vec<u64> = before
            .iter()
            .zip(&distances)
            .map(|(p, d)| candidate_fitness(p, *d, 20_000))
            .collect();
        let elites = rank_elites(&fitness, ELITES);
        for (r, e) in elites.iter().enumerate() {
            assert_eq!(s.population[r], before[*e]);
        }
        for (i, c) in s.population.iter().enumerate().skip(ELITES + FRESH) {
            let parent = before[elites[(i - ELITES - FRESH) % ELITES]];
            assert!(parent.a <= c.a && c.a < parent.a + 20_000);
            assert!(parent.b <= c.b && c.b < parent.b + 50_000);
        }
        round += 1;
    }
    assert_eq!(s.generation, GENERATIONS);
    assert!(s.best_cost < INFINITE_COST);
}
