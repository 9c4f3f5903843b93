use smartscore::bulk::{generate_weight_permutations, lattice_slice};
use smartscore::generator::WeightGenerator;
use smartscore::search::generate_weight_combinations;

fn binomial(n: u64, k: u64) -> u64 {
    let mut r: u64 = 1;
    for i in 0..k {
        r = r * (n - i) / (i + 1);
    }
    r
}

#[test]
fn generator_starts_with_everything_on_last_component() {
    let mut g = WeightGenerator::new(2);
    let chunk = g.next_chunk(4);
    assert_eq!(
        chunk,
        vec![
            vec![0, 0, 0, 0, 0, 0, 2],
            vec![0, 0, 0, 0, 0, 1, 1],
            vec![0, 0, 0, 0, 0, 2, 0],
            vec![0, 0, 0, 0, 1, 0, 1],
        ]
    );
}

#[test]
fn generator_carries_into_outer_counter() {
    let mut g = WeightGenerator::new(1);
    let all = g.next_chunk(100);
    assert_eq!(all.len(), 7);
    assert_eq!(all[0], vec![0, 0, 0, 0, 0, 0, 1]);
    assert_eq!(all[1], vec![0, 0, 0, 0, 0, 1, 0]);
    assert_eq!(all[5], vec![0, 1, 0, 0, 0, 0, 0]);
    assert_eq!(all[6], vec![1, 0, 0, 0, 0, 0, 0]);
}

#[test]
fn generator_exhausts_after_every_point() {
    let mut g = WeightGenerator::new(3);
    let all = g.next_chunk(usize::MAX);
    assert_eq!(all.len() as u64, binomial(9, 6));
    assert!(g.next_chunk(10).is_empty());
    assert!(g.next_chunk(usize::MAX).is_empty());
}

#[test]
fn generator_zero_budget_has_one_point() {
    let mut g = WeightGenerator::new(0);
    assert_eq!(g.next_chunk(5), vec![vec![0, 0, 0, 0, 0, 0, 0]]);
    assert!(g.next_chunk(5).is_empty());
}

#[test]
fn generator_chunk_of_zero_emits_nothing() {
    let mut g = WeightGenerator::new(2);
    assert!(g.next_chunk(0).is_empty());
    assert_eq!(g.next_chunk(1), vec![vec![0, 0, 0, 0, 0, 0, 2]]);
}

#[test]
fn chunks_of_one_match_a_single_unbounded_call() {
    let mut once = WeightGenerator::new(4);
    let whole = once.next_chunk(usize::MAX);
    let mut stepwise = WeightGenerator::new(4);
    let mut pieces: Vec<Vec<u64>> = Vec::new();
    loop {
        let c = stepwise.next_chunk(1);
        if c.is_empty() {
            break;
        }
        assert_eq!(c.len(), 1);
        pieces.extend(c);
    }
    assert_eq!(pieces, whole);
}

#[test]
fn uneven_chunks_match_a_single_call() {
    let mut once = WeightGenerator::new(3);
    let whole = once.next_chunk(usize::MAX);
    let mut g = WeightGenerator::new(3);
    let mut pieces: Vec<Vec<u64>> = Vec::new();
    for size in [5usize, 17, 1, 40, 100] {
        let c = g.next_chunk(size);
        assert!(c.len() <= size);
        pieces.extend(c);
    }
    assert_eq!(pieces, whole);
}

#[test]
fn generator_output_is_strictly_increasing() {
    let mut g = WeightGenerator::new(5);
    let all = g.next_chunk(usize::MAX);
    for w in all.windows(2) {
        assert!(w[0] < w[1]);
    }
}

#[test]
fn bulk_and_generator_hold_the_same_points() {
    for n in 0..5u64 {
        let mut bulk = generate_weight_permutations(n);
        let mut g = WeightGenerator::new(n);
        let mut gen = g.next_chunk(usize::MAX);
        assert_eq!(bulk.len() as u64, binomial(n + 6, 6));
        bulk.sort();
        gen.sort();
        let before = bulk.len();
        bulk.dedup();
        assert_eq!(bulk.len(), before);
        assert_eq!(bulk, gen);
    }
}

#[test]
fn every_generated_vector_sums_to_one() {
    let n: u64 = 5;
    let step = 1.0f64 / n as f64;
    let bulk = generate_weight_permutations(n);
    let mut g = WeightGenerator::new(n);
    let gen = g.next_chunk(usize::MAX);
    for p in bulk.iter().chain(gen.iter()) {
        assert_eq!(p.len(), 7);
        assert_eq!(p.iter().sum::<u64>(), n);
        let total: f64 = p.iter().map(|&c| c as f64 * step).sum();
        assert!((total - 1.0).abs() < step);
    }
}

#[test]
fn slice_holds_points_with_given_first_count() {
    let s = lattice_slice(2, 1);
    assert_eq!(
        s,
        vec![
            vec![1, 0, 0, 0, 0, 0, 1],
            vec![1, 0, 0, 0, 0, 1, 0],
            vec![1, 0, 0, 0, 1, 0, 0],
            vec![1, 0, 0, 1, 0, 0, 0],
            vec![1, 0, 1, 0, 0, 0, 0],
            vec![1, 1, 0, 0, 0, 0, 0],
        ]
    );
    assert_eq!(lattice_slice(2, 2), vec![vec![2, 0, 0, 0, 0, 0, 0]]);
}

#[test]
fn coarse_grid_has_every_tenths_combination() {
    let grid = generate_weight_combinations();
    assert_eq!(grid.len() as u64, binomial(16, 6));
    assert_eq!(grid[0], vec![0, 0, 0, 0, 0, 0, 10]);
    assert_eq!(grid[grid.len() - 1], vec![10, 0, 0, 0, 0, 0, 0]);
    for p in grid.iter() {
        assert_eq!(p.iter().sum::<u64>(), 10);
    }
}
