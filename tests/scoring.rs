use lattice_explorer::periodicity::{PeriodHistogram, Score, Scorer, Snapshot};

/// A scorer on a 3 by 3 lattice (one sampled cell, cell 0) whose cell 0
/// takes the given values, one generation each; the other cells follow
/// `rest`.
fn scorer_with_cell(values: &[u16], rest: u16) -> Scorer {
    let mut s = Scorer::with_side(3);
    for v in values {
        let mut world = vec![rest; 9];
        world[0] = *v;
        s.add_snapshot(world);
    }
    s
}

fn histogram(counts: &[usize], occupied: usize) -> PeriodHistogram {
    PeriodHistogram { counts: counts.to_vec(), positions: counts.iter().sum(), occupied }
}

fn value(s: Score) -> f64 {
    s.numerator as f64 / s.denominator as f64
}

#[test]
fn period_three_is_found_and_no_shorter_one() {
    let s = scorer_with_cell(&[1, 2, 3, 1, 2, 3, 1, 2, 3], 0);
    assert!(!s.check_for_pattern(1, 0));
    assert!(!s.check_for_pattern(2, 0));
    assert!(s.check_for_pattern(3, 0));
    assert_eq!(s.first_period(0, 3), 3);
    let h = s.find_pattern_densities();
    assert_eq!(h.counts, vec![0, 0, 0, 1]);
    assert_eq!(h.positions, 1);
    assert_eq!(h.occupied, 1);
}

#[test]
fn constant_cell_has_period_one() {
    let s = scorer_with_cell(&[4; 9], 0);
    assert_eq!(s.first_period(0, 3), 1);
    assert_eq!(s.find_pattern_densities().counts, vec![0, 1, 0, 0]);
}

#[test]
fn empty_static_cell_is_not_counted() {
    let s = scorer_with_cell(&[0; 9], 0);
    let h = s.find_pattern_densities();
    assert_eq!(h.counts, vec![0, 0, 0, 0]);
    assert_eq!(h.occupied, 0);
}

#[test]
fn aperiodic_cell_falls_in_bucket_zero() {
    let s = scorer_with_cell(&[1, 2, 3, 4, 5, 6, 7, 8, 9], 0);
    assert_eq!(s.first_period(0, 3), 0);
    assert_eq!(s.find_pattern_densities().counts, vec![1, 0, 0, 0]);
}

#[test]
fn period_zero_always_matches() {
    let s = scorer_with_cell(&[1, 2, 3], 0);
    assert!(s.check_for_pattern(0, 0));
    assert!(s.check_for_pattern(3, 0));
}

#[test]
fn histogram_counts_add_up_to_sampled_cells() {
    // side 6: 36 cells, sampled cells 0, 6, ..., 30 (one per row, column 0).
    let mut s = Scorer::with_side(6);
    for g in 0..12u16 {
        let mut world = vec![0u16; 36];
        world[0] = 1; // static, occupied
        world[6] = g % 2 + 1; // period 2
        world[12] = g % 3 + 1; // period 3
        world[18] = g % 4 + 1; // period 4
        world[24] = g + 1; // no period within 4
        world[30] = (g % 2) * 5; // period 2, empty in generation 0
        s.add_snapshot(world);
    }
    let h = s.find_pattern_densities();
    assert_eq!(h.positions, 6);
    assert_eq!(h.counts, vec![1, 1, 2, 1, 1]);
    assert_eq!(h.counts.iter().sum::<usize>(), h.positions);
    assert_eq!(h.occupied, 5);
}

#[test]
fn score_of_a_mixed_histogram() {
    let s = Scorer::new();
    let score = s.compute_score(&histogram(&[2, 1, 3, 1], 10)).unwrap();
    assert_eq!(score, Score { numerator: 9981, denominator: 10 });
    assert!((value(score) - 998.1).abs() < 1e-9);
}

#[test]
fn oscillators_above_one_lift_the_chaos_penalty() {
    let s = Scorer::new();
    let score = s.compute_score(&histogram(&[4, 0, 10], 10)).unwrap();
    assert_eq!(score, Score { numerator: 40 + 10000, denominator: 10 });
}

#[test]
fn static_dominance_demotes_the_score() {
    let s = Scorer::new();
    let score = s.compute_score(&histogram(&[0, 30, 1], 40)).unwrap();
    assert_eq!(score, Score { numerator: 40004, denominator: 40000 });
}

#[test]
fn short_histogram_treats_missing_buckets_as_empty() {
    let s = Scorer::new();
    let score = s.compute_score(&histogram(&[3], 10)).unwrap();
    assert_eq!(score, Score { numerator: 10000 - 60, denominator: 10 });
}

#[test]
fn no_occupied_cell_gives_no_score() {
    let s = Scorer::new();
    assert_eq!(s.compute_score(&histogram(&[5, 0, 1], 0)), None);
}

#[test]
fn more_period_two_cells_raise_the_score() {
    let s = Scorer::new();
    let mut previous = value(s.compute_score(&histogram(&[3, 1, 0, 2], 10)).unwrap());
    for c2 in 1..30 {
        let next = value(s.compute_score(&histogram(&[3, 1, c2, 2], 10)).unwrap());
        assert!(next > previous);
        previous = next;
    }
}

#[test]
fn pixels_wrap_around_the_lattice() {
    let world: Vec<u16> = (0..9).collect();
    let snap = Snapshot::of(3, world);
    assert_eq!(snap.pixel(0, 0), 0);
    assert_eq!(snap.pixel(2, 1), 5);
    assert_eq!(snap.pixel(-1, 0), 2);
    assert_eq!(snap.pixel(0, -1), 6);
    assert_eq!(snap.pixel(3, 3), 0);
    assert_eq!(snap.pixel(-7, 4), 5);
}

#[test]
fn clip_is_centred_and_wraps() {
    let world: Vec<u16> = (0..9).collect();
    let snap = Snapshot::of(3, world);
    let clip = snap.clip(1, 1);
    assert_eq!(clip.len(), 41 * 41);
    // The centre of the clip is the centre cell.
    assert_eq!(clip[20 * 41 + 20], 4);
    // Its top left corner is (1 - 20, 1 - 20), that is (2, 2).
    assert_eq!(clip[0], 8);
    assert_eq!(clip[1], 6);
}
