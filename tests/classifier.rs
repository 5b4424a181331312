use lattice_explorer::stats::{AutomaticJudgement, ClassifierAction, Judge, Stats, RETRY_BUDGET};

fn density(occupied: u64, total: u64) -> Stats {
    Stats { occupied_cells: occupied, total_cells: total }
}

/// Runs the classification protocol on a recorded sequence of densities,
/// returning the verdict and the number of bursts consumed.
fn classify(sequence: &[Stats]) -> (AutomaticJudgement, usize) {
    let mut judge = Judge::new(sequence[0]);
    let mut bursts = 0;
    loop {
        match judge.next_action() {
            ClassifierAction::RunBurst => {
                bursts += 1;
                judge.push_snapshot(sequence[bursts]);
            }
            ClassifierAction::Finish(j) => return (j, bursts),
        }
    }
}

#[test]
fn stats_of_counts_occupied_cells() {
    let s = Stats::of(&[0, 1, 2, 0, 0, 7]);
    assert_eq!(s, density(3, 6));
    assert_eq!(Stats::of(&[]), density(0, 0));
}

#[test]
fn single_snapshot_is_unknown() {
    let judge = Judge::new(density(1, 10));
    assert_eq!(judge.judgement(), AutomaticJudgement::Unknown);
    assert_eq!(judge.next_action(), ClassifierAction::RunBurst);
}

#[test]
fn near_zero_density_is_dead() {
    let (j, bursts) = classify(&[density(1, 10), density(1, 10_000_000)]);
    assert_eq!(j, AutomaticJudgement::Dead);
    assert_eq!(bursts, 1);
}

#[test]
fn density_above_threshold_is_not_dead() {
    let mut judge = Judge::new(density(1, 10));
    judge.push_snapshot(density(5, 100));
    assert_eq!(judge.judgement(), AutomaticJudgement::Unknown);
}

#[test]
fn growing_density_is_chaotic() {
    let seq = [density(1, 10), density(2, 10), density(3, 10), density(4, 10), density(5, 10)];
    let (j, bursts) = classify(&seq);
    assert_eq!(j, AutomaticJudgement::Chaotic);
    assert_eq!(bursts, 1);
    let mut judge = Judge::new(seq[0]);
    for s in &seq[1..] {
        judge.push_snapshot(*s);
    }
    assert_eq!(judge.judgement(), AutomaticJudgement::Chaotic);
}

#[test]
fn chaos_is_measured_against_the_first_snapshot() {
    let mut judge = Judge::new(density(1, 10));
    judge.push_snapshot(density(3, 10));
    judge.push_snapshot(density(2, 10));
    assert_eq!(judge.judgement(), AutomaticJudgement::Chaotic);
    judge.push_snapshot(density(1, 10));
    assert_eq!(judge.judgement(), AutomaticJudgement::Unknown);
}

#[test]
fn steady_density_is_unknown_after_the_budget() {
    let seq = [density(1, 10); 5];
    let (j, bursts) = classify(&seq);
    assert_eq!(j, AutomaticJudgement::Unknown);
    assert_eq!(bursts, RETRY_BUDGET);
}

#[test]
fn engine_reporting_zero_density_is_dead_after_one_evaluation() {
    let engine = || density(0, 1024 * 1024);
    let mut judge = Judge::new(engine());
    let mut evaluations = 0;
    let verdict = loop {
        match judge.next_action() {
            ClassifierAction::RunBurst => judge.push_snapshot(engine()),
            ClassifierAction::Finish(j) => break j,
        }
        evaluations += 1;
    };
    assert_eq!(verdict, AutomaticJudgement::Dead);
    assert_eq!(evaluations, 1);
}

#[test]
fn empty_lattice_has_no_density() {
    let mut judge = Judge::new(density(0, 0));
    judge.push_snapshot(density(0, 0));
    assert_eq!(judge.judgement(), AutomaticJudgement::Unknown);
}

#[test]
fn interesting_means_unknown() {
    assert!(AutomaticJudgement::Unknown.is_interesting());
    assert!(!AutomaticJudgement::Dead.is_interesting());
    assert!(!AutomaticJudgement::Chaotic.is_interesting());
    assert!(AutomaticJudgement::Unknown.is_unknown());
    assert!(!AutomaticJudgement::Dead.is_unknown());
}
