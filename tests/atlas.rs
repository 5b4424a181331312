use lattice_explorer::atlas::{allocate_slots, period_pool, DisplayFrame, FRAME_WIDTH};
use lattice_explorer::periodicity::{PeriodHistogram, Scorer};

fn histogram(counts: &[usize], occupied: usize) -> PeriodHistogram {
    PeriodHistogram { counts: counts.to_vec(), positions: counts.iter().sum(), occupied }
}

#[test]
fn pool_keeps_visible_periods_by_ascending_density() {
    let h = histogram(&[50, 5, 20, 0, 200], 1000);
    assert_eq!(period_pool(&h), vec![2, 0, 4]);
}

#[test]
fn pool_orders_equal_densities_by_period() {
    let h = histogram(&[30, 30, 20, 30], 100);
    assert_eq!(period_pool(&h), vec![2, 0, 1, 3]);
}

#[test]
fn pool_of_an_invisible_histogram_is_empty() {
    let h = histogram(&[1, 1, 1], 1000);
    assert!(period_pool(&h).is_empty());
}

#[test]
fn slots_are_spread_evenly_with_extra_for_the_rarest() {
    let slots = allocate_slots(&[2, 0, 4]);
    let mut expected = vec![2; 6];
    expected.extend(vec![0; 5]);
    expected.extend(vec![4; 5]);
    assert_eq!(slots, expected);
}

#[test]
fn one_period_fills_all_slots() {
    assert_eq!(allocate_slots(&[3]), vec![3; 16]);
}

#[test]
fn a_large_pool_gets_one_slot_each_for_the_first_sixteen() {
    let pool: Vec<usize> = (0..20).collect();
    assert_eq!(allocate_slots(&pool), (0..16).collect::<Vec<usize>>());
}

#[test]
fn an_empty_pool_gets_no_slot() {
    assert!(allocate_slots(&[]).is_empty());
}

#[test]
fn new_frame_is_background_with_background_gridlines() {
    let frame = DisplayFrame::new();
    let pixels = frame.into_pixels();
    assert_eq!(pixels.len(), FRAME_WIDTH * FRAME_WIDTH);
    assert!(pixels.iter().all(|p| *p == 0));
    let at = |x: usize, y: usize| pixels[y * FRAME_WIDTH + x];
    assert_eq!(at(0, 5), 0);
    assert_eq!(at(42, 100), 0);
    assert_eq!(at(100, 168), 0);
    assert_eq!(at(1, 1), 0);
    assert_eq!(at(43, 85), 0);
}

#[test]
fn clip_lands_in_its_square() {
    let mut frame = DisplayFrame::new();
    let clip: Vec<u16> = (0..41 * 41).map(|i| (i % 7) as u16 + 256).collect();
    frame.put_clip(43, 1, &clip);
    frame.set_pixel(0, 0, 9);
    let pixels = frame.into_pixels();
    let at = |x: usize, y: usize| pixels[y * FRAME_WIDTH + x];
    assert_eq!(at(0, 0), 9);
    assert_eq!(at(43, 1), 0);
    assert_eq!(at(44, 1), 1);
    assert_eq!(at(43 + 3, 1 + 2), ((2 * 41 + 3) % 7) as u8);
    assert_eq!(at(42, 1), 0);
    assert_eq!(at(1, 1), 0);
}

#[test]
fn qualification_rejects_multiples_of_a_shorter_period() {
    let mut s = Scorer::with_side(3);
    for g in 0..12u16 {
        let mut world = vec![0u16; 9];
        world[0] = g % 2 + 1;
        world[1] = 7;
        s.add_snapshot(world);
    }
    assert!(s.qualifies(2, 0));
    assert!(!s.qualifies(4, 0));
    assert!(!s.qualifies(1, 0));
    assert!(s.qualifies(1, 1));
    assert!(!s.qualifies(1, 2));
    assert!(s.qualifies(0, 2));
}

/// Side 4: even cells are static and occupied, odd cells have period 3.
fn striped_scorer() -> Scorer {
    let mut s = Scorer::with_side(4);
    for g in 0..9u16 {
        let world: Vec<u16> = (0..16).map(|i| if i % 2 == 0 { 3 } else { g % 3 + 1 }).collect();
        s.add_snapshot(world);
    }
    s
}

#[test]
fn draws_are_reduced_onto_the_lattice_and_tested() {
    let s = striped_scorer();
    // Draw (6, 9) is cell (2, 1), index 6: static.
    assert_eq!(s.place_from_draw(1, 6, 9), Some((2, 1)));
    assert_eq!(s.place_from_draw(3, 6, 9), None);
    // Draw (5, 4) is cell (1, 0), index 1: period 3.
    assert_eq!(s.place_from_draw(3, 5, 4), Some((1, 0)));
    assert_eq!(s.place_from_draw(1, 5, 4), None);
    assert_eq!(s.place_from_draw(0, 5, 4), Some((1, 0)));
    // No cell has period 2.
    assert_eq!(s.place_from_draw(2, 5, 4), None);
    assert_eq!(s.place_from_draw(2, 6, 9), None);
}

#[test]
fn period_zero_slots_always_get_a_placement_and_impossible_ones_none() {
    let s = striped_scorer();
    let placements = s.select_positions(&[0, 2, 0]);
    assert_eq!(placements.len(), 3);
    assert!(placements[0].is_some());
    assert_eq!(placements[1], None);
    assert!(placements[2].is_some());
}

#[test]
fn atlas_frames_show_each_generation() {
    let mut s = Scorer::with_side(3);
    for g in 0..2u16 {
        s.add_snapshot((0..9).map(|i| i * 10 + g).collect());
    }
    let frames = s.atlas_frames(&[None, Some((1, 1))]);
    assert_eq!(frames.len(), 2);
    for (g, frame) in frames.into_iter().enumerate() {
        let pixels = frame.into_pixels();
        let at = |x: usize, y: usize| pixels[y * FRAME_WIDTH + x];
        // Slot 1 starts at (43, 1); the clip centre is 20 further on.
        assert_eq!(at(43 + 20, 1 + 20), (40 + g) as u8);
        // Its top left corner is cell (2, 2).
        assert_eq!(at(43, 1), (80 + g) as u8);
        // Slot 0 is empty.
        assert_eq!(at(10, 10), 0);
        assert_eq!(at(0, 10), 0);
        assert_eq!(at(42, 10), 0);
    }
}
