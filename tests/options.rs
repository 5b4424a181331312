use lattice_explorer::options::{Options, PARAMETER_SPACE};

#[test]
fn default_options() {
    let o = Options::default();
    assert!(o.kernel_arguments.iter().all(|a| *a == 0));
    assert_eq!(o.kernel_arguments.len(), PARAMETER_SPACE);
    assert_eq!(o.offset, [0, 0]);
    assert_eq!(o.zoom, 1);
    assert_eq!(o.rate, 1);
    assert_eq!(o.skip, 0);
    assert!(o.reset);
}

#[test]
fn zoom_stays_within_bounds() {
    let mut o = Options::default();
    o.offset_zoom(false);
    assert_eq!(o.zoom, 1);
    for _ in 0..10 {
        o.offset_zoom(true);
    }
    assert_eq!(o.zoom, 4);
    o.offset_zoom(false);
    assert_eq!(o.zoom, 3);
}

#[test]
fn rate_doubles_and_halves() {
    let mut o = Options::default();
    o.offset_rate(true);
    assert_eq!(o.rate, 2);
    o.offset_rate(true);
    assert_eq!(o.rate, 4);
    o.offset_rate(false);
    assert_eq!(o.rate, 2);
    o.offset_rate(false);
    o.offset_rate(false);
    assert_eq!(o.rate, 0);
    o.offset_rate(true);
    assert_eq!(o.rate, 1);
}

#[test]
fn pause_skip_and_after_frame() {
    let mut o = Options::default();
    o.pause();
    assert_eq!(o.rate, 0);
    o.skip_frames(3);
    o.reset_world();
    assert_eq!(o.skip, 4);
    assert!(o.reset);
    o.after_frame();
    assert_eq!(o.skip, 0);
    assert!(!o.reset);
}

#[test]
fn active_parameters_drop_trailing_zeros() {
    let mut o = Options::default();
    o.kernel_arguments[0] = 3;
    o.kernel_arguments[1] = 0;
    o.kernel_arguments[2] = 2;
    assert_eq!(o.active_parameters(), vec![3, 0, 2]);
    let z = Options::default();
    assert!(z.active_parameters().is_empty());
}
