use lattice_explorer::odometer::{decrement, increment, step_fits};
use lattice_explorer::options::{Options, PARAMETER_SPACE};

fn params(prefix: &[i16]) -> [i16; PARAMETER_SPACE] {
    let mut a = [0i16; PARAMETER_SPACE];
    a[..prefix.len()].copy_from_slice(prefix);
    a
}

#[test]
fn increment_carries_leftward() {
    let mut v = params(&[2, 1, 0]);
    increment(&mut v);
    assert_eq!(&v[..3], &[2, 1, 1]);
    increment(&mut v);
    assert_eq!(&v[..3], &[2, 2, 0]);
}

#[test]
fn increment_of_two_one_one_carries_at_once() {
    let mut v = params(&[2, 1, 1]);
    increment(&mut v);
    assert_eq!(&v[..3], &[2, 2, 0]);
}

#[test]
fn increment_carries_through_several_digits() {
    let mut v = params(&[3, 0, 2, 2, 9]);
    increment(&mut v);
    assert_eq!(&v[..5], &[3, 1, 0, 0, 9]);
}

#[test]
fn leading_digit_is_never_wrapped() {
    let mut v = params(&[2, 7, 1]);
    increment(&mut v);
    assert_eq!(&v[..3], &[2, 8, 0]);
}

#[test]
fn divisor_one_counts_in_the_leading_digit() {
    let mut v = params(&[1, 4]);
    increment(&mut v);
    assert_eq!(&v[..2], &[1, 5]);
    decrement(&mut v);
    decrement(&mut v);
    assert_eq!(&v[..2], &[1, 3]);
}

#[test]
fn decrement_borrows_leftward() {
    let mut v = params(&[3, 1, 0, 0]);
    decrement(&mut v);
    assert_eq!(&v[..4], &[3, 0, 2, 2]);
}

#[test]
fn decrement_below_zero_gives_negative_leading_digit() {
    let mut v = params(&[2, 0, 0]);
    decrement(&mut v);
    assert_eq!(&v[..3], &[2, -1, 1]);
}

#[test]
fn padding_is_left_alone() {
    let mut v = params(&[2, 0, 1, 5, 6]);
    increment(&mut v);
    assert_eq!(&v[..5], &[2, 1, 0, 5, 6]);
}

#[test]
fn round_trip_over_many_vectors() {
    for d in 1..5i16 {
        let mut v = params(&[d]);
        for _ in 0..200 {
            let before = v;
            increment(&mut v);
            let mut back = v;
            decrement(&mut back);
            assert_eq!(back, before);
            let mut forth = before;
            decrement(&mut forth);
            increment(&mut forth);
            assert_eq!(forth, before);
        }
    }
}

#[test]
fn offset_arguments_moves_and_resets() {
    let mut o = Options::default();
    o.kernel_arguments[0] = 2;
    o.reset = false;
    o.offset_arguments(true);
    assert_eq!(&o.kernel_arguments[..3], &[2, 0, 1]);
    assert!(o.reset);
    assert_eq!(o.skip, 1);
    o.offset_arguments(false);
    assert_eq!(&o.kernel_arguments[..3], &[2, 0, 0]);
    assert_eq!(o.skip, 2);
}

#[test]
fn leading_digit_at_the_limit_is_fine_without_a_carry() {
    let mut v = params(&[2, i16::MAX, 0]);
    assert!(step_fits(&v, true));
    increment(&mut v);
    assert_eq!(&v[..3], &[2, i16::MAX, 1]);
    assert!(!step_fits(&v, true));
    let mut w = params(&[2, i16::MIN, 1]);
    assert!(step_fits(&w, false));
    decrement(&mut w);
    assert_eq!(&w[..3], &[2, i16::MIN, 0]);
    assert!(!step_fits(&w, false));
    increment(&mut w);
    assert_eq!(&w[..3], &[2, i16::MIN, 1]);
}
