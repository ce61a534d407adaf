use rmr::math::wrap_to_bounds;

#[test]
fn wrap_to_bounds_test() {
    assert_eq!(9, wrap_to_bounds(-1, 0, 10));
    assert_eq!(12, wrap_to_bounds(2, 10, 20));
    assert_eq!(-5, wrap_to_bounds(-15, -10, 0));
}

#[test]
fn math_wrap_to_bounds_test() {
    assert_eq!(9, wrap_to_bounds(-1, 0, 10));
    assert_eq!(12, wrap_to_bounds(2, 10, 20));
    assert_eq!(-5, wrap_to_bounds(-15, -10, 0));
}

#[test]
fn wrap_to_bounds_keeps_what_is_inside() {
    assert_eq!(0, wrap_to_bounds(0, 0, 10));
    assert_eq!(9, wrap_to_bounds(9, 0, 10));
    assert_eq!(-10, wrap_to_bounds(-10, -10, 0));
}

#[test]
fn wrap_to_bounds_wraps_at_both_ends() {
    assert_eq!(0, wrap_to_bounds(10, 0, 10));
    assert_eq!(0, wrap_to_bounds(-10, 0, 10));
    assert_eq!(0, wrap_to_bounds(-20, 0, 10));
    assert_eq!(3, wrap_to_bounds(-27, 0, 10));
    assert_eq!(7, wrap_to_bounds(27, 0, 10));
    assert_eq!(-1, wrap_to_bounds(-11, -10, 0));
}

#[test]
fn wrap_to_bounds_takes_the_widest_range() {
    assert_eq!(isize::MIN, wrap_to_bounds(isize::MIN, isize::MIN, isize::MAX));
    assert_eq!(isize::MIN, wrap_to_bounds(isize::MAX, isize::MIN, isize::MAX));
    assert_eq!(isize::MAX - 2, wrap_to_bounds(-2, 0, isize::MAX));
    assert_eq!(0, wrap_to_bounds(isize::MIN, 0, 1));
}
