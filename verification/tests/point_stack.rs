use rmr::point_stack::PointStack;

#[test]
fn creation() {
    let mut stack = PointStack::new();
    assert_eq!(None, stack.pop());
}

#[test]
fn point_stack_needs_a_path_to_hand_out_inserted_points() {
    let mut stack = PointStack::new();
    stack.insert((1, 1));
    assert_eq!(None, stack.pop());
}

#[test]
fn point_stack_hands_out_a_path_from_the_top_row_down() {
    let mut stack = PointStack::new();
    stack.fill_path(vec![(0, 0), (1, 2), (2, 1), (3, 2), (4, 0)]);
    // The path lies by descending row, so the top row comes off its end first,
    // the point that came last in a row before the others of that row.
    assert_eq!(Some((4, 0)), stack.pop());
    assert_eq!(Some((0, 0)), stack.pop());
    // At the border nothing was collected, so it is skipped.
    assert_eq!(Some((2, 1)), stack.pop());
    assert_eq!(Some((3, 2)), stack.pop());
    assert_eq!(Some((1, 2)), stack.pop());
    assert_eq!(None, stack.pop());
}

#[test]
fn point_stack_hands_out_collected_points_at_a_border() {
    let mut stack = PointStack::new();
    stack.fill_path(vec![(5, 1), (6, 0)]);
    assert_eq!(Some((6, 0)), stack.pop());
    stack.insert((7, 7));
    stack.insert((8, 8));
    assert_eq!(Some((8, 8)), stack.pop());
    assert_eq!(Some((7, 7)), stack.pop());
    assert_eq!(Some((5, 1)), stack.pop());
    assert_eq!(None, stack.pop());
}

#[test]
fn point_stack_fills_on_top_of_what_is_there() {
    let mut stack = PointStack::new();
    stack.fill_path(vec![(1, 1)]);
    stack.fill_path(vec![(2, 5), (3, 5)]);
    assert_eq!(Some((3, 5)), stack.pop());
    assert_eq!(Some((2, 5)), stack.pop());
    assert_eq!(Some((1, 1)), stack.pop());
    assert_eq!(None, stack.pop());
}
