use std::cmp::Ordering;

use rmr::point::Point;

#[test]
fn point_from_pair() {
    let point = Point::from((3, 7));
    assert_eq!(3, point.x);
    assert_eq!(7, point.y);
    assert_eq!(Point { x: 3, y: 7 }, (3, 7).into());
}

#[test]
fn point_order_puts_the_top_row_last() {
    let top = Point { x: 5, y: 0 };
    let bottom = Point { x: 0, y: 9 };
    assert_eq!(Some(Ordering::Greater), top.partial_cmp(&bottom));
    assert_eq!(Some(Ordering::Less), bottom.partial_cmp(&top));
    assert!(bottom < top);
}

#[test]
fn point_order_puts_the_left_column_last_within_a_row() {
    let left = Point { x: 1, y: 4 };
    let right = Point { x: 2, y: 4 };
    assert_eq!(Some(Ordering::Greater), left.partial_cmp(&right));
    assert_eq!(Some(Ordering::Less), right.partial_cmp(&left));
    assert_eq!(Some(Ordering::Equal), left.partial_cmp(&left));
    assert!(right < left);
    assert!(left >= left);
}
