//! A coordinate with an order in which the topmost, leftmost cell is greatest.

use core::cmp::Ordering;
use vstd::prelude::*;
use vstd::std_specs::cmp::PartialOrdSpecImpl;
use vstd::std_specs::convert::FromSpecImpl;

verus! {

/// A cell of the picture. Points are ordered by row, then by column, both
/// reversed, so that a heap of points that yields its greatest first walks the
/// picture row by row from the top, each row from the left.
#[derive(Clone, Copy, Debug, Eq, PartialEq, Structural)]
pub struct Point {
    pub x: usize,
    pub y: usize,
}

impl From<(usize, usize)> for Point {
    fn from(pair: (usize, usize)) -> (point: Self) {
        Point { x: pair.0, y: pair.1 }
    }
}

impl FromSpecImpl<(usize, usize)> for Point {
    open spec fn obeys_from_spec() -> bool {
        true
    }

    open spec fn from_spec(pair: (usize, usize)) -> Self {
        Point { x: pair.0, y: pair.1 }
    }
}

impl Point {
    /// How `self` stands to `other`: less where it lies in a later row, or in
    /// the same row further right.
    pub open spec fn order(&self, other: &Point) -> Ordering {
        if self.y > other.y {
            Ordering::Less
        } else if self.y < other.y {
            Ordering::Greater
        } else if self.x > other.x {
            Ordering::Less
        } else if self.x < other.x {
            Ordering::Greater
        } else {
            Ordering::Equal
        }
    }
}

impl PartialOrd for Point {
    fn partial_cmp(&self, other: &Point) -> (order: Option<Ordering>) {
        if self.y > other.y {
            Some(Ordering::Less)
        } else if self.y < other.y {
            Some(Ordering::Greater)
        } else if self.x > other.x {
            Some(Ordering::Less)
        } else if self.x < other.x {
            Some(Ordering::Greater)
        } else {
            Some(Ordering::Equal)
        }
    }
}

impl PartialOrdSpecImpl for Point {
    open spec fn obeys_partial_cmp_spec() -> bool {
        true
    }

    open spec fn partial_cmp_spec(&self, other: &Point) -> Option<Ordering> {
        Some(self.order(other))
    }
}

} // verus!
