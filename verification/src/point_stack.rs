//! A stack of points that is read row by row: a prepared path, cut into rows by
//! markers, and the points collected for the row that is being read.

use vstd::prelude::*;

verus! {

type Point = (usize, usize);

/// `path` holds the points still to be handed out, the last one first; a `None`
/// in it marks the border between two rows. `next_row` holds the points that
/// were inserted since; they are handed out, the last one first, whenever a
/// border is reached.
#[derive(Clone)]
pub struct PointStack {
    path: Vec<Option<Point>>,
    next_row: Vec<Point>,
}

/// What `pop` hands out and what it leaves of `path` and `next_row`.
pub open spec fn popped(path: Seq<Option<Point>>, next_row: Seq<Point>) -> (
    Option<Point>,
    Seq<Option<Point>>,
    Seq<Point>,
)
    decreases path.len(),
{
    if path.len() == 0 {
        (None, path, next_row)
    } else if path.last() is Some {
        (path.last(), path.drop_last(), next_row)
    } else if next_row.len() > 0 {
        (Some(next_row.last()), path, next_row.drop_last())
    } else {
        popped(path.drop_last(), next_row)
    }
}

/// `sorted` with `point` put in behind the last point that lies at least as low.
pub open spec fn placed(sorted: Seq<Point>, point: Point) -> Seq<Point>
    decreases sorted.len(),
{
    if sorted.len() == 0 || sorted.last().1 >= point.1 {
        sorted.push(point)
    } else {
        placed(sorted.drop_last(), point).push(sorted.last())
    }
}

/// The points by descending row; points of one row keep their order.
pub open spec fn sorted_by_row(points: Seq<Point>) -> Seq<Point>
    decreases points.len(),
{
    if points.len() == 0 {
        points
    } else {
        placed(sorted_by_row(points.drop_last()), points.last())
    }
}

/// The first `n` of `points` as a path: each point, with a marker before every
/// point that lies in another row than the point before it.
pub open spec fn framed(points: Seq<Point>, n: int) -> Seq<Option<Point>>
    decreases n,
{
    if n <= 0 {
        Seq::empty()
    } else if n >= 2 && points[n - 2].1 != points[n - 1].1 {
        framed(points, n - 1).push(None).push(Some(points[n - 1]))
    } else {
        framed(points, n - 1).push(Some(points[n - 1]))
    }
}

/// Placing a point keeps a sequence sorted by descending row, and adds that
/// point and no other.
pub proof fn lemma_placed(sorted: Seq<Point>, point: Point)
    requires
        forall|i: int, j: int| 0 <= i < j < sorted.len() ==> sorted[i].1 >= sorted[j].1,
    ensures
        placed(sorted, point).len() == sorted.len() + 1,
        placed(sorted, point).to_multiset() == sorted.to_multiset().insert(point),
        forall|i: int, j: int|
            0 <= i < j < placed(sorted, point).len() ==> placed(sorted, point)[i].1 >= placed(
                sorted,
                point,
            )[j].1,
        forall|i: int|
            0 <= i < placed(sorted, point).len() ==> #[trigger] placed(sorted, point)[i] == point
                || sorted.contains(placed(sorted, point)[i]),
    decreases sorted.len(),
{
    broadcast use vstd::seq_lib::group_to_multiset_ensures;

    let after = placed(sorted, point);
    if sorted.len() == 0 || sorted.last().1 >= point.1 {
        assert forall|i: int| 0 <= i < after.len() implies #[trigger] after[i] == point
            || sorted.contains(after[i]) by {
            if i < sorted.len() {
                assert(sorted[i] == after[i]);
            }
        }
    } else {
        let front = sorted.drop_last();
        lemma_placed(front, point);
        let inner = placed(front, point);
        assert(sorted =~= front.push(sorted.last()));
        assert(after == inner.push(sorted.last()));
        assert(inner.to_multiset().insert(sorted.last()) =~= sorted.to_multiset().insert(point));
        assert forall|i: int| 0 <= i < after.len() implies #[trigger] after[i] == point
            || sorted.contains(after[i]) by {
            if i < inner.len() {
                assert(after[i] == inner[i]);
                if inner[i] != point {
                    assert(front.contains(inner[i]));
                    let k = choose|k: int| 0 <= k < front.len() && front[k] == inner[i];
                    assert(sorted[k] == inner[i]);
                }
            } else {
                assert(sorted[sorted.len() - 1] == after[i]);
            }
        }
        assert forall|i: int, j: int| 0 <= i < j < after.len() implies after[i].1 >= after[j].1 by {
            if j == after.len() - 1 {
                assert(after[i] == inner[i]);
                if inner[i] != point {
                    assert(front.contains(inner[i]));
                    let k = choose|k: int| 0 <= k < front.len() && front[k] == inner[i];
                    assert(sorted[k].1 >= sorted[sorted.len() - 1].1);
                }
            } else {
                assert(after[i] == inner[i] && after[j] == inner[j]);
            }
        }
    }
}

/// The sorted sequence lies by descending row and holds the same points, each
/// as often as `points` does.
pub proof fn lemma_sorted_by_row(points: Seq<Point>)
    ensures
        sorted_by_row(points).len() == points.len(),
        sorted_by_row(points).to_multiset() == points.to_multiset(),
        forall|i: int, j: int|
            0 <= i < j < points.len() ==> sorted_by_row(points)[i].1 >= sorted_by_row(points)[j].1,
    decreases points.len(),
{
    broadcast use vstd::seq_lib::group_to_multiset_ensures;

    if points.len() > 0 {
        lemma_sorted_by_row(points.drop_last());
        lemma_placed(sorted_by_row(points.drop_last()), points.last());
        assert(points =~= points.drop_last().push(points.last()));
    }
}

/// Sorts by descending row; points of one row keep their order.
fn sort_by_row(points: Vec<Point>) -> (sorted: Vec<Point>)
    ensures
        sorted@ == sorted_by_row(points@),
{
    let mut sorted: Vec<Point> = Vec::new();
    let mut i: usize = 0;
    while i < points.len()
        invariant
            i <= points@.len(),
            sorted@ == sorted_by_row(points@.take(i as int)),
        decreases points@.len() - i,
    {
        let point = points[i];
        let mut j: usize = sorted.len();
        proof {
            assert(sorted@.take(j as int) =~= sorted@);
            assert(placed(sorted@, point) + sorted@.skip(j as int) =~= placed(sorted@, point));
        }
        while j > 0 && sorted[j - 1].1 < point.1
            invariant
                j <= sorted@.len(),
                placed(sorted@, point) == placed(sorted@.take(j as int), point) + sorted@.skip(
                    j as int,
                ),
            decreases j,
        {
            proof {
                let front = sorted@.take(j as int);
                assert(front.drop_last() =~= sorted@.take(j - 1));
                assert(front.last() == sorted@[j - 1]);
                assert(placed(front, point) == placed(sorted@.take(j - 1), point).push(
                    sorted@[j - 1],
                ));
                assert(placed(sorted@.take(j - 1), point).push(sorted@[j - 1]) + sorted@.skip(
                    j as int,
                ) =~= placed(sorted@.take(j - 1), point) + sorted@.skip(j - 1));
            }
            j -= 1;
        }
        proof {
            let front = sorted@.take(j as int);
            if j > 0 {
                assert(front.last() == sorted@[j - 1]);
            }
            assert(placed(front, point) == front.push(point));
            assert(front.push(point) + sorted@.skip(j as int) =~= sorted@.insert(j as int, point));
            let next = points@.take(i + 1);
            assert(next.drop_last() =~= points@.take(i as int));
            assert(next.last() == point);
        }
        sorted.insert(j, point);
        i += 1;
    }
    proof {
        assert(points@.take(points@.len() as int) =~= points@);
        assert(sorted@.take(sorted@.len() as int) =~= sorted@);
    }
    sorted
}

impl PointStack {
    /// The prepared path, the point handed out next at its end.
    pub closed spec fn path(&self) -> Seq<Option<Point>> {
        self.path@
    }

    /// The points collected for the row that is being read.
    pub closed spec fn next_row(&self) -> Seq<Point> {
        self.next_row@
    }

    /// An empty stack.
    pub fn new() -> (stack: Self)
        ensures
            stack.path() == Seq::<Option<Point>>::empty(),
            stack.next_row() == Seq::<Point>::empty(),
    {
        PointStack { path: Vec::new(), next_row: Vec::new() }
    }

    /// Collects `point` for the row that is being read.
    pub fn insert(&mut self, point: Point)
        ensures
            final(self).path() == old(self).path(),
            final(self).next_row() == old(self).next_row().push(point),
    {
        self.next_row.push(point)
    }

    /// Hands out the next point: the end of the path where that is a point;
    /// at a border, the point collected last; and where nothing was collected,
    /// what comes after the border. `None` when the path is used up.
    pub fn pop(&mut self) -> (point: Option<Point>)
        ensures
            point == popped(old(self).path(), old(self).next_row()).0,
            final(self).path() == popped(old(self).path(), old(self).next_row()).1,
            final(self).next_row() == popped(old(self).path(), old(self).next_row()).2,
        decreases old(self).path().len(),
    {
        if self.path.is_empty() {
            return None;
        } else {
            if self.path[self.path.len() - 1].is_some() {
                return self.path.pop().unwrap();
            }
        }

        match self.next_row.pop() {
            Some(point) => Some(point),
            None => {
                self.path.pop();
                self.pop()
            },
        }
    }

    /// Appends `points` to the path, by descending row, with a border between
    /// rows. The points of the lowest row end up deepest in the path.
    pub fn fill_path(&mut self, points: Vec<Point>)
        requires
            points@.len() > 0,
        ensures
            final(self).path() == old(self).path() + framed(
                sorted_by_row(points@),
                points@.len() as int,
            ),
            final(self).next_row() == old(self).next_row(),
    {
        proof {
            lemma_sorted_by_row(points@);
        }
        let sorted = sort_by_row(points);
        let ghost start = self.path@;

        let mut prev_y = sorted[0].1;
        let mut i: usize = 0;
        while i < sorted.len()
            invariant
                i <= sorted@.len(),
                sorted@.len() > 0,
                self.next_row == old(self).next_row,
                self.path@ == start + framed(sorted@, i as int),
                i == 0 ==> prev_y == sorted@[0].1,
                i > 0 ==> prev_y == sorted@[i - 1].1,
            decreases sorted@.len() - i,
        {
            let point = sorted[i];
            if prev_y != point.1 {
                prev_y = point.1;
                self.path.push(None);
            }
            self.path.push(Some(point));
            proof {
                assert(self.path@ =~= start + framed(sorted@, i + 1));
            }
            i += 1;
        }
    }
}

} // verus!
