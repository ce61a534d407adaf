//! A picture of what the carver touched.

use crate::energy::Pixel;
use vstd::prelude::*;

verus! {

/// The colour that marks a touched pixel: opaque red.
pub open spec fn marker() -> Pixel {
    Pixel { r: 255, g: 0, b: 0, a: 255 }
}

/// Whether `(x, y)` is one of `points`.
pub open spec fn is_marked(points: Seq<(usize, usize)>, x: int, y: int) -> bool {
    exists|k: int| 0 <= k < points.len() && (#[trigger] points[k]).0 == x && points[k].1 == y
}

/// A copy of `image` with the marker colour at each of `points`, which are
/// coordinates `(x, y)` of `image`.
pub fn create_debug_image(image: &Vec<Vec<Pixel>>, points: &[(usize, usize)]) -> (marked: Vec<
    Vec<Pixel>,
>)
    requires
        forall|k: int|
            0 <= k < points@.len() ==> (#[trigger] points@[k]).1 < image@.len() && points@[k].0
                < image@[points@[k].1 as int]@.len(),
    ensures
        marked@.len() == image@.len(),
        forall|y: int| 0 <= y < image@.len() ==> (#[trigger] marked@[y])@.len() == image@[y]@.len(),
        forall|x: int, y: int|
            0 <= y < image@.len() && 0 <= x < image@[y]@.len() ==> #[trigger] marked@[y]@[x] == (
            if is_marked(points@, x, y) {
                marker()
            } else {
                image@[y]@[x]
            }),
{
    let red_pixel = Pixel::new(255, 0, 0, 255);
    let mut marked: Vec<Vec<Pixel>> = Vec::new();
    let mut y: usize = 0;
    while y < image.len()
        invariant
            y <= image@.len(),
            marked@.len() == y,
            forall|j: int| 0 <= j < y ==> (#[trigger] marked@[j])@ == image@[j]@,
        decreases image@.len() - y,
    {
        let mut row: Vec<Pixel> = Vec::new();
        let mut x: usize = 0;
        while x < image[y].len()
            invariant
                y < image@.len(),
                x <= image@[y as int]@.len(),
                row@ == image@[y as int]@.take(x as int),
            decreases image@[y as int]@.len() - x,
        {
            row.push(image[y][x]);
            proof {
                assert(row@ =~= image@[y as int]@.take(x + 1));
            }
            x += 1;
        }
        proof {
            assert(row@ =~= image@[y as int]@);
        }
        marked.push(row);
        y += 1;
    }

    let mut k: usize = 0;
    while k < points.len()
        invariant
            k <= points@.len(),
            red_pixel == marker(),
            marked@.len() == image@.len(),
            forall|j: int| 0 <= j < image@.len() ==> (#[trigger] marked@[j])@.len() == image@[j]@.len(),
            forall|i: int|
                0 <= i < points@.len() ==> (#[trigger] points@[i]).1 < image@.len() && points@[i].0
                    < image@[points@[i].1 as int]@.len(),
            forall|i: int, j: int|
                0 <= j < image@.len() && 0 <= i < image@[j]@.len() ==> #[trigger] marked@[j]@[i] == (
                if is_marked(points@.take(k as int), i, j) {
                    marker()
                } else {
                    image@[j]@[i]
                }),
        decreases points@.len() - k,
    {
        let (x, y) = points[k];
        let ghost before = marked@;
        marked[y][x] = red_pixel;
        proof {
            let seen = points@.take(k as int);
            let next = points@.take(k + 1);
            assert(next[k as int] == (x, y));
            assert forall|i: int, j: int|
                0 <= j < image@.len() && 0 <= i < image@[j]@.len() implies #[trigger] marked@[j]@[i]
                == (if is_marked(next, i, j) {
                marker()
                } else {
                image@[j]@[i]
            }) by {
                assert(before[j]@[i] == (if is_marked(seen, i, j) {
                    marker()
                } else {
                    image@[j]@[i]
                }));
                if is_marked(seen, i, j) {
                    let n = choose|n: int|
                        0 <= n < seen.len() && (#[trigger] seen[n]).0 == i && seen[n].1 == j;
                    assert(next[n] == seen[n]);
                }
                if is_marked(next, i, j) && !(i == x && j == y) {
                    let n = choose|n: int|
                        0 <= n < next.len() && (#[trigger] next[n]).0 == i && next[n].1 == j;
                    assert(seen[n] == next[n]);
                }
            }
        }
        k += 1;
    }
    proof {
        assert(points@.take(points@.len() as int) =~= points@);
    }
    marked
}

} // verus!
