//! The mathematical model of a carver: the picture as a sequence of rows, the
//! cells that wait for a new energy, and the log of removed coordinates, with
//! the energy, the path cost and the seams defined on it.

use crate::energy::{
    lemma_square_gradient_bounds, spec_average, spec_point, spec_square_gradient, Pixel,
    PixelEnergyPoint,
};
use vstd::prelude::*;

verus! {

/// The greatest energy of a cell: two gradients of four channels each.
pub const MAX_ENERGY: u32 = 520200;

/// The greatest width or height that a carver takes. A path cost is a sum of at
/// most this many energies, and `MAX_SIDE * MAX_ENERGY` still fits in 32 bits.
pub const MAX_SIDE: usize = 8256;

/// What a carver holds, as plain mathematics.
pub struct CarverView {
    /// The cells in the current orientation: `rows[y][x]`.
    pub rows: Seq<Seq<PixelEnergyPoint>>,
    /// The length of every row.
    pub width: int,
    /// The cells that a pending token marks for a new energy.
    pub dirty: Set<(int, int)>,
    /// The original coordinates of the cells removed or doubled so far.
    pub removed: Seq<(usize, usize)>,
}

/// The lesser of two costs; the first one on a tie.
pub open spec fn lesser(a: int, b: int) -> int {
    if b < a {
        b
    } else {
        a
    }
}

/// The points of `points` in column `x`, in their order.
pub open spec fn in_column(points: Seq<(usize, usize)>, x: int) -> Seq<(usize, usize)>
    decreases points.len(),
{
    if points.len() == 0 {
        points
    } else {
        let before = in_column(points.drop_last(), x);
        if points.last().0 == x {
            before.push(points.last())
        } else {
            before
        }
    }
}

/// The points of `points` that lie in the first `width` columns, by descending
/// column; points of one column keep their order.
pub open spec fn sorted_by_column(points: Seq<(usize, usize)>, width: int) -> Seq<(usize, usize)>
    decreases width,
{
    if width <= 0 {
        Seq::empty()
    } else {
        in_column(points, width - 1) + sorted_by_column(points, width - 1)
    }
}

/// A point in column `x` of `points` is a point of `points`.
pub proof fn lemma_in_column_members(points: Seq<(usize, usize)>, x: int)
    ensures
        forall|k: int|
            0 <= k < in_column(points, x).len() ==> (#[trigger] in_column(points, x)[k]).0 == x
                && points.contains(in_column(points, x)[k]),
    decreases points.len(),
{
    if points.len() > 0 {
        let before = in_column(points.drop_last(), x);
        lemma_in_column_members(points.drop_last(), x);
        assert forall|k: int| 0 <= k < in_column(points, x).len() implies (#[trigger] in_column(
            points,
            x,
        )[k]).0 == x && points.contains(in_column(points, x)[k]) by {
            if k < before.len() {
                let p = before[k];
                assert(points.drop_last().contains(p));
                let j = choose|j: int| 0 <= j < points.drop_last().len() && points.drop_last()[j] == p;
                assert(points[j] == p);
            } else {
                assert(points[points.len() - 1] == points.last());
            }
        }
    }
}

/// A point of the sorted sequence is a point of `points` in one of the first
/// `width` columns.
pub proof fn lemma_sorted_members(points: Seq<(usize, usize)>, width: int)
    ensures
        forall|k: int|
            0 <= k < sorted_by_column(points, width).len() ==> (#[trigger] sorted_by_column(
                points,
                width,
            )[k]).0 < width && points.contains(sorted_by_column(points, width)[k]),
    decreases width,
{
    if width > 0 {
        lemma_in_column_members(points, width - 1);
        lemma_sorted_members(points, width - 1);
        let first = in_column(points, width - 1);
        let rest = sorted_by_column(points, width - 1);
        let all = sorted_by_column(points, width);
        assert forall|k: int| 0 <= k < all.len() implies (#[trigger] all[k]).0 < width
            && points.contains(all[k]) by {
            if k < first.len() {
                assert(all[k] == first[k]);
            } else {
                assert(all[k] == rest[k - first.len()]);
            }
        }
    }
}

/// Whether the row `after` is the row `before` without one cell whose original
/// coordinate is `flagged`: the cells left of it stay, and those right of it
/// move one column to the left, each with its pixel and original coordinate.
pub open spec fn loses_one(
    before: Seq<PixelEnergyPoint>,
    after: Seq<PixelEnergyPoint>,
    flagged: (usize, usize),
) -> bool {
    exists|c: int|
        {
            &&& 0 <= c < before.len()
            &&& (#[trigger] before[c]).original_position == flagged
            &&& after.len() == before.len() - 1
            &&& forall|i: int|
                0 <= i < after.len() ==> {
                    let from = if i < c {
                        before[i]
                    } else {
                        before[i + 1]
                    };
                    (#[trigger] after[i]).pixel == from.pixel && after[i].original_position
                        == from.original_position
                }
        }
}

impl CarverView {
    pub open spec fn height(self) -> int {
        self.rows.len() as int
    }

    pub open spec fn in_bounds(self, x: int, y: int) -> bool {
        0 <= x < self.width && 0 <= y < self.height()
    }

    pub open spec fn cell(self, x: int, y: int) -> PixelEnergyPoint {
        self.rows[y][x]
    }

    /// Every row is `width` long, both sides are between 1 and `MAX_SIDE`, and no
    /// stored energy is more than `MAX_ENERGY`.
    pub open spec fn wf(self) -> bool {
        &&& 1 <= self.width <= MAX_SIDE
        &&& 1 <= self.height() <= MAX_SIDE
        &&& forall|y: int| 0 <= y < self.height() ==> (#[trigger] self.rows[y]).len() == self.width
        &&& forall|x: int, y: int|
            self.in_bounds(x, y) ==> (#[trigger] self.cell(x, y)).energy <= MAX_ENERGY
    }

    /// The picture that a carver starts from: the pixels with no energy and no
    /// path cost, each at its original coordinate; nothing marked, nothing logged.
    pub open spec fn of_pixels(pixels: Seq<Seq<Pixel>>) -> Self {
        CarverView {
            rows: Seq::new(
                pixels.len(),
                |y: int|
                    Seq::new(
                        pixels[0].len(),
                        |x: int|
                            PixelEnergyPoint {
                                pixel: pixels[y][x],
                                energy: 0,
                                path_cost: 0,
                                original_position: (x as usize, y as usize),
                            },
                    ),
            ),
            width: pixels[0].len() as int,
            dirty: Set::empty(),
            removed: Seq::empty(),
        }
    }

    /// The pixels of the picture, row by row.
    pub open spec fn pixels(self) -> Seq<Seq<Pixel>> {
        Seq::new(
            self.height() as nat,
            |y: int| Seq::new(self.width as nat, |x: int| self.cell(x, y).pixel),
        )
    }

    /// The picture with the value of one cell replaced.
    pub open spec fn with_cell(self, x: int, y: int, value: PixelEnergyPoint) -> Self {
        CarverView { rows: self.rows.update(y, self.rows[y].update(x, value)), ..self }
    }

    /// The picture with its axes swapped.
    pub open spec fn transposed(self) -> Self {
        CarverView {
            rows: Seq::new(
                self.width as nat,
                |y: int| Seq::new(self.height() as nat, |x: int| self.cell(y, x)),
            ),
            width: self.height(),
            dirty: Set::new(|p: (int, int)| self.dirty.contains((p.1, p.0))),
            removed: self.removed,
        }
    }

    /// Whether every original coordinate, in a cell or in the log, lies in a
    /// picture `w` wide and `h` high.
    pub open spec fn within(self, w: int, h: int) -> bool {
        &&& forall|x: int, y: int|
            self.in_bounds(x, y) ==> (#[trigger] self.cell(x, y)).original_position.0 < w
                && self.cell(x, y).original_position.1 < h
        &&& forall|k: int|
            0 <= k < self.removed.len() ==> (#[trigger] self.removed[k]).0 < w && self.removed[k].1
                < h
    }

    pub open spec fn left_of(self, x: int) -> int {
        if x == 0 {
            self.width - 1
        } else {
            x - 1
        }
    }

    pub open spec fn right_of(self, x: int) -> int {
        if x == self.width - 1 {
            0
        } else {
            x + 1
        }
    }

    pub open spec fn up_of(self, y: int) -> int {
        if y == 0 {
            self.height() - 1
        } else {
            y - 1
        }
    }

    pub open spec fn down_of(self, y: int) -> int {
        if y == self.height() - 1 {
            0
        } else {
            y + 1
        }
    }

    /// The energy of `(x, y)`: the gradient between its left and right
    /// neighbours plus the gradient between its upper and lower neighbours, where
    /// a neighbour beyond an edge is the cell at the opposite edge.
    pub open spec fn energy_at(self, x: int, y: int) -> int {
        spec_square_gradient(
            self.cell(self.left_of(x), y).pixel,
            self.cell(self.right_of(x), y).pixel,
        ) + spec_square_gradient(
            self.cell(x, self.up_of(y)).pixel,
            self.cell(x, self.down_of(y)).pixel,
        )
    }

    /// The cell `(x, y)` with its energy computed anew.
    pub open spec fn refreshed(self, x: int, y: int) -> PixelEnergyPoint {
        PixelEnergyPoint { energy: self.energy_at(x, y) as u32, ..self.cell(x, y) }
    }

    /// The full energy pass: every cell gets its energy, and nothing waits for
    /// one any more.
    pub open spec fn with_all_energy(self) -> Self {
        CarverView {
            rows: Seq::new(
                self.height() as nat,
                |y: int| Seq::new(self.width as nat, |x: int| self.refreshed(x, y)),
            ),
            dirty: Set::empty(),
            ..self
        }
    }

    /// The incremental energy pass: the cells that wait for a new energy get it,
    /// and nothing waits for one any more.
    pub open spec fn with_dirty_energy(self) -> Self {
        CarverView {
            rows: Seq::new(
                self.height() as nat,
                |y: int|
                    Seq::new(
                        self.width as nat,
                        |x: int|
                            if self.dirty.contains((x, y)) {
                                self.refreshed(x, y)
                            } else {
                                self.cell(x, y)
                            },
                    ),
            ),
            dirty: Set::empty(),
            ..self
        }
    }

    /// The least cost among the parents of `(x, y)`, for `y >= 1`: the cells of
    /// row `y - 1` in the columns `x - 1`, `x` and `x + 1` that exist.
    pub open spec fn least_parent_cost(self, x: int, y: int) -> int
        decreases y, 0int,
    {
        if y <= 0 {
            0
        } else {
            let mid = self.cost_at(x, y - 1);
            let low = if x > 0 {
                lesser(self.cost_at(x - 1, y - 1), mid)
            } else {
                mid
            };
            if x + 1 < self.width {
                lesser(low, self.cost_at(x + 1, y - 1))
            } else {
                low
            }
        }
    }

    /// The path cost of `(x, y)`: its stored energy plus the least path cost among
    /// its parents; in the top row, its stored energy alone.
    pub open spec fn cost_at(self, x: int, y: int) -> int
        decreases y, 1int,
    {
        if y <= 0 {
            self.cell(x, y).energy as int
        } else {
            self.cell(x, y).energy + self.least_parent_cost(x, y)
        }
    }

    /// The least stored path cost among the parents of `(x, y)`; zero in the
    /// top row, where a cell has no parent.
    pub open spec fn stored_parent_min(self, x: int, y: int) -> int {
        if y <= 0 {
            0
        } else {
            let mid = self.cell(x, y - 1).path_cost as int;
            let low = if x > 0 {
                lesser(self.cell(x - 1, y - 1).path_cost as int, mid)
            } else {
                mid
            };
            if x + 1 < self.width {
                lesser(low, self.cell(x + 1, y - 1).path_cost as int)
            } else {
                low
            }
        }
    }

    /// The cumulative-cost sweep: every cell gets its path cost.
    pub open spec fn with_costs(self) -> Self {
        CarverView {
            rows: Seq::new(
                self.height() as nat,
                |y: int|
                    Seq::new(
                        self.width as nat,
                        |x: int|
                            PixelEnergyPoint {
                                path_cost: self.cost_at(x, y) as u32,
                                ..self.cell(x, y)
                            },
                    ),
            ),
            ..self
        }
    }

    /// Every stored path cost is the path cost of its cell.
    pub open spec fn costs_done(self) -> bool {
        forall|x: int, y: int|
            self.in_bounds(x, y) ==> (#[trigger] self.cell(x, y)).path_cost == self.cost_at(x, y)
    }

    /// The column, among the first `n` of row `y`, with the least stored path
    /// cost; the leftmost one on a tie.
    pub open spec fn leftmost_min(self, y: int, n: int) -> int
        decreases n,
    {
        if n <= 1 {
            0
        } else {
            let best = self.leftmost_min(y, n - 1);
            if self.cell(n - 1, y).path_cost < self.cell(best, y).path_cost {
                n - 1
            } else {
                best
            }
        }
    }

    /// Where a seam starts: the cell of the bottom row with the least stored path
    /// cost, the leftmost one on a tie.
    pub open spec fn path_start(self) -> (int, int) {
        (self.leftmost_min(self.height() - 1, self.width), self.height() - 1)
    }

    /// The column of the parent of `(x, y)` with the least stored path cost, for
    /// `y >= 1`; the leftmost one on a tie.
    pub open spec fn best_parent(self, x: int, y: int) -> int {
        let first = if x > 0 {
            x - 1
        } else {
            x
        };
        let second = if x > 0 && self.cell(x, y - 1).path_cost < self.cell(first, y - 1).path_cost {
            x
        } else {
            first
        };
        if x + 1 < self.width && self.cell(x + 1, y - 1).path_cost < self.cell(
            second,
            y - 1,
        ).path_cost {
            x + 1
        } else {
            second
        }
    }

    /// The seam that ends at `(x, y)`: the cell itself, then, row by row upwards,
    /// the best parent of the cell before, up to the top row.
    pub open spec fn seam(self, x: int, y: int) -> Seq<(int, int)>
        decreases y,
    {
        if y <= 0 {
            seq![(x, y)]
        } else {
            seq![(x, y)] + self.seam(self.best_parent(x, y), y - 1)
        }
    }

    /// Whether `path` is connected and ends at `(x, y)`: it starts there and
    /// climbs one row per step to the top row, moving at most one column
    /// sideways, inside the picture.
    pub open spec fn is_path(self, path: Seq<(int, int)>, x: int, y: int) -> bool {
        &&& path.len() == y + 1
        &&& path[0] == (x, y)
        &&& forall|k: int|
            0 <= k < path.len() ==> (#[trigger] path[k]).1 == y - k && 0 <= path[k].0 < self.width
        &&& forall|k: int|
            0 <= k < path.len() - 1 ==> -1 <= (#[trigger] path[k]).0 - path[k + 1].0 <= 1
    }

    /// The sum of the stored energies along `path`.
    pub open spec fn path_energy(self, path: Seq<(int, int)>) -> int
        decreases path.len(),
    {
        if path.len() == 0 {
            0
        } else {
            self.cell(path[0].0, path[0].1).energy + self.path_energy(path.skip(1))
        }
    }

    /// `dirty` with the four neighbours of `(x, y)` marked, a neighbour beyond an
    /// edge being the cell at the opposite edge.
    pub open spec fn marked(self, dirty: Set<(int, int)>, x: int, y: int) -> Set<(int, int)> {
        dirty.insert((self.left_of(x), y)).insert((self.right_of(x), y)).insert(
            (x, self.up_of(y)),
        ).insert((x, self.down_of(y)))
    }

    /// `dirty` after row `y` was shifted left from column `x`: a mark follows its
    /// cell one column to the left, and the mark of the overwritten cell is lost.
    pub open spec fn shifted_left(self, dirty: Set<(int, int)>, x: int, y: int) -> Set<
        (int, int),
    > {
        Set::new(
            |p: (int, int)|
                if p.1 == y && x <= p.0 < self.width - 1 {
                    dirty.contains((p.0 + 1, p.1))
                } else if p.1 == y && p.0 == self.width - 1 && x < self.width - 1 {
                    false
                } else {
                    dirty.contains(p)
                },
        )
    }

    /// The marks after the first `k` cells of `seam` were taken out: for each in
    /// turn, its four neighbours are marked and its row is shifted left from it.
    pub open spec fn dirty_after(self, seam: Seq<(int, int)>, k: int) -> Set<(int, int)>
        decreases k,
    {
        if k <= 0 {
            self.dirty
        } else {
            let (x, y) = seam[k - 1];
            self.shifted_left(self.marked(self.dirty_after(seam, k - 1), x, y), x, y)
        }
    }

    /// The picture without `seam`, a path from the bottom row to the top row:
    /// every row loses the cell that the seam names in it, the original
    /// coordinates of those cells are logged from the bottom row up, and the
    /// marks are those that the removal leaves inside the narrower picture.
    pub open spec fn without_seam(self, seam: Seq<(int, int)>) -> Self {
        CarverView {
            rows: Seq::new(
                self.height() as nat,
                |y: int| self.rows[y].remove(seam[self.height() - 1 - y].0),
            ),
            width: self.width - 1,
            dirty: Set::new(
                |p: (int, int)|
                    p.0 < self.width - 1 && self.dirty_after(seam, self.height()).contains(p),
            ),
            removed: self.removed + Seq::new(
                self.height() as nat,
                |k: int| self.cell(seam[k].0, seam[k].1).original_position,
            ),
        }
    }

    /// The seam of a round of shrinking: it ends at the start cell of the picture
    /// with energies and costs computed.
    pub open spec fn round_seam(self, first: bool) -> Seq<(int, int)> {
        let energized = if first {
            self.with_all_energy()
        } else {
            self.with_dirty_energy()
        };
        let costed = energized.with_costs();
        let start = costed.path_start();
        costed.seam(start.0, start.1)
    }

    /// One round of shrinking: the energy pass, full in the first round and
    /// incremental after it, the cost sweep, and the removal of the seam that
    /// ends at the start cell.
    pub open spec fn shrink_step(self, first: bool) -> Self {
        let energized = if first {
            self.with_all_energy()
        } else {
            self.with_dirty_energy()
        };
        let costed = energized.with_costs();
        let start = costed.path_start();
        costed.without_seam(costed.seam(start.0, start.1))
    }

    /// The picture after `n` rounds of shrinking.
    pub open spec fn shrunk(self, n: nat) -> Self
        decreases n,
    {
        if n == 0 {
            self
        } else {
            self.shrunk((n - 1) as nat).shrink_step(n == 1)
        }
    }

    /// The picture as a simulation starts from it: every cell has its current
    /// coordinate as its original one, nothing is logged and nothing is marked.
    pub open spec fn reset(self) -> Self {
        CarverView {
            rows: Seq::new(
                self.height() as nat,
                |y: int|
                    Seq::new(
                        self.width as nat,
                        |x: int|
                            PixelEnergyPoint {
                                original_position: (x as usize, y as usize),
                                ..self.cell(x, y)
                            },
                    ),
            ),
            width: self.width,
            dirty: Set::empty(),
            removed: Seq::empty(),
        }
    }

    /// The picture with `n` more columns, each a copy of the column before it.
    pub open spec fn widened(self, n: nat) -> Self
        decreases n,
    {
        if n == 0 {
            self
        } else {
            let before = self.widened((n - 1) as nat);
            CarverView {
                rows: Seq::new(
                    before.height() as nat,
                    |y: int| before.rows[y].push(before.rows[y].last()),
                ),
                width: before.width + 1,
                ..before
            }
        }
    }

    /// The picture with `value` put in right of `(x, y)`: the rest of the row moves
    /// one column to the right and loses its last cell, and the original
    /// coordinate of `(x, y)` is logged.
    pub open spec fn with_inserted(self, x: int, y: int, value: PixelEnergyPoint) -> Self {
        CarverView {
            rows: self.rows.update(y, self.rows[y].insert(x + 1, value).drop_last()),
            removed: self.removed.push(self.cell(x, y).original_position),
            ..self
        }
    }

    /// The picture with a new cell right of `(x, y)` whose pixel is the mean of
    /// `(x, y)` and its right neighbour.
    pub open spec fn inserted(self, x: int, y: int) -> Self {
        self.with_inserted(
            x,
            y,
            spec_point(spec_average(self.cell(x, y).pixel, self.cell(x + 1, y).pixel)),
        )
    }

    /// The picture after an insertion at each of the first `k` of `points`, in
    /// their order.
    pub open spec fn inserted_all(self, points: Seq<(usize, usize)>, k: int) -> Self
        decreases k,
    {
        if k <= 0 {
            self
        } else {
            let before = self.inserted_all(points, k - 1);
            before.inserted(points[k - 1].0 as int, points[k - 1].1 as int)
        }
    }

    /// The coordinates at which growing by `n` inserts, in the order of the
    /// insertions: those that a simulation of `n` rounds of shrinking removes,
    /// by descending column.
    pub open spec fn growth_points(self, n: nat) -> Seq<(usize, usize)> {
        sorted_by_column(self.reset().shrunk(n).removed, self.width)
    }

    /// The picture after growing by `n` columns: `n` columns are appended, then a
    /// cell is inserted at each growth point, and nothing is marked afterwards.
    /// Growing by nothing changes nothing.
    pub open spec fn grown(self, n: nat) -> Self {
        if n == 0 {
            self
        } else {
            let points = self.growth_points(n);
            CarverView { dirty: Set::empty(), ..self }.widened(n).inserted_all(
                points,
                points.len() as int,
            )
        }
    }

    /// The picture brought to `width` columns: grown where it is narrower,
    /// shrunk where it is wider, and left alone where it has that width.
    pub open spec fn resized_width(self, width: int) -> Self {
        if width > self.width {
            self.grown((width - self.width) as nat)
        } else if width < self.width {
            self.shrunk((self.width - width) as nat)
        } else {
            self
        }
    }

    /// The picture brought to `width` by `height`: first the width, then, with
    /// the axes swapped, the height.
    pub open spec fn resized(self, width: int, height: int) -> Self {
        let wide = self.resized_width(width);
        if height != wide.height() {
            wide.transposed().resized_width(height).transposed()
        } else {
            wide
        }
    }

    /// Two pictures of the same size with the same value in every cell have the
    /// same rows.
    pub proof fn lemma_same_rows(self, other: Self)
        requires
            self.height() == other.height(),
            forall|y: int| 0 <= y < self.height() ==> (#[trigger] self.rows[y]).len() == self.width,
            forall|y: int| 0 <= y < self.height() ==> (#[trigger] other.rows[y]).len() == self.width,
            forall|x: int, y: int|
                self.in_bounds(x, y) ==> #[trigger] self.cell(x, y) == other.cell(x, y),
        ensures
            self.rows == other.rows,
    {
        assert forall|y: int| 0 <= y < self.height() implies self.rows[y] == other.rows[y] by {
            assert(self.rows[y].len() == self.width);
            assert(other.rows[y].len() == self.width);
            assert forall|x: int| 0 <= x < self.width implies self.rows[y][x] == other.rows[y][x] by {
                assert(self.cell(x, y) == other.cell(x, y));
            }
            assert(self.rows[y] =~= other.rows[y]);
        }
        assert(self.rows =~= other.rows);
    }

    /// Replacing the value of one cell changes that cell and nothing else.
    pub proof fn lemma_with_cell(self, x: int, y: int, value: PixelEnergyPoint)
        requires
            self.wf(),
            self.in_bounds(x, y),
            value.energy <= MAX_ENERGY,
        ensures
            self.with_cell(x, y, value).wf(),
            self.with_cell(x, y, value).width == self.width,
            self.with_cell(x, y, value).height() == self.height(),
            forall|i: int, j: int|
                self.in_bounds(i, j) ==> #[trigger] self.with_cell(x, y, value).cell(i, j) == (if i
                    == x && j == y {
                    value
                } else {
                    self.cell(i, j)
                }),
    {
        let after = self.with_cell(x, y, value);
        assert forall|j: int| 0 <= j < after.height() implies (#[trigger] after.rows[j]).len()
            == after.width by {
            assert(self.rows[j].len() == self.width);
        }
        assert forall|i: int, j: int| self.in_bounds(i, j) implies #[trigger] after.cell(i, j) == (if i
            == x && j == y {
            value
        } else {
            self.cell(i, j)
        }) by {
            assert(self.rows[j].len() == self.width);
        }
        assert forall|i: int, j: int| after.in_bounds(i, j) implies (#[trigger] after.cell(
            i,
            j,
        )).energy <= MAX_ENERGY by {
            assert(self.cell(i, j).energy <= MAX_ENERGY);
        }
    }

    /// The energy of a cell is never negative and at most `MAX_ENERGY`.
    pub proof fn lemma_energy_bounds(self, x: int, y: int)
        ensures
            0 <= self.energy_at(x, y) <= MAX_ENERGY,
    {
        lemma_square_gradient_bounds(
            self.cell(self.left_of(x), y).pixel,
            self.cell(self.right_of(x), y).pixel,
        );
        lemma_square_gradient_bounds(
            self.cell(x, self.up_of(y)).pixel,
            self.cell(x, self.down_of(y)).pixel,
        );
    }

    /// The energy of a cell depends on the pixels alone.
    pub proof fn lemma_energy_of_pixels(self, other: Self, x: int, y: int)
        requires
            self.in_bounds(x, y),
            self.width >= 1,
            other.width == self.width,
            other.height() == self.height(),
            forall|i: int, j: int|
                self.in_bounds(i, j) ==> (#[trigger] other.cell(i, j)).pixel == self.cell(
                    i,
                    j,
                ).pixel,
        ensures
            other.energy_at(x, y) == self.energy_at(x, y),
    {
        assert(other.cell(self.left_of(x), y).pixel == self.cell(self.left_of(x), y).pixel);
        assert(other.cell(self.right_of(x), y).pixel == self.cell(self.right_of(x), y).pixel);
        assert(other.cell(x, self.up_of(y)).pixel == self.cell(x, self.up_of(y)).pixel);
        assert(other.cell(x, self.down_of(y)).pixel == self.cell(x, self.down_of(y)).pixel);
    }

    /// In a picture of one colour every cell has energy zero, and the full energy
    /// pass stores that.
    pub proof fn lemma_uniform_energy(self, x: int, y: int)
        requires
            self.wf(),
            self.in_bounds(x, y),
            forall|i: int, j: int|
                self.in_bounds(i, j) ==> (#[trigger] self.cell(i, j)).pixel == self.cell(
                    0,
                    0,
                ).pixel,
        ensures
            self.energy_at(x, y) == 0,
            self.with_all_energy().cell(x, y).energy == 0,
    {
        let l = self.cell(self.left_of(x), y);
        let r = self.cell(self.right_of(x), y);
        let u = self.cell(x, self.up_of(y));
        let d = self.cell(x, self.down_of(y));
        assert(l.pixel == self.cell(0, 0).pixel);
        assert(r.pixel == self.cell(0, 0).pixel);
        assert(u.pixel == self.cell(0, 0).pixel);
        assert(d.pixel == self.cell(0, 0).pixel);
        lemma_square_gradient_bounds(l.pixel, r.pixel);
        lemma_square_gradient_bounds(u.pixel, d.pixel);
    }

    /// The full energy pass keeps the size, the limits and every original
    /// coordinate, and gives every cell its energy.
    pub proof fn lemma_with_all_energy(self)
        requires
            self.wf(),
        ensures
            self.with_all_energy().wf(),
            self.with_all_energy().width == self.width,
            self.with_all_energy().height() == self.height(),
            forall|x: int, y: int|
                self.in_bounds(x, y) ==> #[trigger] self.with_all_energy().cell(x, y)
                    == self.refreshed(x, y),
    {
        let after = self.with_all_energy();
        assert forall|x: int, y: int| after.in_bounds(x, y) implies (#[trigger] after.cell(
            x,
            y,
        )).energy <= MAX_ENERGY by {
            self.lemma_energy_bounds(x, y);
        }
    }

    /// The incremental energy pass keeps the size, the limits and every original
    /// coordinate, and gives the marked cells their energy.
    pub proof fn lemma_with_dirty_energy(self)
        requires
            self.wf(),
        ensures
            self.with_dirty_energy().wf(),
            self.with_dirty_energy().width == self.width,
            self.with_dirty_energy().height() == self.height(),
            forall|x: int, y: int|
                self.in_bounds(x, y) ==> #[trigger] self.with_dirty_energy().cell(x, y) == (
                if self.dirty.contains((x, y)) {
                    self.refreshed(x, y)
                } else {
                    self.cell(x, y)
                }),
    {
        let after = self.with_dirty_energy();
        assert forall|x: int, y: int| after.in_bounds(x, y) implies (#[trigger] after.cell(
            x,
            y,
        )).energy <= MAX_ENERGY by {
            self.lemma_energy_bounds(x, y);
            assert(self.cell(x, y).energy <= MAX_ENERGY);
        }
    }

    /// A path cost is a sum of at most `y + 1` energies, so it fits in 32 bits.
    pub proof fn lemma_cost_bounds(self, x: int, y: int)
        requires
            self.wf(),
            self.in_bounds(x, y),
        ensures
            0 <= self.cost_at(x, y) <= (y + 1) * MAX_ENERGY,
            self.cost_at(x, y) <= u32::MAX,
            y >= 1 ==> 0 <= self.least_parent_cost(x, y) <= y * MAX_ENERGY,
        decreases y,
    {
        assert(self.cell(x, y).energy <= MAX_ENERGY);
        if y >= 1 {
            self.lemma_cost_bounds(x, y - 1);
            if x > 0 {
                self.lemma_cost_bounds(x - 1, y - 1);
            }
            if x + 1 < self.width {
                self.lemma_cost_bounds(x + 1, y - 1);
            }
        }
        assert((y + 1) * MAX_ENERGY <= u32::MAX) by (nonlinear_arith)
            requires
                0 <= y < 8256,
                MAX_ENERGY == 520200,
        ;
        assert(y * MAX_ENERGY + MAX_ENERGY == (y + 1) * MAX_ENERGY) by (nonlinear_arith);
    }

    /// The path cost of a cell depends on the stored energies alone.
    pub proof fn lemma_cost_of_energies(self, other: Self, x: int, y: int)
        requires
            self.in_bounds(x, y),
            other.width == self.width,
            other.height() == self.height(),
            forall|i: int, j: int|
                self.in_bounds(i, j) ==> (#[trigger] other.cell(i, j)).energy == self.cell(
                    i,
                    j,
                ).energy,
        ensures
            other.cost_at(x, y) == self.cost_at(x, y),
            other.least_parent_cost(x, y) == self.least_parent_cost(x, y),
        decreases y,
    {
        assert(other.cell(x, y).energy == self.cell(x, y).energy);
        if y >= 1 {
            self.lemma_cost_of_energies(other, x, y - 1);
            if x > 0 {
                self.lemma_cost_of_energies(other, x - 1, y - 1);
            }
            if x + 1 < self.width {
                self.lemma_cost_of_energies(other, x + 1, y - 1);
            }
        }
    }

    /// The cost sweep keeps the size, the limits, the energies and every
    /// original coordinate, and leaves every path cost computed.
    pub proof fn lemma_with_costs(self)
        requires
            self.wf(),
        ensures
            self.with_costs().wf(),
            self.with_costs().costs_done(),
            self.with_costs().width == self.width,
            self.with_costs().height() == self.height(),
            forall|x: int, y: int|
                self.in_bounds(x, y) ==> #[trigger] self.with_costs().cell(x, y) == (
                PixelEnergyPoint { path_cost: self.cost_at(x, y) as u32, ..self.cell(x, y) }),
    {
        let after = self.with_costs();
        assert forall|x: int, y: int| after.in_bounds(x, y) implies (#[trigger] after.cell(
            x,
            y,
        )).energy <= MAX_ENERGY by {
            assert(self.cell(x, y).energy <= MAX_ENERGY);
        }
        assert forall|x: int, y: int| after.in_bounds(x, y) implies (#[trigger] after.cell(
            x,
            y,
        )).path_cost == after.cost_at(x, y) by {
            self.lemma_cost_bounds(x, y);
            self.lemma_cost_of_energies(after, x, y);
        }
    }

    /// The start of a seam lies in the bottom row, no cell of that row has a
    /// lesser stored path cost, and every cell to its left has a greater one.
    pub proof fn lemma_leftmost_min(self, y: int, n: int)
        requires
            n >= 1,
        ensures
            0 <= self.leftmost_min(y, n) < n,
            forall|i: int|
                0 <= i < n ==> self.cell(self.leftmost_min(y, n), y).path_cost <= (#[trigger] self.cell(
                    i,
                    y,
                )).path_cost,
            forall|i: int|
                0 <= i < self.leftmost_min(y, n) ==> (#[trigger] self.cell(i, y)).path_cost
                    > self.cell(self.leftmost_min(y, n), y).path_cost,
        decreases n,
    {
        if n > 1 {
            self.lemma_leftmost_min(y, n - 1);
        }
    }

    /// The best parent is a parent, no parent has a lesser stored path cost, and
    /// every parent to its left has a greater one.
    pub proof fn lemma_best_parent(self, x: int, y: int)
        requires
            self.in_bounds(x, y),
            y >= 1,
        ensures
            self.in_bounds(self.best_parent(x, y), y - 1),
            -1 <= self.best_parent(x, y) - x <= 1,
            forall|i: int|
                x - 1 <= i <= x + 1 && 0 <= i < self.width ==> self.cell(
                    self.best_parent(x, y),
                    y - 1,
                ).path_cost <= (#[trigger] self.cell(i, y - 1)).path_cost,
            forall|i: int|
                x - 1 <= i < self.best_parent(x, y) && 0 <= i ==> (#[trigger] self.cell(
                    i,
                    y - 1,
                )).path_cost > self.cell(self.best_parent(x, y), y - 1).path_cost,
    {
    }

    /// A seam has one coordinate per row from its end up to the top row, and
    /// consecutive coordinates are at most one column apart.
    pub proof fn lemma_seam_shape(self, x: int, y: int)
        requires
            self.in_bounds(x, y),
        ensures
            self.is_path(self.seam(x, y), x, y),
        decreases y,
    {
        if y > 0 {
            self.lemma_best_parent(x, y);
            let b = self.best_parent(x, y);
            self.lemma_seam_shape(b, y - 1);
            let rest = self.seam(b, y - 1);
            let path = self.seam(x, y);
            assert(path == seq![(x, y)] + rest);
            assert forall|k: int| 0 <= k < path.len() implies (#[trigger] path[k]).1 == y - k && 0
                <= path[k].0 < self.width by {
                if k > 0 {
                    assert(path[k] == rest[k - 1]);
                }
            }
            assert forall|k: int| 0 <= k < path.len() - 1 implies -1 <= (#[trigger] path[k]).0
                - path[k + 1].0 <= 1 by {
                assert(path[k + 1] == rest[k]);
                if k > 0 {
                    assert(path[k] == rest[k - 1]);
                }
            }
        }
    }

    /// Once the costs are computed, the path cost of a cell is the sum of the
    /// energies along the seam that ends there.
    pub proof fn lemma_cost_is_seam_energy(self, x: int, y: int)
        requires
            self.wf(),
            self.costs_done(),
            self.in_bounds(x, y),
        ensures
            self.cost_at(x, y) == self.path_energy(self.seam(x, y)),
        decreases y,
    {
        let path = self.seam(x, y);
        if y > 0 {
            self.lemma_best_parent(x, y);
            let b = self.best_parent(x, y);
            self.lemma_cost_is_seam_energy(b, y - 1);
            assert(path.skip(1) =~= self.seam(b, y - 1));
            assert(self.cell(b, y - 1).path_cost == self.cost_at(b, y - 1));
            assert(self.cell(x, y - 1).path_cost == self.cost_at(x, y - 1));
            if x > 0 {
                assert(self.cell(x - 1, y - 1).path_cost == self.cost_at(x - 1, y - 1));
            }
            if x + 1 < self.width {
                assert(self.cell(x + 1, y - 1).path_cost == self.cost_at(x + 1, y - 1));
            }
            assert(self.least_parent_cost(x, y) == self.cost_at(b, y - 1));
        } else {
            assert(path.skip(1) =~= Seq::<(int, int)>::empty());
            assert(self.path_energy(path.skip(1)) == 0);
        }
    }

    /// No connected path that ends at a cell has less energy than the path cost
    /// of that cell: the seam is a minimal one.
    pub proof fn lemma_cost_is_least(self, path: Seq<(int, int)>, x: int, y: int)
        requires
            self.wf(),
            self.in_bounds(x, y),
            self.is_path(path, x, y),
        ensures
            self.cost_at(x, y) <= self.path_energy(path),
        decreases y,
    {
        let rest = path.skip(1);
        if y > 0 {
            let (px, py) = path[1];
            assert(path[0] == (x, y));
            assert(py == y - 1 && 0 <= px < self.width);
            assert(-1 <= path[0].0 - path[1].0 <= 1);
            assert(rest[0] == path[1]);
            assert forall|k: int| 0 <= k < rest.len() implies (#[trigger] rest[k]).1 == y - 1 - k
                && 0 <= rest[k].0 < self.width by {
                assert(rest[k] == path[k + 1]);
            }
            assert forall|k: int| 0 <= k < rest.len() - 1 implies -1 <= (#[trigger] rest[k]).0
                - rest[k + 1].0 <= 1 by {
                assert(rest[k] == path[k + 1]);
                assert(rest[k + 1] == path[k + 2]);
            }
            self.lemma_cost_is_least(rest, px, y - 1);
        } else {
            assert(rest =~= Seq::<(int, int)>::empty());
            assert(self.path_energy(rest) == 0);
        }
    }

    /// Taking out a seam makes the picture one column narrower: every row loses
    /// the cell that the seam names in it, and the log grows by the original
    /// coordinates of those cells, from the bottom row up.
    pub proof fn lemma_without_seam(self, seam: Seq<(int, int)>)
        requires
            self.wf(),
            self.width >= 2,
            self.is_path(seam, seam[0].0, self.height() - 1),
        ensures
            self.without_seam(seam).wf(),
            self.without_seam(seam).width == self.width - 1,
            self.without_seam(seam).height() == self.height(),
            self.without_seam(seam).removed.len() == self.removed.len() + self.height(),
            forall|k: int|
                0 <= k < self.removed.len() ==> #[trigger] self.without_seam(seam).removed[k]
                    == self.removed[k],
            forall|y: int|
                0 <= y < self.height() ==> {
                    let c = seam[self.height() - 1 - y].0;
                    &&& 0 <= c < self.width
                    &&& #[trigger] self.without_seam(seam).rows[y] == self.rows[y].remove(c)
                    &&& self.without_seam(seam).removed[self.removed.len() + (self.height() - 1
                        - y)] == self.cell(c, y).original_position
                },
            forall|x: int, y: int|
                self.without_seam(seam).in_bounds(x, y) ==> #[trigger] self.without_seam(seam).cell(
                    x,
                    y,
                ) == (if x < seam[self.height() - 1 - y].0 {
                    self.cell(x, y)
                } else {
                    self.cell(x + 1, y)
                }),
    {
        let after = self.without_seam(seam);
        let h = self.height();
        assert forall|y: int| 0 <= y < h implies {
            let c = seam[h - 1 - y].0;
            &&& 0 <= c < self.width
            &&& (#[trigger] after.rows[y]).len() == self.width - 1
            &&& seam[h - 1 - y].1 == y
        } by {
            assert(seam[h - 1 - y].1 == (h - 1) - (h - 1 - y));
            assert(self.rows[y].len() == self.width);
        }
        assert forall|x: int, y: int| after.in_bounds(x, y) implies #[trigger] after.cell(x, y) == (
        if x < seam[h - 1 - y].0 {
            self.cell(x, y)
        } else {
            self.cell(x + 1, y)
        }) by {
            assert(after.rows[y].len() == self.width - 1);
        }
        assert forall|x: int, y: int| after.in_bounds(x, y) implies (#[trigger] after.cell(
            x,
            y,
        )).energy <= MAX_ENERGY by {
            assert(after.rows[y].len() == self.width - 1);
            if x < seam[h - 1 - y].0 {
                assert(self.cell(x, y).energy <= MAX_ENERGY);
            } else {
                assert(self.cell(x + 1, y).energy <= MAX_ENERGY);
            }
        }
        assert forall|y: int| 0 <= y < h implies after.removed[self.removed.len() + (h - 1 - y)]
            == (#[trigger] self.rows[y])[seam[h - 1 - y].0].original_position by {
            assert(seam[h - 1 - y].1 == y);
        }
    }

    /// A round of shrinking makes the picture one column narrower and keeps its
    /// height; every row loses the cell that the seam of the round names in it,
    /// with its pixel and original coordinate, and that coordinate is logged.
    pub proof fn lemma_shrink_step(self, first: bool)
        requires
            self.wf(),
            self.width >= 2,
        ensures
            self.shrink_step(first).wf(),
            self.shrink_step(first).width == self.width - 1,
            self.shrink_step(first).height() == self.height(),
            self.shrink_step(first).removed.len() == self.removed.len() + self.height(),
            self.is_path(self.round_seam(first), self.round_seam(first)[0].0, self.height() - 1),
            forall|k: int|
                0 <= k < self.removed.len() ==> #[trigger] self.shrink_step(first).removed[k]
                    == self.removed[k],
            forall|x: int, y: int|
                self.shrink_step(first).in_bounds(x, y) ==> {
                    let c = self.round_seam(first)[self.height() - 1 - y].0;
                    let from = if x < c {
                        self.cell(x, y)
                    } else {
                        self.cell(x + 1, y)
                    };
                    &&& (#[trigger] self.shrink_step(first).cell(x, y)).pixel == from.pixel
                    &&& self.shrink_step(first).cell(x, y).original_position
                        == from.original_position
                },
            forall|y: int|
                0 <= y < self.height() ==> {
                    let c = self.round_seam(first)[self.height() - 1 - y].0;
                    &&& 0 <= c < self.width
                    &&& self.shrink_step(first).removed[self.removed.len() + (self.height() - 1
                        - y)] == (#[trigger] self.rows[y])[c].original_position
                },
    {
        let energized = if first {
            self.with_all_energy()
        } else {
            self.with_dirty_energy()
        };
        if first {
            self.lemma_with_all_energy();
        } else {
            self.lemma_with_dirty_energy();
        }
        energized.lemma_with_costs();
        let costed = energized.with_costs();
        let start = costed.path_start();
        costed.lemma_leftmost_min(costed.height() - 1, costed.width);
        costed.lemma_seam_shape(start.0, start.1);
        let seam = costed.seam(start.0, start.1);
        assert(seam == self.round_seam(first));
        costed.lemma_without_seam(seam);
        let after = costed.without_seam(seam);
        assert(after == self.shrink_step(first));
        let h = self.height();
        assert forall|x: int, y: int| after.in_bounds(x, y) implies {
            let c = seam[h - 1 - y].0;
            let from = if x < c {
                self.cell(x, y)
            } else {
                self.cell(x + 1, y)
            };
            &&& (#[trigger] after.cell(x, y)).pixel == from.pixel
            &&& after.cell(x, y).original_position == from.original_position
        } by {
            let c = seam[h - 1 - y].0;
            assert(costed.rows[y].len() == costed.width);
            assert(after.rows[y] == costed.rows[y].remove(c));
            if x < c {
                assert(costed.cell(x, y).pixel == energized.cell(x, y).pixel);
                assert(energized.cell(x, y).pixel == self.cell(x, y).pixel);
            } else {
                assert(costed.cell(x + 1, y).pixel == energized.cell(x + 1, y).pixel);
                assert(energized.cell(x + 1, y).pixel == self.cell(x + 1, y).pixel);
            }
        }
        assert forall|y: int| 0 <= y < self.height() implies {
            let c = seam[h - 1 - y].0;
            &&& 0 <= c < self.width
            &&& after.removed[self.removed.len() + (h - 1 - y)] == (#[trigger] self.rows[y])[c].original_position
        } by {
            let c = seam[h - 1 - y].0;
            assert(after.rows[y] == costed.rows[y].remove(c));
            assert(costed.cell(c, y).original_position == energized.cell(c, y).original_position);
            assert(energized.cell(c, y).original_position == self.cell(c, y).original_position);
        }
    }

    /// A round of shrinking keeps every original coordinate inside the picture
    /// that it was inside of.
    pub proof fn lemma_shrink_step_within(self, first: bool, w: int, h: int)
        requires
            self.wf(),
            self.width >= 2,
            self.within(w, h),
        ensures
            self.shrink_step(first).within(w, h),
    {
        self.lemma_shrink_step(first);
        let after = self.shrink_step(first);
        assert forall|x: int, y: int| after.in_bounds(x, y) implies (#[trigger] after.cell(
            x,
            y,
        )).original_position.0 < w && after.cell(x, y).original_position.1 < h by {
            let c = self.round_seam(first)[self.height() - 1 - y].0;
            if x < c {
                assert(self.cell(x, y).original_position.0 < w);
            } else {
                assert(self.cell(x + 1, y).original_position.0 < w);
            }
        }
        assert forall|k: int| 0 <= k < after.removed.len() implies (#[trigger] after.removed[k]).0
            < w && after.removed[k].1 < h by {
            if k < self.removed.len() {
                assert(after.removed[k] == self.removed[k]);
            } else {
                let y = self.height() - 1 - (k - self.removed.len());
                let c = self.round_seam(first)[self.height() - 1 - y].0;
                assert(after.removed[self.removed.len() + (self.height() - 1 - y)]
                    == self.rows[y][c].original_position);
                assert(self.cell(c, y).original_position.0 < w);
            }
        }
    }

    /// Shrinking by `n` makes the picture `n` columns narrower and keeps its
    /// height; the log grows by one coordinate per row and round, and every
    /// original coordinate stays inside the picture that it was inside of.
    pub proof fn lemma_shrunk(self, n: nat, w: int, h: int)
        requires
            self.wf(),
            n < self.width,
        ensures
            self.shrunk(n).wf(),
            self.shrunk(n).width == self.width - n,
            self.shrunk(n).height() == self.height(),
            self.shrunk(n).removed.len() == self.removed.len() + n * self.height(),
            self.within(w, h) ==> self.shrunk(n).within(w, h),
        decreases n,
    {
        if n > 0 {
            let before = self.shrunk((n - 1) as nat);
            self.lemma_shrunk((n - 1) as nat, w, h);
            before.lemma_shrink_step(n == 1);
            if self.within(w, h) {
                before.lemma_shrink_step_within(n == 1, w, h);
            }
            assert((n - 1) * self.height() + self.height() == n * self.height())
                by (nonlinear_arith);
        } else {
            assert(0 * self.height() == 0) by (nonlinear_arith);
        }
    }

    /// What shrinking has logged after `m` rounds stays in the log of every
    /// later round.
    pub proof fn lemma_shrunk_log(self, m: nat, n: nat, k: int)
        requires
            self.wf(),
            m <= n < self.width,
            0 <= k < self.shrunk(m).removed.len(),
        ensures
            k < self.shrunk(n).removed.len(),
            self.shrunk(n).removed[k] == self.shrunk(m).removed[k],
        decreases n,
    {
        if m < n {
            self.lemma_shrunk_log(m, (n - 1) as nat, k);
            self.lemma_shrunk((n - 1) as nat, 0, 0);
            self.shrunk((n - 1) as nat).lemma_shrink_step(n == 1);
        }
    }

    /// In a round of shrinking every row loses exactly one cell, and the
    /// original coordinate of that cell is logged: for row `y`, at the place
    /// `H - 1 - y` after what was logged before, `H` being the height.
    pub proof fn lemma_shrink_step_rows(self, first: bool, y: int)
        requires
            self.wf(),
            self.width >= 2,
            0 <= y < self.height(),
        ensures
            self.removed.len() + (self.height() - 1 - y) < self.shrink_step(first).removed.len(),
            loses_one(
                self.rows[y],
                self.shrink_step(first).rows[y],
                self.shrink_step(first).removed[self.removed.len() + (self.height() - 1 - y)],
            ),
    {
        self.lemma_shrink_step(first);
        let after = self.shrink_step(first);
        let before_row = self.rows[y];
        let after_row = after.rows[y];
        let c = self.round_seam(first)[self.height() - 1 - y].0;
        let flagged = after.removed[self.removed.len() + (self.height() - 1 - y)];
        assert(before_row.len() == self.width);
        assert(after_row.len() == after.width);
        assert(flagged == before_row[c].original_position);
        assert forall|i: int| 0 <= i < after_row.len() implies {
            let from = if i < c {
                before_row[i]
            } else {
                before_row[i + 1]
            };
            (#[trigger] after_row[i]).pixel == from.pixel && after_row[i].original_position
                == from.original_position
        } by {
            assert(after.in_bounds(i, y));
            assert(after.cell(i, y) == after_row[i]);
        }
        assert(0 <= c < before_row.len() && before_row[c].original_position == flagged);
    }

    /// Shrinking a picture `W` wide and `H` high by `n` gives one that is `W - n`
    /// wide and `H` high, and in every round every row loses exactly one cell,
    /// whose original coordinate is in the log: for round `round` and row `y`,
    /// at the place `round * H + (H - 1 - y)` after what was logged before.
    pub proof fn lemma_shrunk_rows(self, n: nat, round: nat, y: int)
        requires
            self.wf(),
            round < n < self.width,
            0 <= y < self.height(),
        ensures
            self.shrunk(n).width == self.width - n,
            self.shrunk(n).height() == self.height(),
            self.removed.len() + round * self.height() + (self.height() - 1 - y) < self.shrunk(
                n,
            ).removed.len(),
            loses_one(
                self.shrunk(round).rows[y],
                self.shrunk(round + 1).rows[y],
                self.shrunk(n).removed[self.removed.len() + round * self.height() + (self.height()
                    - 1 - y)],
            ),
    {
        let h = self.height();
        self.lemma_shrunk(n, 0, 0);
        self.lemma_shrunk(round, 0, 0);
        let before = self.shrunk(round);
        let first = round + 1 == 1;
        let after = before.shrink_step(first);
        assert(self.shrunk(round + 1) == after);
        before.lemma_shrink_step_rows(first, y);
        let at = self.removed.len() + round * h + (h - 1 - y);
        assert(at == before.removed.len() + (before.height() - 1 - y));
        self.lemma_shrunk_log(round + 1, n, at);
    }

    /// A simulation starts inside the limits, with every original coordinate in
    /// the picture.
    pub proof fn lemma_reset(self)
        requires
            self.wf(),
        ensures
            self.reset().wf(),
            self.reset().width == self.width,
            self.reset().height() == self.height(),
            self.reset().within(self.width, self.height()),
    {
        let after = self.reset();
        assert forall|x: int, y: int| after.in_bounds(x, y) implies (#[trigger] after.cell(
            x,
            y,
        )).energy <= MAX_ENERGY by {
            assert(self.cell(x, y).energy <= MAX_ENERGY);
        }
    }

    /// Widening keeps the height and the limits as long as the width stays
    /// within them, and adds one column per step.
    pub proof fn lemma_widened(self, n: nat)
        requires
            self.wf(),
            self.width + n <= MAX_SIDE,
        ensures
            self.widened(n).wf(),
            self.widened(n).width == self.width + n,
            self.widened(n).height() == self.height(),
            self.widened(n).removed == self.removed,
            self.widened(n).dirty == self.dirty,
        decreases n,
    {
        if n > 0 {
            self.lemma_widened((n - 1) as nat);
            let before = self.widened((n - 1) as nat);
            let after = self.widened(n);
            assert forall|x: int, y: int| after.in_bounds(x, y) implies (#[trigger] after.cell(
                x,
                y,
            )).energy <= MAX_ENERGY by {
                assert(before.rows[y].len() == before.width);
                if x < before.width {
                    assert(before.cell(x, y).energy <= MAX_ENERGY);
                } else {
                    assert(before.cell(before.width - 1, y).energy <= MAX_ENERGY);
                }
            }
        }
    }

    /// Widening adds one column per step and keeps the height.
    pub proof fn lemma_widened_size(self, n: nat)
        ensures
            self.widened(n).width == self.width + n,
            self.widened(n).height() == self.height(),
        decreases n,
    {
        if n > 0 {
            self.lemma_widened_size((n - 1) as nat);
        }
    }

    /// An insertion keeps the size and the limits.
    pub proof fn lemma_with_inserted(self, x: int, y: int, value: PixelEnergyPoint)
        requires
            self.wf(),
            0 <= x,
            x + 1 < self.width,
            0 <= y < self.height(),
            value.energy <= MAX_ENERGY,
        ensures
            self.with_inserted(x, y, value).wf(),
            self.with_inserted(x, y, value).width == self.width,
            self.with_inserted(x, y, value).height() == self.height(),
            forall|i: int, j: int|
                self.in_bounds(i, j) ==> #[trigger] self.with_inserted(x, y, value).cell(i, j) == (
                if j == y && i == x + 1 {
                    value
                } else if j == y && i > x + 1 {
                    self.cell(i - 1, j)
                } else {
                    self.cell(i, j)
                }),
    {
        let after = self.with_inserted(x, y, value);
        assert(self.rows[y].len() == self.width);
        assert forall|j: int| 0 <= j < after.height() implies (#[trigger] after.rows[j]).len()
            == after.width by {
            assert(self.rows[j].len() == self.width);
        }
        assert forall|i: int, j: int| self.in_bounds(i, j) implies #[trigger] after.cell(i, j) == (
        if j == y && i == x + 1 {
            value
        } else if j == y && i > x + 1 {
            self.cell(i - 1, j)
        } else {
            self.cell(i, j)
        }) by {
            assert(self.rows[j].len() == self.width);
        }
        assert forall|i: int, j: int| after.in_bounds(i, j) implies (#[trigger] after.cell(
            i,
            j,
        )).energy <= MAX_ENERGY by {
            assert(self.cell(i, j).energy <= MAX_ENERGY);
            if j == y && i > x + 1 {
                assert(self.cell(i - 1, j).energy <= MAX_ENERGY);
            }
        }
    }

    /// Insertions keep the width and the height.
    pub proof fn lemma_inserted_all_size(self, points: Seq<(usize, usize)>, k: int)
        requires
            forall|i: int| 0 <= i < k ==> 0 <= (#[trigger] points[i]).1 < self.height(),
            k <= points.len(),
        ensures
            self.inserted_all(points, k).width == self.width,
            self.inserted_all(points, k).height() == self.height(),
        decreases k,
    {
        if k > 0 {
            self.lemma_inserted_all_size(points, k - 1);
            assert(0 <= points[k - 1].1 < self.height());
        }
    }

    /// Growing by `n` makes the picture `n` columns wider and keeps its height.
    pub proof fn lemma_grown_size(self, n: nat)
        requires
            self.wf(),
            n < self.width,
        ensures
            self.grown(n).width == self.width + n,
            self.grown(n).height() == self.height(),
    {
        if n > 0 {
            let points = self.growth_points(n);
            let base = CarverView { dirty: Set::empty(), ..self };
            self.lemma_reset();
            self.reset().lemma_shrunk(n, self.width, self.height());
            lemma_sorted_members(self.reset().shrunk(n).removed, self.width);
            let removed = self.reset().shrunk(n).removed;
            assert forall|i: int| 0 <= i < points.len() implies 0 <= (#[trigger] points[i]).1
                < self.height() by {
                assert(removed.contains(points[i]));
                let j = choose|j: int| 0 <= j < removed.len() && removed[j] == points[i];
                assert(removed[j].1 < self.height());
            }
            base.lemma_widened_size(n);
            base.widened(n).lemma_inserted_all_size(points, points.len() as int);
        }
    }

    /// Shrinking by `k` and then growing by `k` restores the width and the height.
    pub proof fn lemma_shrink_then_grow(self, k: nat)
        requires
            self.wf(),
            2 * k < self.width,
        ensures
            self.shrunk(k).grown(k).width == self.width,
            self.shrunk(k).grown(k).height() == self.height(),
    {
        self.lemma_shrunk(k, 0, 0);
        self.shrunk(k).lemma_grown_size(k);
    }
}

} // verus!
