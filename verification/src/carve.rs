//! The carver: it computes the energy and the path cost of every cell, finds
//! the seam of least cost, and removes or inserts seams until the picture has
//! the size that was asked for.

use crate::energy::{Pixel, PixelEnergyPoint};
use crate::grid::{Grid, Token};
use crate::model::{
    in_column, lemma_sorted_members, sorted_by_column, CarverView, MAX_ENERGY, MAX_SIDE,
};
use vstd::prelude::*;

verus! {

/// The engine of the resizing. It owns the grid of the picture, the log of the
/// original coordinates that it removed or doubled, and the tokens of the cells
/// that wait for a new energy.
pub struct Carver {
    grid: Grid<PixelEnergyPoint>,
    removed_points: Vec<(usize, usize)>,
    dirty_points: Vec<Token>,
}

/// The rows of a pixel matrix as sequences.
pub open spec fn pixel_rows(pixels: Seq<Vec<Pixel>>) -> Seq<Seq<Pixel>> {
    Seq::new(pixels.len(), |y: int| pixels[y]@)
}

/// Coordinates as mathematical integers.
pub open spec fn as_ints(points: Seq<(usize, usize)>) -> Seq<(int, int)> {
    Seq::new(points.len(), |k: int| (points[k].0 as int, points[k].1 as int))
}

impl View for Carver {
    type V = CarverView;

    closed spec fn view(&self) -> CarverView {
        CarverView {
            rows: self.grid.rows_view(),
            width: self.grid.spec_width() as int,
            dirty: Set::new(|p: (int, int)| self.is_dirty(p)),
            removed: self.removed_points@,
        }
    }
}

impl Carver {
    /// Whether `id` is the number of a pending token.
    spec fn is_pending(&self, id: nat) -> bool {
        exists|i: int| 0 <= i < self.dirty_points@.len() && (#[trigger] self.dirty_points@[i])@ == id
    }

    /// Whether a pending token stands for the cell `p`.
    spec fn is_dirty(&self, p: (int, int)) -> bool {
        self.grid.in_bounds(p.0, p.1) && match self.grid.slot(p.0, p.1) {
            Some(id) => self.is_pending(id),
            None => false,
        }
    }

    /// The grid is well formed and the picture is within the limits of a carver.
    pub closed spec fn wf(&self) -> bool {
        self.grid.wf() && self@.wf()
    }

    /// Whether the axes of the grid are swapped.
    pub closed spec fn is_rotated(&self) -> bool {
        self.grid.spec_is_rotated()
    }

    /// A well-formed carver has a picture within the limits.
    pub proof fn lemma_wf(&self)
        requires
            self.wf(),
        ensures
            self@.wf(),
    {
    }

    proof fn lemma_view(&self)
        requires
            self.grid.wf(),
        ensures
            self@.width == self.grid.spec_width(),
            self@.height() == self.grid.spec_height(),
            forall|y: int| 0 <= y < self@.height() ==> (#[trigger] self@.rows[y]).len() == self@.width,
            forall|x: int, y: int|
                self.grid.in_bounds(x, y) ==> #[trigger] self@.cell(x, y) == self.grid.cell(x, y),
            forall|x: int, y: int| self.grid.in_bounds(x, y) <==> self@.in_bounds(x, y),
            forall|x: int| self@.left_of(x) == self.grid.left_of(x),
            forall|x: int| self@.right_of(x) == self.grid.right_of(x),
            forall|y: int| self@.up_of(y) == self.grid.up_of(y),
            forall|y: int| self@.down_of(y) == self.grid.down_of(y),
    {
    }

    /// A carver for the picture with the rows `pixels`, top row first.
    pub fn new(pixels: Vec<Vec<Pixel>>) -> (carver: Self)
        requires
            1 <= pixels@.len() <= MAX_SIDE,
            1 <= pixels@[0]@.len() <= MAX_SIDE,
            forall|y: int| 0 <= y < pixels@.len() ==> (#[trigger] pixels@[y])@.len() == pixels@[0]@.len(),
        ensures
            carver.wf(),
            !carver.is_rotated(),
            carver@ == CarverView::of_pixels(pixel_rows(pixels@)),
    {
        let height = pixels.len();
        let width = pixels[0].len();
        let mut rows: Vec<Vec<PixelEnergyPoint>> = Vec::new();
        let mut y: usize = 0;
        while y < height
            invariant
                height == pixels@.len(),
                width == pixels@[0]@.len(),
                forall|j: int| 0 <= j < pixels@.len() ==> (#[trigger] pixels@[j])@.len() == width,
                y <= height,
                rows@.len() == y,
                forall|j: int| 0 <= j < y ==> (#[trigger] rows@[j])@.len() == width,
                forall|i: int, j: int|
                    0 <= i < width && 0 <= j < y ==> #[trigger] rows@[j]@[i] == (PixelEnergyPoint {
                        pixel: pixels@[j]@[i],
                        energy: 0,
                        path_cost: 0,
                        original_position: (i as usize, j as usize),
                    }),
            decreases height - y,
        {
            let mut row: Vec<PixelEnergyPoint> = Vec::new();
            let mut x: usize = 0;
            while x < width
                invariant
                    height == pixels@.len(),
                    y < height,
                    pixels@[y as int]@.len() == width,
                    x <= width,
                    row@.len() == x,
                    forall|i: int|
                        0 <= i < x ==> #[trigger] row@[i] == (PixelEnergyPoint {
                            pixel: pixels@[y as int]@[i],
                            energy: 0,
                            path_cost: 0,
                            original_position: (i as usize, y),
                        }),
                decreases width - x,
            {
                let mut pep = PixelEnergyPoint::from(pixels[y][x]);
                pep.original_position = (x, y);
                row.push(pep);
                x += 1;
            }
            rows.push(row);
            y += 1;
        }
        let grid = Grid::new(rows);
        let carver = Carver { grid, removed_points: Vec::new(), dirty_points: Vec::new() };
        proof {
            carver.lemma_view();
            let model = CarverView::of_pixels(pixel_rows(pixels@));
            assert(carver@.rows =~~= model.rows);
            assert(carver@.dirty =~= model.dirty);
            assert(carver@.removed =~= model.removed);
        }
        carver
    }

    /// The log of original coordinates: those of the cells that shrinking
    /// removed and of the cells that growing doubled, in the order of the edits.
    pub fn get_removed_points(self) -> (points: Vec<(usize, usize)>)
        ensures
            points@ == self@.removed,
    {
        self.removed_points
    }

    /// The pixels of the picture in coordinate order: row by row, each from left
    /// to right, in the current orientation.
    pub fn rebuild_image(&self) -> (pixels: Vec<Vec<Pixel>>)
        requires
            self.wf(),
        ensures
            pixel_rows(pixels@) == self@.pixels(),
            pixels@.len() == self@.height(),
            forall|y: int| 0 <= y < pixels@.len() ==> (#[trigger] pixels@[y])@.len() == self@.width,
    {
        proof {
            self.lemma_view();
        }
        let width = self.grid.width();
        let height = self.grid.height();
        let mut pixels: Vec<Vec<Pixel>> = Vec::new();
        let mut y: usize = 0;
        while y < height
            invariant
                self.grid.wf(),
                width == self.grid.spec_width(),
                height == self.grid.spec_height(),
                y <= height,
                pixels@.len() == y,
                forall|j: int| 0 <= j < y ==> (#[trigger] pixels@[j])@.len() == width,
                forall|i: int, j: int|
                    0 <= i < width && 0 <= j < y ==> #[trigger] pixels@[j]@[i] == self.grid.cell(
                        i,
                        j,
                    ).pixel,
            decreases height - y,
        {
            let mut row: Vec<Pixel> = Vec::new();
            let mut x: usize = 0;
            while x < width
                invariant
                    self.grid.wf(),
                    width == self.grid.spec_width(),
                    height == self.grid.spec_height(),
                    y < height,
                    x <= width,
                    row@.len() == x,
                    forall|i: int| 0 <= i < x ==> #[trigger] row@[i] == self.grid.cell(i, y as int).pixel,
                decreases width - x,
            {
                row.push(self.grid.get(x, y).pixel);
                x += 1;
            }
            pixels.push(row);
            y += 1;
        }
        proof {
            assert(pixel_rows(pixels@) =~~= self@.pixels());
        }
        pixels
    }

    /// What replacing the value of one cell of the grid does to the picture.
    proof fn lemma_set_cell(&self, before: &Self, x: int, y: int)
        requires
            before.grid.wf(),
            self.grid.wf(),
            before.grid.in_bounds(x, y),
            self.grid.same_shape(&before.grid),
            self.grid.same_slots(&before.grid),
            forall|i: int, j: int|
                before.grid.in_bounds(i, j) && (i != x || j != y) ==> #[trigger] self.grid.cell(i, j)
                    == before.grid.cell(i, j),
            self.removed_points == before.removed_points,
            self.dirty_points == before.dirty_points,
        ensures
            self@ == before@.with_cell(x, y, self.grid.cell(x, y)),
            self.is_rotated() == before.is_rotated(),
    {
        self.lemma_view();
        before.lemma_view();
        let model = before@.with_cell(x, y, self.grid.cell(x, y));
        assert(self@.rows =~~= model.rows);
        assert forall|p: (int, int)| self.is_dirty(p) == before.is_dirty(p) by {
            if before.grid.in_bounds(p.0, p.1) {
                assert(self.grid.slot(p.0, p.1) == before.grid.slot(p.0, p.1));
                match before.grid.slot(p.0, p.1) {
                    Some(id) => {
                        assert(self.is_pending(id) == before.is_pending(id));
                    },
                    None => {},
                }
            }
        }
        assert(self@.dirty =~= model.dirty);
    }

    /// Computes the energy of the cell `(x, y)`; the tokens stay as they are.
    fn refresh(&mut self, x: usize, y: usize)
        requires
            old(self).wf(),
            old(self)@.in_bounds(x as int, y as int),
        ensures
            final(self).wf(),
            final(self).is_rotated() == old(self).is_rotated(),
            final(self)@ == old(self)@.with_cell(
                x as int,
                y as int,
                old(self)@.refreshed(x as int, y as int),
            ),
            final(self).grid.same_shape(&old(self).grid),
            final(self).grid.same_slots(&old(self).grid),
            final(self).dirty_points == old(self).dirty_points,
    {
        proof {
            self.lemma_view();
            self@.lemma_energy_bounds(x as int, y as int);
        }
        let energy = {
            let (left, right, up, down) = self.grid.get_adjacent(x, y);
            let horizontal_square_gradient = left.square_gradient(right);
            let vertical_square_gradient = up.square_gradient(down);
            horizontal_square_gradient + vertical_square_gradient
        };
        let ghost before = *self;
        self.grid.get_mut(x, y).energy = energy;
        proof {
            self.lemma_set_cell(&before, x as int, y as int);
            before.lemma_view();
            before@.lemma_with_cell(x as int, y as int, self.grid.cell(x as int, y as int));
        }
    }

    /// Computes the energy of the cell `(x, y)` from the pixels of its four
    /// neighbours, a neighbour beyond an edge being the cell at the opposite edge.
    pub fn calculate_pixel_energy(&mut self, x: usize, y: usize)
        requires
            old(self).wf(),
            old(self)@.in_bounds(x as int, y as int),
        ensures
            final(self).wf(),
            final(self).is_rotated() == old(self).is_rotated(),
            final(self)@ == old(self)@.with_cell(
                x as int,
                y as int,
                old(self)@.refreshed(x as int, y as int),
            ),
    {
        self.refresh(x, y);
    }

    /// The full energy pass: computes the energy of every cell. Afterwards no
    /// cell waits for a new energy, so the pending tokens are dropped.
    pub fn calculate_all_pixel_energy(&mut self)
        requires
            old(self).wf(),
        ensures
            final(self).wf(),
            final(self).is_rotated() == old(self).is_rotated(),
            final(self)@ == old(self)@.with_all_energy(),
    {
        proof {
            self.lemma_view();
        }
        let ghost start = self@;
        let width = self.grid.width();
        let height = self.grid.height();
        let mut y: usize = 0;
        while y < height
            invariant
                self.wf(),
                start.wf(),
                self.is_rotated() == old(self).is_rotated(),
                width == start.width,
                height == start.height(),
                self@.width == start.width,
                self@.height() == start.height(),
                self@.removed == start.removed,
                self@.dirty == start.dirty,
                y <= height,
                forall|i: int, j: int|
                    start.in_bounds(i, j) ==> #[trigger] self@.cell(i, j) == (if j < y {
                        start.refreshed(i, j)
                    } else {
                        start.cell(i, j)
                    }),
            decreases height - y,
        {
            let mut x: usize = 0;
            while x < width
                invariant
                    self.wf(),
                    start.wf(),
                    self.is_rotated() == old(self).is_rotated(),
                    width == start.width,
                    height == start.height(),
                    self@.width == start.width,
                    self@.height() == start.height(),
                    self@.removed == start.removed,
                    self@.dirty == start.dirty,
                    y < height,
                    x <= width,
                    forall|i: int, j: int|
                        start.in_bounds(i, j) ==> #[trigger] self@.cell(i, j) == (if j < y || (j
                            == y && i < x) {
                            start.refreshed(i, j)
                        } else {
                            start.cell(i, j)
                        }),
                decreases width - x,
            {
                let ghost before = self@;
                proof {
                    start.lemma_energy_of_pixels(before, x as int, y as int);
                    before.lemma_energy_bounds(x as int, y as int);
                    before.lemma_with_cell(x as int, y as int, before.refreshed(x as int, y as int));
                }
                self.calculate_pixel_energy(x, y);
                x += 1;
            }
            y += 1;
        }
        let ghost swept = *self;
        self.dirty_points.clear();
        proof {
            self.lemma_view();
            swept.lemma_view();
            assert forall|i: int, j: int| self@.in_bounds(i, j) implies #[trigger] self@.cell(i, j)
                == start.with_all_energy().cell(i, j) by {
                assert(swept@.cell(i, j) == start.refreshed(i, j));
                assert(self.grid.cell(i, j) == swept.grid.cell(i, j));
            }
            self@.lemma_same_rows(start.with_all_energy());
            assert(self@.dirty =~= Set::<(int, int)>::empty());
            assert forall|i: int, j: int| self@.in_bounds(i, j) implies (#[trigger] self@.cell(
                i,
                j,
            )).energy <= MAX_ENERGY by {
                start.lemma_energy_bounds(i, j);
            }
        }
    }

    /// The least path cost stored in the parents of `(x, y)`, or zero where the
    /// cell has no parent.
    pub fn get_min_parent_path_cost(&self, x: usize, y: usize) -> (least: u32)
        requires
            self.wf(),
            self@.in_bounds(x as int, y as int),
        ensures
            least == self@.stored_parent_min(x as int, y as int),
    {
        proof {
            self.lemma_view();
        }
        let parents = self.grid.get_parents(x, y);
        let mut least: Option<u32> = None;
        let mut i: usize = 0;
        while i < 3
            invariant
                self.grid.wf(),
                self.grid.in_bounds(x as int, y as int),
                i <= 3,
                forall|k: int|
                    0 <= k < 3 ==> #[trigger] parents@[k] == match self.grid.parent(
                        x as int,
                        y as int,
                        k,
                    ) {
                        Some((px, py)) => Some(&self.grid.cell(px, py)),
                        None => None,
                    },
                y == 0 ==> least is None,
                y > 0 && i == 0 ==> least is None,
                y > 0 && i == 1 ==> least == (if x > 0 {
                    Some(self.grid.cell(x - 1, y - 1).path_cost)
                } else {
                    None
                }),
                y > 0 && i == 2 ==> least == Some(
                    (if x > 0 {
                        crate::model::lesser(
                            self.grid.cell(x - 1, y - 1).path_cost as int,
                            self.grid.cell(x as int, y - 1).path_cost as int,
                        )
                    } else {
                        self.grid.cell(x as int, y - 1).path_cost as int
                    }) as u32,
                ),
                y > 0 && i == 3 ==> least == Some(self@.stored_parent_min(x as int, y as int) as u32),
            decreases 3 - i,
        {
            match parents[i] {
                Some(parent) => {
                    least = match least {
                        Some(cost) => if parent.path_cost < cost {
                            Some(parent.path_cost)
                        } else {
                            Some(cost)
                        },
                        None => Some(parent.path_cost),
                    };
                },
                None => {},
            }
            i += 1;
        }
        match least {
            Some(cost) => cost,
            None => 0,
        }
    }

    /// Computes the path cost of `(x, y)` from its stored energy and the path
    /// costs stored in its parents.
    fn calculate_path_cost(&mut self, x: usize, y: usize)
        requires
            old(self).wf(),
            old(self)@.in_bounds(x as int, y as int),
            old(self)@.cell(x as int, y as int).energy + old(self)@.stored_parent_min(
                x as int,
                y as int,
            ) <= u32::MAX,
        ensures
            final(self).wf(),
            final(self).is_rotated() == old(self).is_rotated(),
            final(self)@ == old(self)@.with_cell(
                x as int,
                y as int,
                PixelEnergyPoint {
                    path_cost: (old(self)@.cell(x as int, y as int).energy + old(
                        self,
                    )@.stored_parent_min(x as int, y as int)) as u32,
                    ..old(self)@.cell(x as int, y as int)
                },
            ),
    {
        proof {
            self.lemma_view();
        }
        let min_parent_path_cost = self.get_min_parent_path_cost(x, y);
        let energy = self.grid.get(x, y).energy;
        let ghost before = *self;
        self.grid.get_mut(x, y).path_cost = min_parent_path_cost + energy;
        proof {
            self.lemma_set_cell(&before, x as int, y as int);
            before.lemma_view();
            before@.lemma_with_cell(x as int, y as int, self.grid.cell(x as int, y as int));
        }
    }

    /// The cumulative-cost sweep: computes the path cost of every cell, row by
    /// row from the top.
    pub fn calculate_path_costs(&mut self)
        requires
            old(self).wf(),
        ensures
            final(self).wf(),
            final(self).is_rotated() == old(self).is_rotated(),
            final(self)@ == old(self)@.with_costs(),
            final(self)@.costs_done(),
    {
        proof {
            self.lemma_view();
        }
        let ghost start = self@;
        let width = self.grid.width();
        let height = self.grid.height();
        let mut y: usize = 0;
        while y < height
            invariant
                self.wf(),
                start.wf(),
                self.is_rotated() == old(self).is_rotated(),
                width == start.width,
                height == start.height(),
                self@.width == start.width,
                self@.height() == start.height(),
                self@.removed == start.removed,
                self@.dirty == start.dirty,
                y <= height,
                forall|i: int, j: int|
                    start.in_bounds(i, j) ==> #[trigger] self@.cell(i, j) == (if j < y {
                        PixelEnergyPoint {
                            path_cost: start.cost_at(i, j) as u32,
                            ..start.cell(i, j)
                        }
                    } else {
                        start.cell(i, j)
                    }),
            decreases height - y,
        {
            let mut x: usize = 0;
            while x < width
                invariant
                    self.wf(),
                    start.wf(),
                    self.is_rotated() == old(self).is_rotated(),
                    width == start.width,
                    height == start.height(),
                    self@.width == start.width,
                    self@.height() == start.height(),
                    self@.removed == start.removed,
                    self@.dirty == start.dirty,
                    y < height,
                    x <= width,
                    forall|i: int, j: int|
                        start.in_bounds(i, j) ==> #[trigger] self@.cell(i, j) == (if j < y || (j
                            == y && i < x) {
                            PixelEnergyPoint {
                                path_cost: start.cost_at(i, j) as u32,
                                ..start.cell(i, j)
                            }
                        } else {
                            start.cell(i, j)
                        }),
                decreases width - x,
            {
                proof {
                    start.lemma_cost_bounds(x as int, y as int);
                    if y > 0 {
                        start.lemma_cost_bounds(x as int, y - 1);
                        assert(self@.cell(x as int, y - 1).path_cost == start.cost_at(x as int, y - 1));
                        if x > 0 {
                            start.lemma_cost_bounds(x - 1, y - 1);
                            assert(self@.cell(x - 1, y - 1).path_cost == start.cost_at(x - 1, y - 1));
                        }
                        if x + 1 < width {
                            start.lemma_cost_bounds(x + 1, y - 1);
                            assert(self@.cell(x + 1, y - 1).path_cost == start.cost_at(x + 1, y - 1));
                        }
                        assert(self@.stored_parent_min(x as int, y as int)
                            == start.least_parent_cost(x as int, y as int));
                    }
                    assert(self@.cell(x as int, y as int) == start.cell(x as int, y as int));
                    self@.lemma_with_cell(
                        x as int,
                        y as int,
                        PixelEnergyPoint {
                            path_cost: start.cost_at(x as int, y as int) as u32,
                            ..start.cell(x as int, y as int)
                        },
                    );
                }
                self.calculate_path_cost(x, y);
                x += 1;
            }
            y += 1;
        }
        proof {
            self@.lemma_same_rows(start.with_costs());
            assert(self@ == start.with_costs());
            assert forall|i: int, j: int| self@.in_bounds(i, j) implies (#[trigger] self@.cell(
                i,
                j,
            )).path_cost == self@.cost_at(i, j) by {
                start.lemma_cost_bounds(i, j);
                start.lemma_cost_of_energies(self@, i, j);
            }
        }
    }

    /// Where the next seam starts: the cell of the bottom row with the least
    /// path cost, the leftmost one where several have it.
    pub fn get_path_start(&self) -> (start: (usize, usize))
        requires
            self.wf(),
        ensures
            (start.0 as int, start.1 as int) == self@.path_start(),
            self@.in_bounds(start.0 as int, start.1 as int),
            start.1 == self@.height() - 1,
            forall|i: int|
                0 <= i < self@.width ==> self@.cell(start.0 as int, start.1 as int).path_cost <= (
                #[trigger] self@.cell(i, start.1 as int)).path_cost,
            forall|i: int|
                0 <= i < start.0 ==> (#[trigger] self@.cell(i, start.1 as int)).path_cost
                    > self@.cell(start.0 as int, start.1 as int).path_cost,
    {
        proof {
            self.lemma_view();
        }
        let y = self.grid.height() - 1;
        let row = self.grid.get_row(y);
        let mut x: usize = 0;
        let mut i: usize = 1;
        while i < row.len()
            invariant
                self.grid.wf(),
                y == self@.height() - 1,
                row@.len() == self@.width,
                forall|k: int| 0 <= k < row@.len() ==> *#[trigger] row@[k] == self@.cell(k, y as int),
                1 <= i <= row@.len(),
                x == self@.leftmost_min(y as int, i as int),
                x < i,
            decreases row@.len() - i,
        {
            proof {
                self@.lemma_leftmost_min(y as int, i as int);
            }
            if row[i].path_cost < row[x].path_cost {
                x = i;
            }
            i += 1;
        }
        proof {
            self@.lemma_leftmost_min(y as int, self@.width);
        }
        (x, y)
    }

    /// The parent of `(x, y)` with the least path cost, the leftmost one where
    /// several have it; `None` in the top row.
    pub fn get_parent_with_min_path_cost(&self, x: usize, y: usize) -> (parent: Option<
        (usize, usize),
    >)
        requires
            self.wf(),
            self@.in_bounds(x as int, y as int),
        ensures
            y == 0 ==> parent is None,
            y > 0 ==> parent == Some((self@.best_parent(x as int, y as int) as usize, (y - 1) as usize)),
            y > 0 ==> self@.in_bounds(self@.best_parent(x as int, y as int), y - 1),
    {
        proof {
            self.lemma_view();
            if y > 0 {
                self@.lemma_best_parent(x as int, y as int);
            }
        }
        let parents = self.grid.get_parents_indexed(x, y);
        let ghost coords = self.grid.parent_coords(x as int, y as int);
        let mut best: Option<((usize, usize), u32)> = None;
        let ghost mut at: int = 0;
        let mut i: usize = 0;
        while i < parents.len()
            invariant
                self.grid.wf(),
                coords == self.grid.parent_coords(x as int, y as int),
                parents@.len() == coords.len(),
                forall|k: int|
                    0 <= k < parents@.len() ==> {
                        &&& (#[trigger] parents@[k]).0.0 == coords[k].0
                        &&& parents@[k].0.1 == coords[k].1
                        &&& *parents@[k].1 == self.grid.cell(coords[k].0, coords[k].1)
                    },
                i <= parents@.len(),
                i == 0 ==> best is None,
                i > 0 ==> {
                    &&& 0 <= at < i
                    &&& best == Some((parents@[at].0, parents@[at].1.path_cost))
                    &&& forall|k: int|
                        0 <= k < i ==> parents@[at].1.path_cost <= (#[trigger] parents@[k]).1.path_cost
                    &&& forall|k: int|
                        0 <= k < at ==> (#[trigger] parents@[k]).1.path_cost
                            > parents@[at].1.path_cost
                },
            decreases parents@.len() - i,
        {
            let (point, pep) = parents[i];
            let better = match best {
                Some((_, cost)) => pep.path_cost < cost,
                None => true,
            };
            if better {
                best = Some((point, pep.path_cost));
                proof {
                    at = i as int;
                }
            }
            i += 1;
        }
        proof {
            let w = self@.width;
            let xi = x as int;
            let yi = y as int;
            if y > 0 {
                if xi > 0 && xi + 1 < w {
                    assert(coords =~= seq![(xi - 1, yi - 1), (xi, yi - 1), (xi + 1, yi - 1)]);
                    assert(parents@[0].0.0 == xi - 1 && parents@[1].0.0 == xi && parents@[2].0.0 == xi + 1);
                } else if xi > 0 {
                    assert(coords =~= seq![(xi - 1, yi - 1), (xi, yi - 1)]);
                    assert(parents@[0].0.0 == xi - 1 && parents@[1].0.0 == xi);
                } else if xi + 1 < w {
                    assert(coords =~= seq![(xi, yi - 1), (xi + 1, yi - 1)]);
                    assert(parents@[0].0.0 == xi && parents@[1].0.0 == xi + 1);
                } else {
                    assert(coords =~= seq![(xi, yi - 1)]);
                    assert(parents@[0].0.0 == xi);
                }
            } else {
                assert(coords =~= Seq::<(int, int)>::empty());
            }
        }
        match best {
            Some((point, _)) => Some(point),
            None => None,
        }
    }

    /// The seam that ends at `(start_x, start_y)`: from that cell upwards, each
    /// next cell is the parent with the least path cost, the leftmost one where
    /// several have it, until the top row is reached. The seam has one
    /// coordinate per row, and consecutive ones are at most one column apart.
    pub fn find_seam(&self, start_x: usize, start_y: usize) -> (path: Vec<(usize, usize)>)
        requires
            self.wf(),
            self@.in_bounds(start_x as int, start_y as int),
        ensures
            as_ints(path@) == self@.seam(start_x as int, start_y as int),
            self@.is_path(as_ints(path@), start_x as int, start_y as int),
            path@.len() == start_y + 1,
    {
        let mut path: Vec<(usize, usize)> = Vec::new();
        path.push((start_x, start_y));
        let mut x = start_x;
        let mut y = start_y;
        proof {
            assert(as_ints(path@).drop_last() + self@.seam(x as int, y as int) =~= self@.seam(
                start_x as int,
                start_y as int,
            ));
        }
        loop
            invariant
                self.wf(),
                self@.in_bounds(x as int, y as int),
                path@.len() >= 1,
                path@[path@.len() - 1] == (x, y),
                as_ints(path@).drop_last() + self@.seam(x as int, y as int) == self@.seam(
                    start_x as int,
                    start_y as int,
                ),
            ensures
                as_ints(path@) == self@.seam(start_x as int, start_y as int),
            decreases y,
        {
            match self.get_parent_with_min_path_cost(x, y) {
                None => {
                    proof {
                        assert(self@.seam(x as int, y as int) =~= seq![(x as int, y as int)]);
                        assert(as_ints(path@) =~= as_ints(path@).drop_last() + seq![
                            (x as int, y as int),
                        ]);
                    }
                    break ;
                },
                Some(parent) => {
                    let ghost before = path@;
                    path.push(parent);
                    proof {
                        let rest = self@.seam(parent.0 as int, parent.1 as int);
                        assert(self@.seam(x as int, y as int) == seq![(x as int, y as int)] + rest);
                        assert(as_ints(path@).drop_last() =~= as_ints(before).drop_last() + seq![
                            (x as int, y as int),
                        ]);
                        assert(as_ints(path@).drop_last() + rest =~= as_ints(before).drop_last() + (
                        seq![(x as int, y as int)] + rest));
                    }
                    x = parent.0;
                    y = parent.1;
                },
            }
        }
        proof {
            self@.lemma_seam_shape(start_x as int, start_y as int);
        }
        path
    }

    /// The stored energy of every cell, row by row.
    pub fn get_pixel_energy(&self) -> (energies: Vec<Vec<u32>>)
        requires
            self.wf(),
        ensures
            energies@.len() == self@.height(),
            forall|y: int| 0 <= y < energies@.len() ==> (#[trigger] energies@[y])@.len() == self@.width,
            forall|x: int, y: int|
                self@.in_bounds(x, y) ==> #[trigger] energies@[y]@[x] == self@.cell(x, y).energy,
    {
        proof {
            self.lemma_view();
        }
        let mut grid: Vec<Vec<u32>> = Vec::new();
        let width = self.grid.width();
        let height = self.grid.height();
        let mut y: usize = 0;
        while y < height
            invariant
                self.grid.wf(),
                width == self.grid.spec_width(),
                height == self.grid.spec_height(),
                y <= height,
                grid@.len() == y,
                forall|j: int| 0 <= j < y ==> (#[trigger] grid@[j])@.len() == width,
                forall|i: int, j: int|
                    0 <= i < width && 0 <= j < y ==> #[trigger] grid@[j]@[i] == self.grid.cell(
                        i,
                        j,
                    ).energy,
            decreases height - y,
        {
            let mut row: Vec<u32> = Vec::new();
            let mut x: usize = 0;
            while x < width
                invariant
                    self.grid.wf(),
                    width == self.grid.spec_width(),
                    height == self.grid.spec_height(),
                    y < height,
                    x <= width,
                    row@.len() == x,
                    forall|i: int| 0 <= i < x ==> #[trigger] row@[i] == self.grid.cell(i, y as int).energy,
                decreases width - x,
            {
                row.push(self.grid.get(x, y).energy);
                x += 1;
            }
            grid.push(row);
            y += 1;
        }
        grid
    }

    /// The stored path cost of every cell, row by row.
    pub fn get_path_energy(&self) -> (costs: Vec<Vec<u32>>)
        requires
            self.wf(),
        ensures
            costs@.len() == self@.height(),
            forall|y: int| 0 <= y < costs@.len() ==> (#[trigger] costs@[y])@.len() == self@.width,
            forall|x: int, y: int|
                self@.in_bounds(x, y) ==> #[trigger] costs@[y]@[x] == self@.cell(x, y).path_cost,
    {
        proof {
            self.lemma_view();
        }
        let mut grid: Vec<Vec<u32>> = Vec::new();
        let width = self.grid.width();
        let height = self.grid.height();
        let mut y: usize = 0;
        while y < height
            invariant
                self.grid.wf(),
                width == self.grid.spec_width(),
                height == self.grid.spec_height(),
                y <= height,
                grid@.len() == y,
                forall|j: int| 0 <= j < y ==> (#[trigger] grid@[j])@.len() == width,
                forall|i: int, j: int|
                    0 <= i < width && 0 <= j < y ==> #[trigger] grid@[j]@[i] == self.grid.cell(
                        i,
                        j,
                    ).path_cost,
            decreases height - y,
        {
            let mut row: Vec<u32> = Vec::new();
            let mut x: usize = 0;
            while x < width
                invariant
                    self.grid.wf(),
                    width == self.grid.spec_width(),
                    height == self.grid.spec_height(),
                    y < height,
                    x <= width,
                    row@.len() == x,
                    forall|i: int|
                        0 <= i < x ==> #[trigger] row@[i] == self.grid.cell(i, y as int).path_cost,
                decreases width - x,
            {
                row.push(self.grid.get(x, y).path_cost);
                x += 1;
            }
            grid.push(row);
            y += 1;
        }
        grid
    }

    /// Marking the four neighbours of a cell: what new tokens for them, put on
    /// the list of pending tokens, do to the set of cells that wait.
    proof fn lemma_marked(&self, before: &Self, x: int, y: int)
        requires
            before.grid.wf(),
            self.grid.wf(),
            before.grid.in_bounds(x, y),
            self.grid.same_shape(&before.grid),
            self.dirty_points@.len() == before.dirty_points@.len() + 4,
            forall|i: int|
                0 <= i < before.dirty_points@.len() ==> self.dirty_points@[i]
                    == before.dirty_points@[i],
            forall|k: int|
                0 <= k < 4 ==> (#[trigger] self.dirty_points@[before.dirty_points@.len() + k])@
                    == before.grid.issued() + k,
            forall|i: int, j: int|
                before.grid.in_bounds(i, j) ==> #[trigger] self.grid.slot(i, j) == (if i == x && j
                    == before.grid.down_of(y) {
                    Some((before.grid.issued() + 3) as nat)
                } else if i == x && j == before.grid.up_of(y) {
                    Some((before.grid.issued() + 2) as nat)
                } else if i == before.grid.right_of(x) && j == y {
                    Some((before.grid.issued() + 1) as nat)
                } else if i == before.grid.left_of(x) && j == y {
                    Some(before.grid.issued())
                } else {
                    before.grid.slot(i, j)
                }),
        ensures
            self@.dirty == before@.marked(before@.dirty, x, y),
    {
        self.lemma_view();
        before.lemma_view();
        let n = before.dirty_points@.len() as int;
        let base = before.grid.issued();
        let marks = before@.marked(before@.dirty, x, y);
        assert forall|p: (int, int)| self.is_dirty(p) == marks.contains(p) by {
            if before.grid.in_bounds(p.0, p.1) {
                before.grid.lemma_slot_issued(p.0, p.1);
                let near = (p.0 == x && p.1 == before.grid.down_of(y)) || (p.0 == x && p.1
                    == before.grid.up_of(y)) || (p.0 == before.grid.right_of(x) && p.1 == y) || (p.0
                    == before.grid.left_of(x) && p.1 == y);
                if near {
                    assert(self.dirty_points@[n + 0]@ == base + 0);
                    assert(self.dirty_points@[n + 1]@ == base + 1);
                    assert(self.dirty_points@[n + 2]@ == base + 2);
                    assert(self.dirty_points@[n + 3]@ == base + 3);
                    assert(self.is_dirty(p));
                } else {
                    assert(self.grid.slot(p.0, p.1) == before.grid.slot(p.0, p.1));
                    match before.grid.slot(p.0, p.1) {
                        Some(id) => {
                            if before.is_pending(id) {
                                let i = choose|i: int|
                                    0 <= i < before.dirty_points@.len() && (
                                    #[trigger] before.dirty_points@[i])@ == id;
                                assert(self.dirty_points@[i]@ == id);
                            }
                            if self.is_pending(id) {
                                let i = choose|i: int|
                                    0 <= i < self.dirty_points@.len() && (
                                    #[trigger] self.dirty_points@[i])@ == id;
                                if i >= n {
                                    assert(self.dirty_points@[n + (i - n)]@ == base + (i - n));
                                } else {
                                    assert(before.dirty_points@[i]@ == id);
                                }
                            }
                        },
                        None => {},
                    }
                }
            }
        }
        assert(self@.dirty =~= marks);
    }

    /// Shifting a row left: what it does to the set of cells that wait.
    proof fn lemma_shifted(&self, before: &Self, x: int, y: int)
        requires
            before.grid.wf(),
            self.grid.wf(),
            before.grid.in_bounds(x, y),
            self.grid.same_shape(&before.grid),
            self.dirty_points == before.dirty_points,
            forall|i: int, j: int|
                before.grid.in_bounds(i, j) ==> #[trigger] self.grid.slot(i, j) == (
                if before.grid.shifts_left(x, y, i, j) {
                    before.grid.slot(i + 1, j)
                } else if before.grid.shifts_left(x, y, i - 1, j) {
                    None
                } else {
                    before.grid.slot(i, j)
                }),
        ensures
            self@.dirty == before@.shifted_left(before@.dirty, x, y),
    {
        self.lemma_view();
        before.lemma_view();
        let moved = before@.shifted_left(before@.dirty, x, y);
        assert forall|p: (int, int)| self.is_dirty(p) == moved.contains(p) by {
            if before.grid.in_bounds(p.0, p.1) {
                if before.grid.shifts_left(x, y, p.0, p.1) {
                    assert(self.grid.slot(p.0, p.1) == before.grid.slot(p.0 + 1, p.1));
                    match before.grid.slot(p.0 + 1, p.1) {
                        Some(id) => {
                            assert(self.is_pending(id) == before.is_pending(id));
                        },
                        None => {},
                    }
                    assert(before.is_dirty((p.0 + 1, p.1)) == self.is_dirty(p));
                } else if before.grid.shifts_left(x, y, p.0 - 1, p.1) {
                    assert(self.grid.slot(p.0, p.1) is None);
                } else {
                    assert(self.grid.slot(p.0, p.1) == before.grid.slot(p.0, p.1));
                    match before.grid.slot(p.0, p.1) {
                        Some(id) => {
                            assert(self.is_pending(id) == before.is_pending(id));
                        },
                        None => {},
                    }
                }
            }
        }
        assert(self@.dirty =~= moved);
    }

    /// Takes `seam` out of the picture. From the bottom row up, each cell of the
    /// seam has its four neighbours marked for a new energy and its original
    /// coordinate logged, and its row is shifted left from it; then the last
    /// column, which the shifts left unused, is dropped.
    pub fn remove_path(&mut self, seam: &Vec<(usize, usize)>)
        requires
            old(self).wf(),
            old(self)@.width >= 2,
            seam@.len() >= 1,
            old(self)@.is_path(as_ints(seam@), seam@[0].0 as int, old(self)@.height() - 1),
        ensures
            final(self).wf(),
            final(self).is_rotated() == old(self).is_rotated(),
            final(self)@ == old(self)@.without_seam(as_ints(seam@)),
    {
        proof {
            self.lemma_view();
        }
        let ghost start = self@;
        let ghost s = as_ints(seam@);
        let ghost h = start.height();
        let ghost w = start.width;
        let mut k: usize = 0;
        while k < seam.len()
            invariant
                self.grid.wf(),
                start.wf(),
                w >= 2,
                w == start.width,
                h == start.height(),
                s == as_ints(seam@),
                start.is_path(s, s[0].0, h - 1),
                self.grid.spec_width() == w,
                self.grid.spec_height() == h,
                self.is_rotated() == old(self).is_rotated(),
                k <= seam@.len(),
                seam@.len() == h,
                self.removed_points@ == start.removed + Seq::new(
                    k as nat,
                    |j: int| start.cell(s[j].0, s[j].1).original_position,
                ),
                forall|i: int, j: int|
                    0 <= i < w && 0 <= j < h ==> #[trigger] self.grid.cell(i, j) == (if j > h - 1
                        - k && i < w - 1 {
                        start.rows[j].remove(s[h - 1 - j].0)[i]
                    } else {
                        start.cell(i, j)
                    }),
                self@.dirty == start.dirty_after(s, k as int),
            decreases seam@.len() - k,
        {
            let (x, y) = seam[k];
            proof {
                assert(s[k as int] == (x as int, y as int));
                assert(s[k as int].1 == h - 1 - k && 0 <= s[k as int].0 < w);
            }
            let ghost g0 = *self;
            let tokens = self.grid.make_adjacent_tokens(x, y);
            self.dirty_points.push(tokens[0]);
            self.dirty_points.push(tokens[1]);
            self.dirty_points.push(tokens[2]);
            self.dirty_points.push(tokens[3]);
            let ghost g1 = *self;
            proof {
                assert(tokens@[0]@ == g0.grid.issued() + 0);
                assert(tokens@[1]@ == g0.grid.issued() + 1);
                assert(tokens@[2]@ == g0.grid.issued() + 2);
                assert(tokens@[3]@ == g0.grid.issued() + 3);
                g1.lemma_marked(&g0, x as int, y as int);
                g0.lemma_view();
            }
            let original_position = self.grid.get(x, y).original_position;
            self.removed_points.push(original_position);
            self.grid.shift_row_left_from_point(x, y);
            proof {
                self.lemma_shifted(&g1, x as int, y as int);
                g1.lemma_view();
                self.lemma_view();
                assert(self@.dirty == start.dirty_after(s, k + 1)) by {
                    assert(g1@.dirty == g0@.marked(g0@.dirty, x as int, y as int));
                    assert(g0@.marked(g0@.dirty, x as int, y as int) == start.marked(
                        start.dirty_after(s, k as int),
                        x as int,
                        y as int,
                    ));
                    assert(g1@.shifted_left(g1@.dirty, x as int, y as int) =~= start.shifted_left(
                        g1@.dirty,
                        x as int,
                        y as int,
                    ));
                }
                assert(self.removed_points@ =~= start.removed + Seq::new(
                    (k + 1) as nat,
                    |j: int| start.cell(s[j].0, s[j].1).original_position,
                ));
                assert forall|i: int, j: int| 0 <= i < w && 0 <= j < h implies #[trigger] self.grid.cell(
                    i,
                    j,
                ) == (if j > h - 1 - (k + 1) && i < w - 1 {
                    start.rows[j].remove(s[h - 1 - j].0)[i]
                } else {
                    start.cell(i, j)
                }) by {
                    assert(g1.grid.cell(i, j) == g0.grid.cell(i, j));
                    assert(start.rows[j].len() == w);
                    if j == y {
                        if g1.grid.shifts_left(x as int, y as int, i, j) {
                            assert(cloned(g1.grid.cell(i + 1, j), self.grid.cell(i, j)));
                            assert(g1.grid.cell(i + 1, j) == g0.grid.cell(i + 1, j));
                        }
                    }
                }
            }
            k += 1;
        }
        let ghost shifted = *self;
        self.grid.remove_last_column();
        proof {
            self.lemma_view();
            shifted.lemma_view();
            let model = start.without_seam(s);
            assert forall|j: int| 0 <= j < h implies (#[trigger] model.rows[j]).len() == w - 1 by {
                assert(start.rows[j].len() == w);
                assert(s[h - 1 - j].1 == j);
            }
            assert forall|i: int, j: int| self@.in_bounds(i, j) implies #[trigger] self@.cell(i, j)
                == model.cell(i, j) by {
                assert(self.grid.cell(i, j) == shifted.grid.cell(i, j));
            }
            self@.lemma_same_rows(model);
            assert forall|p: (int, int)| self.is_dirty(p) == model.dirty.contains(p) by {
                if shifted.grid.in_bounds(p.0, p.1) && p.0 < w - 1 {
                    assert(self.grid.slot(p.0, p.1) == shifted.grid.slot(p.0, p.1));
                    assert(self.dirty_points@ == shifted.dirty_points@);
                    assert(self.is_dirty(p) == shifted.is_dirty(p));
                }
                assert(shifted@.dirty.contains(p) == shifted.is_dirty(p));
            }
            assert(self@.dirty =~= model.dirty);
            assert forall|i: int, j: int| self@.in_bounds(i, j) implies (#[trigger] self@.cell(
                i,
                j,
            )).energy <= MAX_ENERGY by {
                assert(start.rows[j].len() == w);
                assert(s[h - 1 - j].1 == j);
                let c = s[h - 1 - j].0;
                if i < c {
                    assert(start.cell(i, j).energy <= MAX_ENERGY);
                } else {
                    assert(start.cell(i + 1, j).energy <= MAX_ENERGY);
                }
            }
        }
    }

    /// Whether one of the first `n` pending tokens stands for the cell `(x, y)`.
    spec fn is_reached(&self, x: int, y: int, n: int) -> bool {
        exists|i: int|
            0 <= i < n && #[trigger] self.grid.resolve(self.dirty_points@[i]) == Some((x, y))
    }

    /// The incremental pass: computes anew the energy of the cells that the
    /// pending tokens stand for, drops those tokens, and then sweeps the path
    /// costs of the whole picture.
    pub fn calculate_energy(&mut self)
        requires
            old(self).wf(),
        ensures
            final(self).wf(),
            final(self).is_rotated() == old(self).is_rotated(),
            final(self)@ == old(self)@.with_dirty_energy().with_costs(),
            final(self)@.costs_done(),
    {
        proof {
            self.lemma_view();
        }
        let ghost start = self@;
        let pending = self.dirty_points.len();
        let mut i: usize = 0;
        while i < pending
            invariant
                self.wf(),
                old(self).wf(),
                start == old(self)@,
                self.is_rotated() == old(self).is_rotated(),
                self.grid.same_shape(&old(self).grid),
                self.grid.same_slots(&old(self).grid),
                self.dirty_points == old(self).dirty_points,
                pending == self.dirty_points@.len(),
                self@.width == start.width,
                self@.height() == start.height(),
                self@.removed == start.removed,
                i <= pending,
                forall|a: int, b: int|
                    start.in_bounds(a, b) ==> #[trigger] self@.cell(a, b) == (if old(
                        self,
                    ).is_reached(a, b, i as int) {
                        start.refreshed(a, b)
                    } else {
                        start.cell(a, b)
                    }),
            decreases pending - i,
        {
            let token = self.dirty_points[i];
            let ghost before = *self;
            match self.grid.downgrade(&token) {
                Some((x, y)) => {
                    proof {
                        self.lemma_view();
                        start.lemma_energy_of_pixels(self@, x as int, y as int);
                        self@.lemma_energy_bounds(x as int, y as int);
                        self@.lemma_with_cell(x as int, y as int, self@.refreshed(x as int, y as int));
                    }
                    self.refresh(x, y);
                },
                None => {},
            }
            proof {
                assert(before.grid.resolve(token) == old(self).grid.resolve(token));
                assert forall|a: int, b: int| start.in_bounds(a, b) implies #[trigger] self@.cell(a, b)
                    == (if old(self).is_reached(a, b, i + 1) {
                    start.refreshed(a, b)
                } else {
                    start.cell(a, b)
                }) by {
                    if old(self).is_reached(a, b, i as int) {
                        let j = choose|j: int|
                            0 <= j < i && #[trigger] old(self).grid.resolve(
                                old(self).dirty_points@[j],
                            ) == Some((a, b));
                        assert(old(self).is_reached(a, b, i + 1));
                    }
                    if old(self).is_reached(a, b, i + 1) && !old(self).is_reached(a, b, i as int) {
                        let j = choose|j: int|
                            0 <= j < i + 1 && #[trigger] old(self).grid.resolve(
                                old(self).dirty_points@[j],
                            ) == Some((a, b));
                        assert(j == i);
                    }
                    if old(self).grid.resolve(token) == Some((a, b)) {
                        assert(old(self).is_reached(a, b, i + 1));
                    }
                }
            }
            i += 1;
        }
        let ghost swept = *self;
        self.dirty_points.clear();
        proof {
            self.lemma_view();
            swept.lemma_view();
            old(self).lemma_view();
            let model = start.with_dirty_energy();
            assert forall|a: int, b: int| self@.in_bounds(a, b) implies #[trigger] self@.cell(a, b)
                == model.cell(a, b) by {
                assert(self.grid.cell(a, b) == swept.grid.cell(a, b));
                assert(swept@.cell(a, b) == (if old(self).is_reached(a, b, pending as int) {
                    start.refreshed(a, b)
                } else {
                    start.cell(a, b)
                }));
                if old(self).is_reached(a, b, pending as int) {
                    let j = choose|j: int|
                        0 <= j < pending && #[trigger] old(self).grid.resolve(
                            old(self).dirty_points@[j],
                        ) == Some((a, b));
                    old(self).grid.lemma_resolve_slot(old(self).dirty_points@[j], a, b);
                    assert(old(self).is_pending(old(self).dirty_points@[j]@));
                    assert(old(self).is_dirty((a, b)));
                }
                if old(self).is_dirty((a, b)) {
                    let id = old(self).grid.slot(a, b)->0;
                    let j = choose|j: int|
                        0 <= j < old(self).dirty_points@.len() && (#[trigger] old(
                            self,
                        ).dirty_points@[j])@ == id;
                    old(self).grid.lemma_resolve_slot(old(self).dirty_points@[j], a, b);
                    assert(old(self).is_reached(a, b, pending as int));
                }
                assert(start.dirty.contains((a, b)) == old(self).is_dirty((a, b)));
            }
            self@.lemma_same_rows(model);
            assert(self@.dirty =~= Set::<(int, int)>::empty());
            assert forall|a: int, b: int| self@.in_bounds(a, b) implies (#[trigger] self@.cell(
                a,
                b,
            )).energy <= MAX_ENERGY by {
                start.lemma_energy_bounds(a, b);
                assert(start.cell(a, b).energy <= MAX_ENERGY);
            }
            assert(self@ == model);
        }
        self.calculate_path_costs();
    }

    /// Removes `distance` seams, one after the other. The first round computes
    /// the energy of every cell; each later round computes only the energy of
    /// the cells that the removal before it marked. Every round then sweeps the
    /// path costs, finds the seam that ends at the start cell, and removes it.
    pub fn shrink_distance(&mut self, distance: usize)
        requires
            old(self).wf(),
            distance < old(self)@.width,
        ensures
            final(self).wf(),
            final(self).is_rotated() == old(self).is_rotated(),
            final(self)@ == old(self)@.shrunk(distance as nat),
            final(self)@.width == old(self)@.width - distance,
            final(self)@.height() == old(self)@.height(),
    {
        let ghost start = self@;
        let mut round: usize = 0;
        while round < distance
            invariant
                self.wf(),
                self.is_rotated() == old(self).is_rotated(),
                round <= distance,
                distance < start.width,
                self@ == start.shrunk(round as nat),
                self@.width == start.width - round,
                self@.height() == start.height(),
            decreases distance - round,
        {
            let ghost before = self@;
            if round == 0 {
                self.calculate_all_pixel_energy();
                self.calculate_path_costs();
            } else {
                self.calculate_energy();
            }
            let (start_x, start_y) = self.get_path_start();
            let seam = self.find_seam(start_x, start_y);
            proof {
                assert(as_ints(seam@)[0] == (start_x as int, start_y as int));
                assert(self@.width == before.width);
                assert(self@.height() == before.height());
            }
            self.remove_path(&seam);
            proof {
                assert(self@ == before.shrink_step(round == 0));
                assert(start.shrunk((round + 1) as nat) == start.shrunk(round as nat).shrink_step(
                    round + 1 == 1,
                ));
            }
            round += 1;
        }
    }

    /// Makes the current coordinate of every cell its original one.
    fn reset_positions(&mut self)
        requires
            old(self).wf(),
        ensures
            final(self).wf(),
            final(self).is_rotated() == old(self).is_rotated(),
            final(self)@ == (CarverView {
                dirty: old(self)@.dirty,
                removed: old(self)@.removed,
                ..old(self)@.reset()
            }),
            final(self).dirty_points == old(self).dirty_points,
    {
        proof {
            self.lemma_view();
        }
        let ghost start = self@;
        let width = self.grid.width();
        let height = self.grid.height();
        let mut y: usize = 0;
        while y < height
            invariant
                self.wf(),
                start.wf(),
                self.is_rotated() == old(self).is_rotated(),
                self.dirty_points == old(self).dirty_points,
                width == start.width,
                height == start.height(),
                self@.width == start.width,
                self@.height() == start.height(),
                self@.removed == start.removed,
                self@.dirty == start.dirty,
                y <= height,
                forall|i: int, j: int|
                    start.in_bounds(i, j) ==> #[trigger] self@.cell(i, j) == (if j < y {
                        PixelEnergyPoint {
                            original_position: (i as usize, j as usize),
                            ..start.cell(i, j)
                        }
                    } else {
                        start.cell(i, j)
                    }),
            decreases height - y,
        {
            let mut x: usize = 0;
            while x < width
                invariant
                    self.wf(),
                    start.wf(),
                    self.is_rotated() == old(self).is_rotated(),
                    self.dirty_points == old(self).dirty_points,
                    width == start.width,
                    height == start.height(),
                    self@.width == start.width,
                    self@.height() == start.height(),
                    self@.removed == start.removed,
                    self@.dirty == start.dirty,
                    y < height,
                    x <= width,
                    forall|i: int, j: int|
                        start.in_bounds(i, j) ==> #[trigger] self@.cell(i, j) == (if j < y || (j
                            == y && i < x) {
                            PixelEnergyPoint {
                                original_position: (i as usize, j as usize),
                                ..start.cell(i, j)
                            }
                        } else {
                            start.cell(i, j)
                        }),
                decreases width - x,
            {
                proof {
                    self.lemma_view();
                }
                let ghost before = *self;
                self.grid.get_mut(x, y).original_position = (x, y);
                proof {
                    self.lemma_set_cell(&before, x as int, y as int);
                    before.lemma_view();
                    assert(before@.cell(x as int, y as int).energy <= MAX_ENERGY);
                    assert(self.grid.cell(x as int, y as int) == (PixelEnergyPoint {
                        original_position: (x, y),
                        ..before.grid.cell(x as int, y as int)
                    }));
                    before@.lemma_with_cell(x as int, y as int, self.grid.cell(x as int, y as int));
                }
                x += 1;
            }
            y += 1;
        }
        proof {
            let model = CarverView { dirty: start.dirty, removed: start.removed, ..start.reset() };
            self@.lemma_same_rows(model);
        }
    }

    /// The coordinates that growing by `distance` inserts at: those that a
    /// simulation on a clone removes in `distance` rounds of shrinking, sorted by
    /// descending column, so that an insertion never moves a cell that a later
    /// one refers to.
    fn get_points_removed_by_shrink(&self, distance: usize) -> (points: Vec<(usize, usize)>)
        requires
            self.wf(),
            distance < self@.width,
        ensures
            points@ == self@.growth_points(distance as nat),
            forall|k: int|
                0 <= k < points@.len() ==> (#[trigger] points@[k]).0 < self@.width && points@[k].1
                    < self@.height(),
    {
        proof {
            self.lemma_view();
        }
        let mut shrinker = self.clone();
        let ghost copy = shrinker@;
        shrinker.reset_positions();
        proof {
            self@.lemma_reset();
            assert(copy.rows == self@.rows);
            assert(copy.reset().rows =~~= self@.reset().rows);
            assert(shrinker@ == self@.reset());
            self@.lemma_reset();
            self@.reset().lemma_shrunk(distance as nat, self@.width, self@.height());
        }
        shrinker.shrink_distance(distance);
        let width = self.grid.width();
        let removed = shrinker.get_removed_points();
        proof {
            lemma_sorted_members(removed@, width as int);
        }
        sort_by_column(removed, width)
    }

    /// Puts `pep` in right of `(x, y)`: the row is shifted right from there, which
    /// drops its last cell, and the original coordinate of `(x, y)` is logged.
    fn add_point(&mut self, x: usize, y: usize, pep: PixelEnergyPoint)
        requires
            old(self).wf(),
            x + 1 < old(self)@.width,
            y < old(self)@.height(),
            pep.energy <= MAX_ENERGY,
            old(self).dirty_points@.len() == 0,
        ensures
            final(self).wf(),
            final(self).is_rotated() == old(self).is_rotated(),
            final(self)@ == old(self)@.with_inserted(x as int, y as int, pep),
            final(self).dirty_points@.len() == 0,
    {
        proof {
            self.lemma_view();
        }
        let ghost start = *self;
        let original_position = self.grid.get(x, y).original_position;
        self.removed_points.push(original_position);
        self.grid.shift_row_right_from_point(x, y);
        let ghost shifted = *self;
        *self.grid.get_mut(x + 1, y) = pep;
        proof {
            self.lemma_view();
            shifted.lemma_view();
            start.lemma_view();
            let model = start@.with_inserted(x as int, y as int, pep);
            start@.lemma_with_inserted(x as int, y as int, pep);
            assert forall|i: int, j: int| self@.in_bounds(i, j) implies #[trigger] self@.cell(i, j)
                == model.cell(i, j) by {
                if i != x + 1 || j != y {
                    assert(self.grid.cell(i, j) == shifted.grid.cell(i, j));
                    if start.grid.shifts_right(x as int, y as int, i, j) {
                        assert(cloned(start.grid.cell(i - 1, j), shifted.grid.cell(i, j)));
                    } else {
                        assert(shifted.grid.cell(i, j) == start.grid.cell(i, j));
                    }
                }
            }
            self@.lemma_same_rows(model);
            assert(self@.dirty =~= model.dirty);
            assert(self@.removed =~= model.removed);
        }
    }

    /// Swaps the axes of the picture.
    fn rotate(&mut self)
        requires
            old(self).wf(),
        ensures
            final(self).wf(),
            final(self).is_rotated() == !old(self).is_rotated(),
            final(self)@ == old(self)@.transposed(),
    {
        let ghost start = *self;
        self.grid.rotate();
        proof {
            self.lemma_view();
            start.lemma_view();
            let model = start@.transposed();
            assert forall|i: int, j: int| self@.in_bounds(i, j) implies #[trigger] self@.cell(i, j)
                == model.cell(i, j) by {
                assert(self.grid.cell(i, j) == start.grid.cell(j, i));
            }
            self@.lemma_same_rows(model);
            assert forall|p: (int, int)| self.is_dirty(p) == start.is_dirty((p.1, p.0)) by {
                if self.grid.in_bounds(p.0, p.1) {
                    assert(self.grid.slot(p.0, p.1) == start.grid.slot(p.1, p.0));
                    assert(self.dirty_points@ == start.dirty_points@);
                }
            }
            assert(self@.dirty =~= model.dirty);
            assert forall|i: int, j: int| self@.in_bounds(i, j) implies (#[trigger] self@.cell(
                i,
                j,
            )).energy <= MAX_ENERGY by {
                assert(start@.cell(j, i).energy <= MAX_ENERGY);
            }
        }
    }

    /// Inserts `distance` seams. A simulation on a clone finds the seams that
    /// shrinking would remove; then `distance` columns are appended to the
    /// picture, and right of each coordinate of those seams, by descending
    /// column, a cell is inserted whose pixel is the mean of the cell there and
    /// its right neighbour. The pending tokens are dropped: the cells that they
    /// mark are not all that an insertion changes.
    pub fn grow_distance(&mut self, distance: usize)
        requires
            old(self).wf(),
            distance < old(self)@.width,
            old(self)@.width + distance <= MAX_SIDE,
        ensures
            final(self).wf(),
            final(self).is_rotated() == old(self).is_rotated(),
            final(self)@ == old(self)@.grown(distance as nat),
            final(self)@.width == old(self)@.width + distance,
            final(self)@.height() == old(self)@.height(),
    {
        if distance == 0 {
            return ;
        }
        proof {
            self.lemma_view();
        }
        let ghost start = self@;
        let ghost base = CarverView { dirty: Set::empty(), ..start };
        let points = self.get_points_removed_by_shrink(distance);

        let ghost marked = *self;
        self.dirty_points.clear();
        proof {
            self.lemma_view();
            marked.lemma_view();
            assert(self@.rows == start.rows);
            assert(self@.dirty =~= base.dirty);
            assert(self@ == base);
            assert forall|i: int, j: int| base.in_bounds(i, j) implies (#[trigger] base.cell(
                i,
                j,
            )).energy <= MAX_ENERGY by {
                assert(start.cell(i, j).energy <= MAX_ENERGY);
            }
            assert(base.wf());
        }

        let mut added: usize = 0;
        while added < distance
            invariant
                self.wf(),
                base.wf(),
                self.is_rotated() == old(self).is_rotated(),
                base.width + distance <= MAX_SIDE,
                self.dirty_points@.len() == 0,
                added <= distance,
                self@ == base.widened(added as nat),
                self@.width == base.width + added,
                self@.height() == base.height(),
            decreases distance - added,
        {
            proof {
                self.lemma_view();
            }
            let ghost narrow = *self;
            self.grid.add_last_column();
            proof {
                self.lemma_view();
                narrow.lemma_view();
                let model = base.widened((added + 1) as nat);
                base.lemma_widened((added + 1) as nat);
                assert forall|i: int, j: int| self@.in_bounds(i, j) implies #[trigger] self@.cell(i, j)
                    == model.cell(i, j) by {
                    assert(narrow@.rows[j].len() == narrow@.width);
                    if i < narrow@.width {
                        assert(self.grid.cell(i, j) == narrow.grid.cell(i, j));
                    } else {
                        assert(cloned(
                            narrow.grid.cell(narrow.grid.spec_width() - 1, j),
                            self.grid.cell(narrow.grid.spec_width() as int, j),
                        ));
                    }
                }
                self@.lemma_same_rows(model);
                assert(self@.dirty =~= model.dirty);
            }
            added += 1;
        }

        let mut k: usize = 0;
        while k < points.len()
            invariant
                self.wf(),
                self.is_rotated() == old(self).is_rotated(),
                self.dirty_points@.len() == 0,
                k <= points@.len(),
                distance >= 1,
                forall|i: int|
                    0 <= i < points@.len() ==> (#[trigger] points@[i]).0 < base.width && points@[i].1
                        < base.height(),
                self@ == base.widened(distance as nat).inserted_all(points@, k as int),
                self@.width == base.width + distance,
                self@.height() == base.height(),
            decreases points@.len() - k,
        {
            proof {
                self.lemma_view();
            }
            let (x, y) = points[k];
            let pep = {
                let left = self.grid.get(x, y);
                let right = self.grid.get(x + 1, y);
                left.average(right)
            };
            proof {
                self@.lemma_with_inserted(x as int, y as int, pep);
            }
            self.add_point(x, y, pep);
            k += 1;
        }
    }

    /// Brings the picture to `width` by `height` and returns its pixels. The
    /// width is changed first; then, if the height has to change, the axes are
    /// swapped, the height is changed as a width, and the axes are swapped back.
    /// Each change starts with a full energy pass. A side that already has its
    /// length is left alone.
    pub fn resize(&mut self, width: usize, height: usize) -> (pixels: Vec<Vec<Pixel>>)
        requires
            old(self).wf(),
            1 <= width <= MAX_SIDE,
            1 <= height <= MAX_SIDE,
            width < 2 * old(self)@.width,
            height < 2 * old(self)@.height(),
        ensures
            final(self).wf(),
            final(self).is_rotated() == old(self).is_rotated(),
            final(self)@ == old(self)@.resized(width as int, height as int),
            final(self)@.width == width,
            final(self)@.height() == height,
            pixel_rows(pixels@) == final(self)@.pixels(),
            pixels@.len() == height,
            forall|y: int| 0 <= y < pixels@.len() ==> (#[trigger] pixels@[y])@.len() == width,
    {
        proof {
            self.lemma_view();
        }
        let initial_width = self.grid.width();
        let initial_height = self.grid.height();

        if width > initial_width {
            self.grow_distance(width - initial_width);
        } else if width < initial_width {
            self.shrink_distance(initial_width - width);
        }

        if height != initial_height {
            self.rotate();
            if height > initial_height {
                self.grow_distance(height - initial_height);
            } else {
                self.shrink_distance(initial_height - height);
            }
            self.rotate();
        }

        self.rebuild_image()
    }
}

/// Cloning a carver clones the picture and nothing else: the clone has an empty
/// log and no pending token.
impl Clone for Carver {
    fn clone(&self) -> (copy: Self)
        ensures
            self.wf() ==> {
                &&& copy.wf()
                &&& copy.is_rotated() == self.is_rotated()
                &&& copy@ == (CarverView { dirty: Set::empty(), removed: Seq::empty(), ..self@ })
            },
    {
        let copy = Carver {
            grid: self.grid.clone(),
            removed_points: Vec::new(),
            dirty_points: Vec::new(),
        };
        proof {
            if self.wf() {
                self.lemma_view();
                copy.lemma_view();
                let model = CarverView { dirty: Set::empty(), removed: Seq::empty(), ..self@ };
                assert forall|i: int, j: int| copy@.in_bounds(i, j) implies #[trigger] copy@.cell(i, j)
                    == model.cell(i, j) by {
                    assert(cloned(self.grid.cell(i, j), copy.grid.cell(i, j)));
                }
                copy@.lemma_same_rows(model);
                assert(copy@.dirty =~= model.dirty);
                assert forall|i: int, j: int| copy@.in_bounds(i, j) implies (#[trigger] copy@.cell(
                    i,
                    j,
                )).energy <= MAX_ENERGY by {
                    assert(self@.cell(i, j).energy <= MAX_ENERGY);
                }
            }
        }
        copy
    }
}

/// The points of the first `width` columns by descending column, points of one
/// column in their order: each point is filed under its column, and the files
/// are read from the last to the first.
fn sort_by_column(points: Vec<(usize, usize)>, width: usize) -> (sorted: Vec<(usize, usize)>)
    ensures
        sorted@ == sorted_by_column(points@, width as int),
{
    let mut files: Vec<Vec<(usize, usize)>> = Vec::new();
    let mut x: usize = 0;
    while x < width
        invariant
            x <= width,
            files@.len() == x,
            forall|c: int| 0 <= c < x ==> (#[trigger] files@[c])@ == Seq::<(usize, usize)>::empty(),
        decreases width - x,
    {
        files.push(Vec::new());
        x += 1;
    }

    let mut i: usize = 0;
    while i < points.len()
        invariant
            i <= points@.len(),
            files@.len() == width,
            forall|c: int|
                0 <= c < width ==> (#[trigger] files@[c])@ == in_column(points@.take(i as int), c),
        decreases points@.len() - i,
    {
        let point = points[i];
        let ghost before = files@;
        if point.0 < width {
            files[point.0].push(point);
        }
        proof {
            let next = points@.take(i + 1);
            assert(next.drop_last() =~= points@.take(i as int));
            assert(next.last() == point);
            assert forall|c: int| 0 <= c < width implies (#[trigger] files@[c])@ == in_column(
                next,
                c,
            ) by {
                assert(before[c]@ == in_column(points@.take(i as int), c));
            }
        }
        i += 1;
    }
    proof {
        assert(points@.take(points@.len() as int) =~= points@);
    }

    let mut sorted: Vec<(usize, usize)> = Vec::new();
    let mut c: usize = width;
    while c > 0
        invariant
            c <= width,
            files@.len() == width,
            forall|x: int| 0 <= x < width ==> (#[trigger] files@[x])@ == in_column(points@, x),
            sorted@ + sorted_by_column(points@, c as int) == sorted_by_column(points@, width as int),
        decreases c,
    {
        c -= 1;
        let ghost done = sorted@;
        let mut j: usize = 0;
        while j < files[c].len()
            invariant
                c < width,
                files@.len() == width,
                j <= files@[c as int]@.len(),
                sorted@ == done + files@[c as int]@.take(j as int),
            decreases files@[c as int]@.len() - j,
        {
            sorted.push(files[c][j]);
            proof {
                assert(files@[c as int]@.take(j + 1) =~= files@[c as int]@.take(j as int).push(
                    files@[c as int]@[j as int],
                ));
            }
            j += 1;
        }
        proof {
            assert(files@[c as int]@.take(files@[c as int]@.len() as int) =~= files@[c as int]@);
            assert(sorted_by_column(points@, c + 1) == in_column(points@, c as int)
                + sorted_by_column(points@, c as int));
            assert(sorted@ + sorted_by_column(points@, c as int) =~= done + sorted_by_column(
                points@,
                c + 1,
            ));
        }
    }
    proof {
        assert(sorted@ + sorted_by_column(points@, 0) =~= sorted@);
    }
    sorted
}

} // verus!
