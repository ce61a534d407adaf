//! A rectangular container addressed by `(x, y)`, with an orientation flag that
//! swaps the two axes, the structural edits that seam carving needs, and tokens
//! that follow a cell's content while it is moved around.

use vstd::prelude::*;

verus! {

/// A non-owning handle on the content that stood at a cell when the token was made.
///
/// A token is the number under which the grid filed the content's position. It
/// resolves to the content's current coordinates for as long as the content is in
/// the grid, and to nothing once it was overwritten or dropped.
#[derive(Clone, Copy, Debug)]
pub struct Token {
    id: usize,
}

impl View for Token {
    type V = nat;

    closed spec fn view(&self) -> nat {
        self.id as nat
    }
}

/// A token number filed at storage cell `(r, c)` has that cell as its position.
spec fn tracked_at(
    slots: Seq<Vec<Option<usize>>>,
    positions: Seq<(usize, usize)>,
    r: int,
    c: int,
) -> bool {
    match slots[r]@[c] {
        Some(id) => id < positions.len() && positions[id as int] == (r as usize, c as usize),
        None => true,
    }
}

/// Every storage cell of a `rows` by `cols` table is filed consistently.
spec fn tracking_ok(
    slots: Seq<Vec<Option<usize>>>,
    positions: Seq<(usize, usize)>,
    rows: int,
    cols: int,
) -> bool {
    forall|r: int, c: int|
        0 <= r < rows && 0 <= c < cols ==> #[trigger] tracked_at(slots, positions, r, c)
}

/// Rectangular storage of `T` with orientation-agnostic addressing.
///
/// `cells` never changes layout when the grid is rotated: the flag only selects
/// how `(x, y)` is mapped to a storage row and column. `slots` holds, per storage
/// cell, the number of the token attached to its content, and `positions` holds,
/// per token number, the storage cell that its content was last moved to.
pub struct Grid<T> {
    cells: Vec<Vec<T>>,
    slots: Vec<Vec<Option<usize>>>,
    positions: Vec<(usize, usize)>,
    rows: usize,
    cols: usize,
    rotated: bool,
}

impl<T> View for Grid<T> {
    type V = Seq<Seq<T>>;

    /// The rows of the grid in the current orientation, top row first.
    open spec fn view(&self) -> Seq<Seq<T>> {
        self.rows_view()
    }
}

impl<T> Grid<T> {
    /// Storage row of the logical cell `(x, y)`.
    pub closed spec fn row_of(&self, x: int, y: int) -> int {
        if self.rotated {
            x
        } else {
            y
        }
    }

    /// Storage column of the logical cell `(x, y)`.
    pub closed spec fn col_of(&self, x: int, y: int) -> int {
        if self.rotated {
            y
        } else {
            x
        }
    }

    spec fn slot_ok(&self, r: int, c: int) -> bool {
        tracked_at(self.slots@, self.positions@, r, c)
    }

    /// The representation invariant: storage is rectangular, and a token number
    /// filed at a cell has that cell as its recorded position.
    pub closed spec fn wf(&self) -> bool {
        &&& self.cells@.len() == self.rows
        &&& self.slots@.len() == self.rows
        &&& forall|r: int| 0 <= r < self.rows ==> (#[trigger] self.cells@[r])@.len() == self.cols
        &&& forall|r: int| 0 <= r < self.rows ==> (#[trigger] self.slots@[r])@.len() == self.cols
        &&& tracking_ok(self.slots@, self.positions@, self.rows as int, self.cols as int)
    }

    /// Number of columns in the current orientation.
    pub closed spec fn spec_width(&self) -> usize {
        if self.rotated {
            self.rows
        } else {
            self.cols
        }
    }

    /// Number of rows in the current orientation.
    pub closed spec fn spec_height(&self) -> usize {
        if self.rotated {
            self.cols
        } else {
            self.rows
        }
    }

    /// Whether the axes are currently swapped.
    pub closed spec fn spec_is_rotated(&self) -> bool {
        self.rotated
    }

    /// Whether `(x, y)` names a cell in the current orientation.
    pub open spec fn in_bounds(&self, x: int, y: int) -> bool {
        0 <= x < self.spec_width() && 0 <= y < self.spec_height()
    }

    /// The value at the logical cell `(x, y)`.
    pub closed spec fn cell(&self, x: int, y: int) -> T {
        self.cells@[self.row_of(x, y)]@[self.col_of(x, y)]
    }

    /// The number of the token attached to the content at `(x, y)`, if any.
    pub closed spec fn slot(&self, x: int, y: int) -> Option<nat> {
        match self.slots@[self.row_of(x, y)]@[self.col_of(x, y)] {
            Some(id) => Some(id as nat),
            None => None,
        }
    }

    /// How many tokens this grid has handed out; the next token gets this number.
    pub closed spec fn issued(&self) -> nat {
        self.positions@.len()
    }

    /// The coordinates, in the current orientation, of the content that `token`
    /// was made for, or `None` once that content has left the grid.
    pub closed spec fn resolve(&self, token: Token) -> Option<(int, int)> {
        if token.id < self.positions@.len() {
            let (r, c) = self.positions@[token.id as int];
            if r < self.rows && c < self.cols && self.slots@[r as int]@[c as int] == Some(
                token.id,
            ) {
                if self.rotated {
                    Some((r as int, c as int))
                } else {
                    Some((c as int, r as int))
                }
            } else {
                None
            }
        } else {
            None
        }
    }

    /// The rows of the grid in the current orientation.
    pub open spec fn rows_view(&self) -> Seq<Seq<T>> {
        Seq::new(
            self.spec_height() as nat,
            |y: int| Seq::new(self.spec_width() as nat, |x: int| self.cell(x, y)),
        )
    }

    /// A token resolves to a cell exactly when that cell's slot holds its number.
    pub proof fn lemma_resolve(&self, token: Token)
        requires
            self.wf(),
        ensures
            match self.resolve(token) {
                Some((x, y)) => self.in_bounds(x, y) && self.slot(x, y) == Some(token@),
                None => forall|x: int, y: int|
                    self.in_bounds(x, y) ==> #[trigger] self.slot(x, y) != Some(token@),
            },
    {
        if self.resolve(token) is None {
            assert forall|x: int, y: int| self.in_bounds(x, y) implies #[trigger] self.slot(x, y)
                != Some(token@) by {
                assert(self.slot_ok(self.row_of(x, y), self.col_of(x, y)));
            }
        }
    }

    /// A token number filed at a cell was handed out by this grid.
    pub proof fn lemma_slot_issued(&self, x: int, y: int)
        requires
            self.wf(),
            self.in_bounds(x, y),
        ensures
            match self.slot(x, y) {
                Some(id) => id < self.issued(),
                None => true,
            },
    {
        assert(self.slot_ok(self.row_of(x, y), self.col_of(x, y)));
    }

    /// A token resolves to the cell whose slot holds its number, and to no other.
    pub proof fn lemma_resolve_slot(&self, token: Token, x: int, y: int)
        requires
            self.wf(),
            self.in_bounds(x, y),
        ensures
            self.resolve(token) == Some((x, y)) <==> self.slot(x, y) == Some(token@),
    {
        assert(self.slot_ok(self.row_of(x, y), self.col_of(x, y)));
    }

    /// Builds a grid from its rows, top row first.
    pub fn new(points: Vec<Vec<T>>) -> (grid: Self)
        requires
            forall|i: int| 0 <= i < points@.len() ==> (#[trigger] points@[i])@.len() == points@[0]@.len(),
        ensures
            grid.wf(),
            !grid.spec_is_rotated(),
            grid.spec_height() == points@.len(),
            points@.len() > 0 ==> grid.spec_width() == points@[0]@.len(),
            points@.len() == 0 ==> grid.spec_width() == 0,
            grid.issued() == 0,
            forall|x: int, y: int|
                grid.in_bounds(x, y) ==> #[trigger] grid.cell(x, y) == points@[y]@[x],
            forall|x: int, y: int| grid.in_bounds(x, y) ==> #[trigger] grid.slot(x, y) is None,
    {
        let rows = points.len();
        let cols = if rows > 0 {
            points[0].len()
        } else {
            0
        };
        let slots = Self::convert_container(rows, cols);
        Grid { cells: points, slots, positions: Vec::new(), rows, cols, rotated: false }
    }

    /// A `rows` by `cols` table of empty identity slots.
    fn convert_container(rows: usize, cols: usize) -> (slots: Vec<Vec<Option<usize>>>)
        ensures
            slots@.len() == rows,
            forall|r: int| 0 <= r < rows ==> (#[trigger] slots@[r])@.len() == cols,
            forall|r: int, c: int| 0 <= r < rows && 0 <= c < cols ==> slots@[r]@[c] is None,
    {
        let mut slots: Vec<Vec<Option<usize>>> = Vec::new();
        let mut r: usize = 0;
        while r < rows
            invariant
                r <= rows,
                slots@.len() == r,
                forall|i: int| 0 <= i < r ==> (#[trigger] slots@[i])@.len() == cols,
                forall|i: int, c: int| 0 <= i < r && 0 <= c < cols ==> slots@[i]@[c] is None,
            decreases rows - r,
        {
            let row = Self::empty_slot_row(cols);
            slots.push(row);
            r += 1;
        }
        slots
    }

    fn empty_slot_row(cols: usize) -> (row: Vec<Option<usize>>)
        ensures
            row@.len() == cols,
            forall|c: int| 0 <= c < cols ==> row@[c] is None,
    {
        let mut row: Vec<Option<usize>> = Vec::new();
        let mut c: usize = 0;
        while c < cols
            invariant
                c <= cols,
                row@.len() == c,
                forall|i: int| 0 <= i < c ==> row@[i] is None,
            decreases cols - c,
        {
            row.push(None);
            c += 1;
        }
        row
    }

    /// Number of rows in the current orientation.
    #[verifier::when_used_as_spec(spec_height)]
    pub fn height(&self) -> (h: usize)
        requires
            self.wf(),
        ensures
            h == self.spec_height(),
    {
        if self.rotated {
            self.cols
        } else {
            self.rows
        }
    }

    /// Number of columns in the current orientation.
    #[verifier::when_used_as_spec(spec_width)]
    pub fn width(&self) -> (w: usize)
        requires
            self.wf(),
        ensures
            w == self.spec_width(),
    {
        if self.rotated {
            self.rows
        } else {
            self.cols
        }
    }

    /// Whether the axes are currently swapped.
    #[verifier::when_used_as_spec(spec_is_rotated)]
    pub fn is_rotated(&self) -> (rotated: bool)
        ensures
            rotated == self.spec_is_rotated(),
    {
        self.rotated
    }

    /// Maps a logical coordinate to its storage `(row, column)`: the one place
    /// where the orientation flag is read for addressing.
    fn rotate_point(&self, point: (usize, usize)) -> (slot: (usize, usize))
        ensures
            slot.0 == self.row_of(point.0 as int, point.1 as int),
            slot.1 == self.col_of(point.0 as int, point.1 as int),
    {
        if self.rotated {
            (point.0, point.1)
        } else {
            (point.1, point.0)
        }
    }

    /// The value at `(x, y)`.
    pub fn get(&self, x: usize, y: usize) -> (value: &T)
        requires
            self.wf(),
            self.in_bounds(x as int, y as int),
        ensures
            *value == self.cell(x as int, y as int),
    {
        let (r, c) = self.rotate_point((x, y));
        &self.cells[r][c]
    }

    /// Mutable access to the value at `(x, y)`; nothing else changes.
    pub fn get_mut(&mut self, x: usize, y: usize) -> (value: &mut T)
        requires
            old(self).wf(),
            old(self).in_bounds(x as int, y as int),
        ensures
            *value == old(self).cell(x as int, y as int),
            final(self).wf(),
            final(self).same_shape(old(self)),
            final(self).same_slots(old(self)),
            final(self).cell(x as int, y as int) == *final(value),
            forall|i: int, j: int|
                old(self).in_bounds(i, j) && (i != x || j != y) ==> #[trigger] final(self).cell(
                    i,
                    j,
                ) == old(self).cell(i, j),
    {
        let (r, c) = self.rotate_point((x, y));
        &mut self.cells[r][c]
    }

    /// Same dimensions and orientation as `other`.
    pub open spec fn same_shape(&self, other: &Self) -> bool {
        &&& self.spec_width() == other.spec_width()
        &&& self.spec_height() == other.spec_height()
        &&& self.spec_is_rotated() == other.spec_is_rotated()
    }

    /// Same identity tracking as `other`: every slot and every token agree.
    pub open spec fn same_slots(&self, other: &Self) -> bool {
        &&& self.issued() == other.issued()
        &&& forall|x: int, y: int|
            other.in_bounds(x, y) ==> #[trigger] self.slot(x, y) == other.slot(x, y)
        &&& forall|t: Token| #[trigger] self.resolve(t) == other.resolve(t)
    }

    /// Same values as `other` in every cell.
    pub open spec fn same_cells(&self, other: &Self) -> bool {
        forall|x: int, y: int|
            other.in_bounds(x, y) ==> #[trigger] self.cell(x, y) == other.cell(x, y)
    }

    /// Whether `self` is `before` with its axes swapped: the cell `(x, y)` holds
    /// what `(y, x)` held, with its token.
    pub open spec fn rotation_of(&self, before: &Self) -> bool {
        &&& self.spec_is_rotated() == !before.spec_is_rotated()
        &&& self.spec_width() == before.spec_height()
        &&& self.spec_height() == before.spec_width()
        &&& self.issued() == before.issued()
        &&& forall|x: int, y: int|
            self.in_bounds(x, y) ==> #[trigger] self.cell(x, y) == before.cell(y, x)
        &&& forall|x: int, y: int|
            self.in_bounds(x, y) ==> #[trigger] self.slot(x, y) == before.slot(y, x)
        &&& forall|t: Token| #[trigger]
            self.resolve(t) == match before.resolve(t) {
                Some((x, y)) => Some((y, x)),
                None => None,
            }
    }

    /// Swaps the axes: a toggle of the orientation flag, with no data movement.
    pub fn rotate(&mut self)
        requires
            old(self).wf(),
        ensures
            final(self).wf(),
            final(self).rotation_of(old(self)),
    {
        self.rotated = !self.rotated;
    }

    /// Column of the toroidal left neighbour of column `x`.
    pub open spec fn left_of(&self, x: int) -> int {
        if x == 0 {
            self.spec_width() - 1
        } else {
            x - 1
        }
    }

    /// Column of the toroidal right neighbour of column `x`.
    pub open spec fn right_of(&self, x: int) -> int {
        if x == self.spec_width() - 1 {
            0
        } else {
            x + 1
        }
    }

    /// Row of the toroidal upper neighbour of row `y`.
    pub open spec fn up_of(&self, y: int) -> int {
        if y == 0 {
            self.spec_height() - 1
        } else {
            y - 1
        }
    }

    /// Row of the toroidal lower neighbour of row `y`.
    pub open spec fn down_of(&self, y: int) -> int {
        if y == self.spec_height() - 1 {
            0
        } else {
            y + 1
        }
    }

    /// The `i`-th parent candidate of `(x, y)`, counted from the left: the cell
    /// at row `y - 1` and column `x - 1 + i`, if the grid has such a cell.
    pub open spec fn parent(&self, x: int, y: int, i: int) -> Option<(int, int)> {
        if self.in_bounds(x - 1 + i, y - 1) {
            Some((x - 1 + i, y - 1))
        } else {
            None
        }
    }

    /// The `i`-th parent candidate of `(x, y)` as a sequence of at most one cell.
    pub open spec fn parent_seq(&self, x: int, y: int, i: int) -> Seq<(int, int)> {
        match self.parent(x, y, i) {
            Some(p) => seq![p],
            None => seq![],
        }
    }

    /// The parents of `(x, y)` that exist, from left to right.
    pub open spec fn parent_coords(&self, x: int, y: int) -> Seq<(int, int)> {
        self.parent_seq(x, y, 0) + self.parent_seq(x, y, 1) + self.parent_seq(x, y, 2)
    }

    /// The four neighbours of `(x, y)` as `(left, right, up, down)`, wrapping
    /// around the edges of the grid.
    pub fn get_adjacent(&self, x: usize, y: usize) -> (adjacent: (&T, &T, &T, &T))
        requires
            self.wf(),
            self.in_bounds(x as int, y as int),
        ensures
            *adjacent.0 == self.cell(self.left_of(x as int), y as int),
            *adjacent.1 == self.cell(self.right_of(x as int), y as int),
            *adjacent.2 == self.cell(x as int, self.up_of(y as int)),
            *adjacent.3 == self.cell(x as int, self.down_of(y as int)),
    {
        let left = if x == 0 {
            self.get(self.width() - 1, y)
        } else {
            self.get(x - 1, y)
        };

        let right = if x == self.width() - 1 {
            self.get(0, y)
        } else {
            self.get(x + 1, y)
        };

        let up = if y == 0 {
            self.get(x, self.height() - 1)
        } else {
            self.get(x, y - 1)
        };

        let down = if y == self.height() - 1 {
            self.get(x, 0)
        } else {
            self.get(x, y + 1)
        };

        (left, right, up, down)
    }

    /// The cells at row `y - 1` and columns `x - 1`, `x`, `x + 1`, clipped at the
    /// edges of the grid: a candidate outside the grid is `None`.
    pub fn get_parents(&self, x: usize, y: usize) -> (parents: [Option<&T>; 3])
        requires
            self.wf(),
        ensures
            forall|i: int|
                0 <= i < 3 ==> #[trigger] parents@[i] == match self.parent(x as int, y as int, i) {
                    Some((px, py)) => Some(&self.cell(px, py)),
                    None => None,
                },
    {
        let mut left: Option<&T> = None;
        let mut middle: Option<&T> = None;
        let mut right: Option<&T> = None;

        if y > 0 && y - 1 < self.height() {
            let y = y - 1;

            if x > 0 && x - 1 < self.width() {
                left = Some(self.get(x - 1, y));
            }
            if x < self.width() {
                middle = Some(self.get(x, y));
            }
            if self.width() > 0 && x < self.width() - 1 {
                right = Some(self.get(x + 1, y));
            }
        }

        [left, middle, right]
    }

    /// The parents of `(x, y)` that exist, from left to right.
    pub fn iter_parents(&self, x: usize, y: usize) -> (parents: Vec<&T>)
        requires
            self.wf(),
        ensures
            parents@.len() == self.parent_coords(x as int, y as int).len(),
            forall|i: int|
                0 <= i < parents@.len() ==> *#[trigger] parents@[i] == self.cell(
                    self.parent_coords(x as int, y as int)[i].0,
                    self.parent_coords(x as int, y as int)[i].1,
                ),
    {
        let indexed = self.get_parents_indexed(x, y);
        let mut parents: Vec<&T> = Vec::new();
        let mut i: usize = 0;
        while i < indexed.len()
            invariant
                i <= indexed@.len(),
                parents@.len() == i,
                forall|j: int| 0 <= j < i ==> *#[trigger] parents@[j] == *indexed@[j].1,
            decreases indexed@.len() - i,
        {
            parents.push(indexed[i].1);
            i += 1;
        }
        parents
    }

    /// The parents of `(x, y)` that exist, from left to right, each with its
    /// coordinates.
    pub fn get_parents_indexed(&self, x: usize, y: usize) -> (parents: Vec<((usize, usize), &T)>)
        requires
            self.wf(),
        ensures
            parents@.len() == self.parent_coords(x as int, y as int).len(),
            forall|i: int|
                0 <= i < parents@.len() ==> {
                    let p = self.parent_coords(x as int, y as int)[i];
                    &&& (#[trigger] parents@[i]).0.0 == p.0
                    &&& parents@[i].0.1 == p.1
                    &&& *parents@[i].1 == self.cell(p.0, p.1)
                },
    {
        let mut parents: Vec<((usize, usize), &T)> = Vec::new();
        let mut iter = self.iter_parents_with_coords(x, y);
        loop
            invariant
                self.wf(),
                iter.wf(),
                iter.grid_wf(self),
                parents@.len() + iter.remaining().len() == self.parent_coords(
                    x as int,
                    y as int,
                ).len(),
                iter.remaining() == self.parent_coords(x as int, y as int).skip(
                    parents@.len() as int,
                ),
                forall|i: int|
                    0 <= i < parents@.len() ==> {
                        let p = self.parent_coords(x as int, y as int)[i];
                        &&& (#[trigger] parents@[i]).0.0 == p.0
                        &&& parents@[i].0.1 == p.1
                        &&& *parents@[i].1 == self.cell(p.0, p.1)
                    },
            ensures
                iter.remaining().len() == 0,
            decreases iter.remaining().len(),
        {
            match iter.next() {
                Some(item) => {
                    parents.push(item);
                },
                None => {
                    break ;
                },
            }
        }
        parents
    }

    /// A cursor over the parents of `(x, y)` that exist, from left to right.
    pub fn iter_parents_with_coords(&self, x: usize, y: usize) -> (iter: ParentIter<'_, T>)
        requires
            self.wf(),
        ensures
            iter.wf(),
            iter.grid_wf(self),
            iter.remaining() == self.parent_coords(x as int, y as int),
    {
        ParentIter::new(self, x, y)
    }

    /// The cells of row `y`, from left to right.
    pub fn get_row(&self, y: usize) -> (row: Vec<&T>)
        requires
            self.wf(),
            self.spec_width() == 0 || y < self.spec_height(),
        ensures
            row@.len() == self.spec_width(),
            forall|x: int| 0 <= x < row@.len() ==> *#[trigger] row@[x] == self.cell(x, y as int),
    {
        let mut row: Vec<&T> = Vec::new();
        let width = self.width();
        let mut x: usize = 0;
        while x < width
            invariant
                self.wf(),
                width == self.spec_width(),
                y < self.spec_height() || width == 0,
                x <= width,
                row@.len() == x,
                forall|i: int| 0 <= i < x ==> *#[trigger] row@[i] == self.cell(i, y as int),
            decreases width - x,
        {
            row.push(self.get(x, y));
            x += 1;
        }
        row
    }

    /// The cells of row `y`, from left to right, each with its coordinates.
    pub fn get_row_with_coords(&self, y: usize) -> (row: Vec<(usize, usize, &T)>)
        requires
            self.wf(),
            self.spec_width() == 0 || y < self.spec_height(),
        ensures
            row@.len() == self.spec_width(),
            forall|x: int|
                0 <= x < row@.len() ==> {
                    &&& (#[trigger] row@[x]).0 == x
                    &&& row@[x].1 == y
                    &&& *row@[x].2 == self.cell(x, y as int)
                },
    {
        let mut row: Vec<(usize, usize, &T)> = Vec::new();
        let width = self.width();
        let mut x: usize = 0;
        while x < width
            invariant
                self.wf(),
                width == self.spec_width(),
                y < self.spec_height() || width == 0,
                x <= width,
                row@.len() == x,
                forall|i: int|
                    0 <= i < x ==> {
                        &&& (#[trigger] row@[i]).0 == i
                        &&& row@[i].1 == y
                        &&& *row@[i].2 == self.cell(i, y as int)
                    },
            decreases width - x,
        {
            row.push((x, y, self.get(x, y)));
            x += 1;
        }
        row
    }

    /// Every cell in coordinate order: row by row, each from left to right.
    pub fn iter(&self) -> (items: Vec<&T>)
        requires
            self.wf(),
        ensures
            items@.len() == self.spec_width() * self.spec_height(),
            forall|x: int, y: int|
                self.in_bounds(x, y) ==> *#[trigger] items@[y * self.spec_width() + x]
                    == self.cell(x, y),
    {
        let mut items: Vec<&T> = Vec::new();
        let width = self.width();
        let height = self.height();
        let mut y: usize = 0;
        while y < height
            invariant
                self.wf(),
                width == self.spec_width(),
                height == self.spec_height(),
                y <= height,
                items@.len() == width * y,
                forall|i: int, j: int|
                    0 <= i < width && 0 <= j < y ==> *#[trigger] items@[j * width + i] == self.cell(
                        i,
                        j,
                    ),
            decreases height - y,
        {
            let mut x: usize = 0;
            while x < width
                invariant
                    self.wf(),
                    width == self.spec_width(),
                    height == self.spec_height(),
                    y < height,
                    x <= width,
                    items@.len() == width * y + x,
                    forall|i: int, j: int|
                        0 <= i < width && 0 <= j < y ==> *#[trigger] items@[j * width + i]
                            == self.cell(i, j),
                    forall|i: int| 0 <= i < x ==> *#[trigger] items@[y * width + i] == self.cell(i, y as int),
                decreases width - x,
            {
                let ghost prev = items@;
                items.push(self.get(x, y));
                proof {
                    lemma_row_major(width as int, y as int, x as int);
                    assert forall|i: int, j: int| 0 <= i < width && 0 <= j < y implies *#[trigger] items@[j
                        * width + i] == self.cell(i, j) by {
                        lemma_row_major_lt(width as int, i, j, y as int);
                        assert(items@[j * width + i] == prev[j * width + i]);
                    }
                    assert forall|i: int| 0 <= i < x + 1 implies *#[trigger] items@[y * width + i]
                        == self.cell(i, y as int) by {
                        if i < x {
                            assert(items@[y * width + i] == prev[y * width + i]);
                        }
                    }
                }
                x += 1;
            }
            proof {
                lemma_row_major(width as int, y as int + 1, 0);
                lemma_row_major(width as int, y as int, 0);
                assert(width * (y + 1) == width * y + width) by (nonlinear_arith);
            }
            y += 1;
        }
        proof {
            assert(width * height == self.spec_width() * self.spec_height());
        }
        items
    }

    /// Every cell in coordinate order, each with the coordinates that it has in
    /// the natural, unrotated orientation.
    pub fn coord_iter(&self) -> (items: Vec<(usize, usize, &T)>)
        requires
            self.wf(),
        ensures
            items@.len() == self.spec_width() * self.spec_height(),
            forall|x: int, y: int|
                self.in_bounds(x, y) ==> {
                    let item = #[trigger] items@[y * self.spec_width() + x];
                    &&& item.0 == self.col_of(x, y)
                    &&& item.1 == self.row_of(x, y)
                    &&& *item.2 == self.cell(x, y)
                },
    {
        let mut items: Vec<(usize, usize, &T)> = Vec::new();
        let width = self.width();
        let height = self.height();
        let mut y: usize = 0;
        while y < height
            invariant
                self.wf(),
                width == self.spec_width(),
                height == self.spec_height(),
                y <= height,
                items@.len() == width * y,
                forall|i: int, j: int|
                    0 <= i < width && 0 <= j < y ==> {
                        let item = #[trigger] items@[j * width + i];
                        &&& item.0 == self.col_of(i, j)
                        &&& item.1 == self.row_of(i, j)
                        &&& *item.2 == self.cell(i, j)
                    },
            decreases height - y,
        {
            let mut x: usize = 0;
            while x < width
                invariant
                    self.wf(),
                    width == self.spec_width(),
                    height == self.spec_height(),
                    y < height,
                    x <= width,
                    items@.len() == width * y + x,
                    forall|i: int, j: int|
                        0 <= i < width && 0 <= j < y ==> {
                            let item = #[trigger] items@[j * width + i];
                            &&& item.0 == self.col_of(i, j)
                            &&& item.1 == self.row_of(i, j)
                            &&& *item.2 == self.cell(i, j)
                        },
                    forall|i: int|
                        0 <= i < x ==> {
                            let item = #[trigger] items@[y * width + i];
                            &&& item.0 == self.col_of(i, y as int)
                            &&& item.1 == self.row_of(i, y as int)
                            &&& *item.2 == self.cell(i, y as int)
                        },
                decreases width - x,
            {
                let ghost prev = items@;
                let (r, c) = self.rotate_point((x, y));
                items.push((c, r, self.get(x, y)));
                proof {
                    lemma_row_major(width as int, y as int, x as int);
                    assert forall|i: int, j: int| 0 <= i < width && 0 <= j < y implies {
                        let item = #[trigger] items@[j * width + i];
                        &&& item.0 == self.col_of(i, j)
                        &&& item.1 == self.row_of(i, j)
                        &&& *item.2 == self.cell(i, j)
                    } by {
                        lemma_row_major_lt(width as int, i, j, y as int);
                        assert(items@[j * width + i] == prev[j * width + i]);
                    }
                    assert forall|i: int| 0 <= i < x + 1 implies {
                        let item = #[trigger] items@[y * width + i];
                        &&& item.0 == self.col_of(i, y as int)
                        &&& item.1 == self.row_of(i, y as int)
                        &&& *item.2 == self.cell(i, y as int)
                    } by {
                        if i < x {
                            assert(items@[y * width + i] == prev[y * width + i]);
                        }
                    }
                }
                x += 1;
            }
            proof {
                lemma_row_major(width as int, y as int + 1, 0);
                lemma_row_major(width as int, y as int, 0);
                assert(width * (y + 1) == width * y + width) by (nonlinear_arith);
            }
            y += 1;
        }
        items
    }
}

impl<T> Grid<T> {
    /// Where a token that resolved to `at` resolves once the content of `from`
    /// was moved onto `to`, dropping what stood there.
    pub open spec fn moved(at: Option<(int, int)>, from: (int, int), to: (int, int)) -> Option<
        (int, int),
    > {
        match at {
            Some(p) => if p == from {
                Some(to)
            } else if p == to {
                None
            } else {
                Some(p)
            },
            None => None,
        }
    }

    /// The coordinates that `token` stands for now, or `None` once its content
    /// has left the grid.
    pub fn downgrade(&self, token: &Token) -> (point: Option<(usize, usize)>)
        requires
            self.wf(),
        ensures
            match point {
                Some((x, y)) => self.resolve(*token) == Some((x as int, y as int)) && self.in_bounds(
                    x as int,
                    y as int,
                ),
                None => self.resolve(*token) is None,
            },
    {
        if token.id >= self.positions.len() {
            return None;
        }
        let (r, c) = self.positions[token.id];
        if r >= self.rows || c >= self.cols {
            return None;
        }
        match self.slots[r][c] {
            Some(id) => {
                if id != token.id {
                    return None;
                }
            },
            None => {
                return None;
            },
        }
        if self.rotated {
            Some((r, c))
        } else {
            Some((c, r))
        }
    }

    /// Attaches a fresh position record to the content at `(x, y)` and returns the
    /// token that follows it. A token made earlier for that content is let go.
    pub fn make_token(&mut self, x: usize, y: usize) -> (token: Token)
        requires
            old(self).wf(),
            old(self).in_bounds(x as int, y as int),
        ensures
            final(self).wf(),
            final(self).same_shape(old(self)),
            final(self).same_cells(old(self)),
            token@ == old(self).issued(),
            final(self).issued() == old(self).issued() + 1,
            forall|i: int, j: int|
                old(self).in_bounds(i, j) ==> #[trigger] final(self).slot(i, j) == (if i == x && j
                    == y {
                    Some(token@)
                } else {
                    old(self).slot(i, j)
                }),
            forall|t: Token| #[trigger]
                final(self).resolve(t) == (if t@ == token@ {
                    Some((x as int, y as int))
                } else if old(self).resolve(t) == Some((x as int, y as int)) {
                    None
                } else {
                    old(self).resolve(t)
                }),
    {
        let (r, c) = self.rotate_point((x, y));
        let id = self.positions.len();
        self.positions.push((r, c));
        self.slots[r][c] = Some(id);
        proof {
            assert forall|i: int, j: int| 0 <= i < self.rows && 0 <= j < self.cols implies #[trigger] tracked_at(
                self.slots@,
                self.positions@,
                i,
                j,
            ) by {
                assert(tracked_at(old(self).slots@, old(self).positions@, i, j));
            }
            assert forall|t: Token| #[trigger]
                self.resolve(t) == (if t.id == id {
                    Some((x as int, y as int))
                } else if old(self).resolve(t) == Some((x as int, y as int)) {
                    None
                } else {
                    old(self).resolve(t)
                }) by {
                if t.id < id {
                    let (tr, tc) = old(self).positions@[t.id as int];
                    if tr < self.rows && tc < self.cols {
                        assert(tracked_at(old(self).slots@, old(self).positions@, tr as int, tc as int));
                    }
                }
            }
        }
        Token { id }
    }

    /// Makes tokens for the four neighbours of `(x, y)`, wrapping around the
    /// edges, in the order left, right, up, down. Where two neighbours are the
    /// same cell, the token made last is the one that stays attached.
    pub fn make_adjacent_tokens(&mut self, x: usize, y: usize) -> (tokens: [Token; 4])
        requires
            old(self).wf(),
            old(self).in_bounds(x as int, y as int),
        ensures
            final(self).wf(),
            final(self).same_shape(old(self)),
            final(self).same_cells(old(self)),
            final(self).issued() == old(self).issued() + 4,
            forall|k: int| 0 <= k < 4 ==> (#[trigger] tokens@[k])@ == old(self).issued() + k,
            forall|i: int, j: int|
                old(self).in_bounds(i, j) ==> #[trigger] final(self).slot(i, j) == (if i == x && j
                    == old(self).down_of(y as int) {
                    Some(tokens@[3]@)
                } else if i == x && j == old(self).up_of(y as int) {
                    Some(tokens@[2]@)
                } else if i == old(self).right_of(x as int) && j == y {
                    Some(tokens@[1]@)
                } else if i == old(self).left_of(x as int) && j == y {
                    Some(tokens@[0]@)
                } else {
                    old(self).slot(i, j)
                }),
    {
        let x_left = if x == 0 {
            self.width() - 1
        } else {
            x - 1
        };
        let left = self.make_token(x_left, y);

        let x_right = if x == self.width() - 1 {
            0
        } else {
            x + 1
        };
        let right = self.make_token(x_right, y);

        let y_up = if y == 0 {
            self.height() - 1
        } else {
            y - 1
        };
        let up = self.make_token(x, y_up);

        let y_down = if y == self.height() - 1 {
            0
        } else {
            y + 1
        };
        let down = self.make_token(x, y_down);

        [left, right, up, down]
    }

    /// The value that `token` stands for, or `None` once it has left the grid.
    pub fn trade(&self, token: Token) -> (value: Option<&T>)
        requires
            self.wf(),
        ensures
            match value {
                Some(v) => match self.resolve(token) {
                    Some((x, y)) => self.in_bounds(x, y) && *v == self.cell(x, y),
                    None => false,
                },
                None => self.resolve(token) is None,
            },
    {
        match self.downgrade(&token) {
            Some((x, y)) => Some(self.get(x, y)),
            None => None,
        }
    }

    /// The four neighbours of the content that `token` stands for, or `None`
    /// once it has left the grid.
    pub fn get_token_adjacent(&self, token: &Token) -> (adjacent: Option<(&T, &T, &T, &T)>)
        requires
            self.wf(),
        ensures
            match adjacent {
                Some(a) => match self.resolve(*token) {
                    Some((x, y)) => {
                        &&& self.in_bounds(x, y)
                        &&& *a.0 == self.cell(self.left_of(x), y)
                        &&& *a.1 == self.cell(self.right_of(x), y)
                        &&& *a.2 == self.cell(x, self.up_of(y))
                        &&& *a.3 == self.cell(x, self.down_of(y))
                    },
                    None => false,
                },
                None => self.resolve(*token) is None,
            },
    {
        match self.downgrade(token) {
            Some((x, y)) => Some(self.get_adjacent(x, y)),
            None => None,
        }
    }

    /// Whether `self` is `before` without its last column: the cells that stay
    /// keep their values and tokens, and the tokens of the dropped cells no
    /// longer resolve.
    pub open spec fn without_last_column_of(&self, before: &Self) -> bool {
        &&& self.spec_width() == before.spec_width() - 1
        &&& self.spec_height() == before.spec_height()
        &&& self.spec_is_rotated() == before.spec_is_rotated()
        &&& self.issued() == before.issued()
        &&& forall|x: int, y: int|
            self.in_bounds(x, y) ==> #[trigger] self.cell(x, y) == before.cell(x, y)
        &&& forall|x: int, y: int|
            self.in_bounds(x, y) ==> #[trigger] self.slot(x, y) == before.slot(x, y)
        &&& forall|t: Token| #[trigger]
            self.resolve(t) == match before.resolve(t) {
                Some((x, y)) => if x == before.spec_width() - 1 {
                    None
                } else {
                    Some((x, y))
                },
                None => None,
            }
    }

    /// Drops the last column of every row. Tokens of the dropped cells no longer
    /// resolve.
    pub fn remove_last_column(&mut self)
        requires
            old(self).wf(),
            old(self).spec_width() >= 1,
        ensures
            final(self).wf(),
            final(self).without_last_column_of(old(self)),
    {
        if self.rotated {
            self.cells.pop();
            self.slots.pop();
            self.rows = self.rows - 1;
        } else {
            let mut r: usize = 0;
            while r < self.rows
                invariant
                    r <= self.rows,
                    self.rows == old(self).rows,
                    self.cols == old(self).cols,
                    self.cols >= 1,
                    self.rotated == old(self).rotated,
                    self.positions == old(self).positions,
                    old(self).wf(),
                    self.cells@.len() == self.rows,
                    self.slots@.len() == self.rows,
                    forall|i: int|
                        0 <= i < r ==> (#[trigger] self.cells@[i])@ == old(self).cells@[i]@.drop_last(),
                    forall|i: int|
                        0 <= i < r ==> (#[trigger] self.slots@[i])@ == old(self).slots@[i]@.drop_last(),
                    forall|i: int| r <= i < self.rows ==> #[trigger] self.cells@[i] == old(self).cells@[i],
                    forall|i: int| r <= i < self.rows ==> #[trigger] self.slots@[i] == old(self).slots@[i],
                decreases self.rows - r,
            {
                self.cells[r].pop();
                self.slots[r].pop();
                r += 1;
            }
            self.cols = self.cols - 1;
        }
        proof {
            assert forall|i: int, j: int| 0 <= i < self.rows && 0 <= j < self.cols implies #[trigger] tracked_at(
                self.slots@,
                self.positions@,
                i,
                j,
            ) by {
                assert(tracked_at(old(self).slots@, old(self).positions@, i, j));
            }
            assert forall|t: Token| #[trigger]
                self.resolve(t) == match old(self).resolve(t) {
                    Some((x, y)) => if x == old(self).spec_width() - 1 {
                        None
                    } else {
                        Some((x, y))
                    },
                    None => None,
                } by {
                if t.id < self.positions@.len() {
                    let (tr, tc) = self.positions@[t.id as int];
                    if tr < self.rows && tc < self.cols {
                        assert(self.slots@[tr as int]@[tc as int] == old(self).slots@[tr as int]@[tc as int]);
                    }
                }
            }
        }
    }

    /// Mutable access to the value that `token` stands for, or `None` once it
    /// has left the grid; nothing else changes.
    pub fn trade_mut(&mut self, token: Token) -> (value: Option<&mut T>)
        requires
            old(self).wf(),
        ensures
            final(self).wf(),
            final(self).same_shape(old(self)),
            final(self).same_slots(old(self)),
            match value {
                Some(v) => match old(self).resolve(token) {
                    Some((x, y)) => {
                        &&& old(self).in_bounds(x, y)
                        &&& *v == old(self).cell(x, y)
                        &&& final(self).cell(x, y) == *final(v)
                        &&& forall|i: int, j: int|
                            old(self).in_bounds(i, j) && (i != x || j != y) ==> #[trigger] final(self).cell(i, j) == old(self).cell(i, j)
                    },
                    None => false,
                },
                None => old(self).resolve(token) is None && final(self).same_cells(old(self)),
            },
    {
        match self.downgrade(&token) {
            Some((x, y)) => Some(self.get_mut(x, y)),
            None => None,
        }
    }
}

impl<T: Clone> Grid<T> {
    /// Overwrites the cell `to` with a clone of the cell `from`. The token
    /// attached to `from` follows the content to `to`; the one that was attached
    /// to `to` is let go.
    fn move_cell(&mut self, from: (usize, usize), to: (usize, usize))
        requires
            old(self).wf(),
            old(self).in_bounds(from.0 as int, from.1 as int),
            old(self).in_bounds(to.0 as int, to.1 as int),
            from != to,
        ensures
            final(self).wf(),
            final(self).same_shape(old(self)),
            final(self).issued() == old(self).issued(),
            cloned(
                old(self).cell(from.0 as int, from.1 as int),
                final(self).cell(to.0 as int, to.1 as int),
            ),
            forall|i: int, j: int|
                old(self).in_bounds(i, j) && (i != to.0 || j != to.1) ==> #[trigger] final(self).cell(i, j) == old(self).cell(i, j),
            forall|i: int, j: int|
                old(self).in_bounds(i, j) ==> #[trigger] final(self).slot(i, j) == (if i == to.0
                    && j == to.1 {
                    old(self).slot(from.0 as int, from.1 as int)
                } else if i == from.0 && j == from.1 {
                    None
                } else {
                    old(self).slot(i, j)
                }),
            forall|t: Token| #[trigger]
                final(self).resolve(t) == Self::moved(
                    old(self).resolve(t),
                    (from.0 as int, from.1 as int),
                    (to.0 as int, to.1 as int),
                ),
    {
        let (fr, fc) = self.rotate_point(from);
        let (tr, tc) = self.rotate_point(to);
        let value = self.cells[fr][fc].clone();
        self.cells[tr][tc] = value;
        let id = self.slots[fr][fc];
        self.slots[fr][fc] = None;
        self.slots[tr][tc] = id;
        proof {
            assert(tracked_at(old(self).slots@, old(self).positions@, fr as int, fc as int));
        }
        match id {
            Some(id) => {
                self.positions[id] = (tr, tc);
            },
            None => {},
        }
        proof {
            assert forall|i: int, j: int| 0 <= i < self.rows && 0 <= j < self.cols implies #[trigger] tracked_at(
                self.slots@,
                self.positions@,
                i,
                j,
            ) by {
                assert(tracked_at(old(self).slots@, old(self).positions@, i, j));
            }
            assert forall|t: Token| #[trigger]
                self.resolve(t) == Self::moved(
                    old(self).resolve(t),
                    (from.0 as int, from.1 as int),
                    (to.0 as int, to.1 as int),
                ) by {
                if t.id < self.positions@.len() {
                    let (pr, pc) = old(self).positions@[t.id as int];
                    if pr < self.rows && pc < self.cols {
                        assert(tracked_at(old(self).slots@, old(self).positions@, pr as int, pc as int));
                    }
                    assert(tracked_at(old(self).slots@, old(self).positions@, tr as int, tc as int));
                }
            }
        }
    }

    /// Closes the gap left by removing the cell at `(x, y)`: every cell of row `y`
    /// from column `x` on, but the last, takes a clone of its right neighbour.
    /// Tokens follow their content one column to the left, and the token of the
    /// overwritten cell `(x, y)` is let go. Outside the grid, or at the last
    /// column, there is nothing to shift.
    pub fn shift_row_left_from_point(&mut self, x: usize, y: usize)
        requires
            old(self).wf(),
        ensures
            final(self).wf(),
            final(self).same_shape(old(self)),
            final(self).issued() == old(self).issued(),
            forall|i: int, j: int|
                old(self).in_bounds(i, j) ==> if old(self).shifts_left(x as int, y as int, i, j) {
                    &&& cloned(old(self).cell(i + 1, j), #[trigger] final(self).cell(i, j))
                } else {
                    final(self).cell(i, j) == old(self).cell(i, j)
                },
            forall|i: int, j: int|
                old(self).in_bounds(i, j) ==> #[trigger] final(self).slot(i, j) == (if old(self).shifts_left(x as int, y as int, i, j) {
                    old(self).slot(i + 1, j)
                } else if old(self).shifts_left(x as int, y as int, i - 1, j) {
                    None
                } else {
                    old(self).slot(i, j)
                }),
            forall|t: Token| #[trigger]
                final(self).resolve(t) == old(self).resolve_shifted_left(t, x as int, y as int),
    {
        if y >= self.height() || x >= self.width() {
            return ;
        }
        let width = self.width();
        let mut c: usize = x;
        while c < width - 1
            invariant
                self.wf(),
                old(self).wf(),
                self.same_shape(old(self)),
                self.issued() == old(self).issued(),
                width == self.spec_width(),
                y < self.spec_height(),
                x <= c < width,
                forall|i: int, j: int|
                    old(self).in_bounds(i, j) ==> if j == y && x <= i < c {
                        &&& cloned(old(self).cell(i + 1, j), #[trigger] self.cell(i, j))
                    } else {
                        self.cell(i, j) == old(self).cell(i, j)
                    },
                forall|i: int, j: int|
                    old(self).in_bounds(i, j) ==> #[trigger] self.slot(i, j) == (if j == y && x <= i
                        < c {
                        old(self).slot(i + 1, j)
                    } else if j == y && i == c && x < c {
                        None
                    } else {
                        old(self).slot(i, j)
                    }),
                forall|t: Token| #[trigger]
                    self.resolve(t) == match old(self).resolve(t) {
                        Some((i, j)) => if j == y && i == x && x < c {
                            None
                        } else if j == y && x < i <= c {
                            Some((i - 1, j))
                        } else {
                            Some((i, j))
                        },
                        None => None,
                    },
            decreases width - c,
        {
            let ghost before = *self;
            self.move_cell((c + 1, y), (c, y));
            proof {
                assert forall|t: Token| #[trigger]
                    self.resolve(t) == match old(self).resolve(t) {
                        Some((i, j)) => if j == y && i == x && x < c + 1 {
                            None
                        } else if j == y && x < i <= c + 1 {
                            Some((i - 1, j))
                        } else {
                            Some((i, j))
                        },
                        None => None,
                    } by {
                    assert(self.resolve(t) == Self::moved(
                        before.resolve(t),
                        (c + 1, y as int),
                        (c as int, y as int),
                    ));
                    old(self).lemma_resolve(t);
                }
            }
            c += 1;
        }
    }

    /// Whether the cell `(i, j)` takes the content of its right neighbour when
    /// row `y` is shifted left from column `x`.
    pub open spec fn shifts_left(&self, x: int, y: int, i: int, j: int) -> bool {
        j == y && 0 <= y < self.spec_height() && 0 <= x <= i < self.spec_width() - 1
    }

    /// Where `t` resolves after row `y` was shifted left from column `x`.
    pub open spec fn resolve_shifted_left(&self, t: Token, x: int, y: int) -> Option<(int, int)> {
        match self.resolve(t) {
            Some((i, j)) => if self.shifts_left(x, y, i, j) && i == x {
                None
            } else if self.shifts_left(x, y, i - 1, j) {
                Some((i - 1, j))
            } else {
                Some((i, j))
            },
            None => None,
        }
    }

    /// Whether the cell `(i, j)` takes the content of its left neighbour when
    /// row `y` is shifted right from column `x`.
    pub open spec fn shifts_right(&self, x: int, y: int, i: int, j: int) -> bool {
        j == y && 0 <= y < self.spec_height() && 0 <= x < i < self.spec_width()
    }

    /// Where `t` resolves after row `y` was shifted right from column `x`.
    pub open spec fn resolve_shifted_right(&self, t: Token, x: int, y: int) -> Option<(int, int)> {
        match self.resolve(t) {
            Some((i, j)) => if self.shifts_right(x, y, i + 1, j) {
                Some((i + 1, j))
            } else if self.shifts_right(x, y, i, j) {
                None
            } else {
                Some((i, j))
            },
            None => None,
        }
    }

    /// Opens a gap at `(x + 1, y)`: every cell of row `y` right of column `x`
    /// takes a clone of its left neighbour, starting from the last column. Tokens
    /// follow their content one column to the right, and the token of the last
    /// cell, whose content is overwritten, is let go. Outside the grid, or at the
    /// last column, there is nothing to shift.
    pub fn shift_row_right_from_point(&mut self, x: usize, y: usize)
        requires
            old(self).wf(),
        ensures
            final(self).wf(),
            final(self).same_shape(old(self)),
            final(self).issued() == old(self).issued(),
            forall|i: int, j: int|
                old(self).in_bounds(i, j) ==> if old(self).shifts_right(x as int, y as int, i, j) {
                    &&& cloned(old(self).cell(i - 1, j), #[trigger] final(self).cell(i, j))
                } else {
                    final(self).cell(i, j) == old(self).cell(i, j)
                },
            forall|i: int, j: int|
                old(self).in_bounds(i, j) ==> #[trigger] final(self).slot(i, j) == (if old(self).shifts_right(x as int, y as int, i, j) {
                    old(self).slot(i - 1, j)
                } else if old(self).shifts_right(x as int, y as int, i + 1, j) {
                    None
                } else {
                    old(self).slot(i, j)
                }),
            forall|t: Token| #[trigger]
                final(self).resolve(t) == old(self).resolve_shifted_right(t, x as int, y as int),
    {
        if y >= self.height() || x >= self.width() {
            return ;
        }
        let width = self.width();
        let mut c: usize = width - 1;
        while c > x
            invariant
                self.wf(),
                old(self).wf(),
                self.same_shape(old(self)),
                self.issued() == old(self).issued(),
                width == self.spec_width(),
                y < self.spec_height(),
                x <= c < width,
                forall|i: int, j: int|
                    old(self).in_bounds(i, j) ==> if j == y && c < i < width {
                        &&& cloned(old(self).cell(i - 1, j), #[trigger] self.cell(i, j))
                    } else {
                        self.cell(i, j) == old(self).cell(i, j)
                    },
                forall|i: int, j: int|
                    old(self).in_bounds(i, j) ==> #[trigger] self.slot(i, j) == (if j == y && c < i
                        < width {
                        old(self).slot(i - 1, j)
                    } else if j == y && i == c && c < width - 1 {
                        None
                    } else {
                        old(self).slot(i, j)
                    }),
                forall|t: Token| #[trigger]
                    self.resolve(t) == match old(self).resolve(t) {
                        Some((i, j)) => if j == y && i == width - 1 && c < width - 1 {
                            None
                        } else if j == y && c <= i < width - 1 {
                            Some((i + 1, j))
                        } else {
                            Some((i, j))
                        },
                        None => None,
                    },
            decreases c,
        {
            let ghost before = *self;
            self.move_cell((c - 1, y), (c, y));
            proof {
                assert forall|t: Token| #[trigger]
                    self.resolve(t) == match old(self).resolve(t) {
                        Some((i, j)) => if j == y && i == width - 1 && c - 1 < width - 1 {
                            None
                        } else if j == y && c - 1 <= i < width - 1 {
                            Some((i + 1, j))
                        } else {
                            Some((i, j))
                        },
                        None => None,
                    } by {
                    assert(self.resolve(t) == Self::moved(
                        before.resolve(t),
                        (c - 1, y as int),
                        (c as int, y as int),
                    ));
                    old(self).lemma_resolve(t);
                }
            }
            c -= 1;
        }
    }

    /// Whether `self` is `before` with one more column: the cells of `before`
    /// keep their values and tokens, and each new cell is a clone of the cell to
    /// its left and carries no token.
    pub open spec fn with_last_column_of(&self, before: &Self) -> bool {
        &&& self.spec_width() == before.spec_width() + 1
        &&& self.spec_height() == before.spec_height()
        &&& self.spec_is_rotated() == before.spec_is_rotated()
        &&& self.same_cells(before)
        &&& self.same_slots(before)
        &&& forall|y: int|
            0 <= y < before.spec_height() ==> cloned(
                before.cell(before.spec_width() - 1, y),
                #[trigger] self.cell(before.spec_width() as int, y),
            )
        &&& forall|y: int|
            0 <= y < before.spec_height() ==> #[trigger] self.slot(
                before.spec_width() as int,
                y,
            ) is None
    }

    /// Appends to every row a clone of its last cell. The new cells carry no
    /// token, and every token resolves as before.
    pub fn add_last_column(&mut self)
        requires
            old(self).wf(),
            old(self).spec_width() >= 1,
            old(self).spec_width() < usize::MAX,
        ensures
            final(self).wf(),
            final(self).with_last_column_of(old(self)),
    {
        if self.rotated {
            let last = self.rows - 1;
            let mut row: Vec<T> = Vec::new();
            let mut c: usize = 0;
            while c < self.cols
                invariant
                    *self == *old(self),
                    self.wf(),
                    last == self.rows - 1,
                    c <= self.cols,
                    row@.len() == c,
                    forall|i: int|
                        0 <= i < c ==> cloned(self.cells@[last as int]@[i], #[trigger] row@[i]),
                decreases self.cols - c,
            {
                row.push(self.cells[last][c].clone());
                c += 1;
            }
            let slot_row = Self::empty_slot_row(self.cols);
            self.cells.push(row);
            self.slots.push(slot_row);
            self.rows = self.rows + 1;
        } else {
            let last = self.cols - 1;
            let mut r: usize = 0;
            while r < self.rows
                invariant
                    r <= self.rows,
                    self.rows == old(self).rows,
                    self.cols == old(self).cols,
                    last == self.cols - 1,
                    self.cols >= 1,
                    self.rotated == old(self).rotated,
                    self.positions == old(self).positions,
                    old(self).wf(),
                    self.cells@.len() == self.rows,
                    self.slots@.len() == self.rows,
                    forall|i: int|
                        0 <= i < r ==> {
                            &&& (#[trigger] self.cells@[i])@.len() == self.cols + 1
                            &&& self.cells@[i]@.drop_last() == old(self).cells@[i]@
                            &&& cloned(old(self).cells@[i]@[last as int], self.cells@[i]@[self.cols as int])
                        },
                    forall|i: int|
                        0 <= i < r ==> (#[trigger] self.slots@[i])@ == old(self).slots@[i]@.push(None),
                    forall|i: int| r <= i < self.rows ==> #[trigger] self.cells@[i] == old(self).cells@[i],
                    forall|i: int| r <= i < self.rows ==> #[trigger] self.slots@[i] == old(self).slots@[i],
                decreases self.rows - r,
            {
                let value = self.cells[r][last].clone();
                self.cells[r].push(value);
                self.slots[r].push(None);
                proof {
                    assert(self.cells@[r as int]@.drop_last() =~= old(self).cells@[r as int]@);
                }
                r += 1;
            }
            self.cols = self.cols + 1;
        }
        proof {
            assert forall|i: int, j: int| 0 <= i < self.rows && 0 <= j < self.cols implies #[trigger] tracked_at(
                self.slots@,
                self.positions@,
                i,
                j,
            ) by {
                if i < old(self).rows && j < old(self).cols {
                    assert(tracked_at(old(self).slots@, old(self).positions@, i, j));
                }
            }
            assert forall|x: int, y: int| old(self).in_bounds(x, y) implies #[trigger] self.cell(x, y)
                == old(self).cell(x, y) by {
                let r = old(self).row_of(x, y);
                let c = old(self).col_of(x, y);
                if !self.rotated {
                    assert(self.cells@[r]@.drop_last()[c] == self.cells@[r]@[c]);
                }
            }
            assert forall|t: Token| #[trigger] self.resolve(t) == old(self).resolve(t) by {
                if t.id < self.positions@.len() {
                    let (tr, tc) = self.positions@[t.id as int];
                    if tr < self.rows && tc < self.cols {
                        if tr < old(self).rows && tc < old(self).cols {
                            assert(self.slots@[tr as int]@[tc as int] == old(self).slots@[tr as int]@[tc as int]);
                        }
                    }
                }
            }
        }
    }

    /// A clone of every value, in the same layout.
    fn clone_points_without_positions(&self) -> (rows: Vec<Vec<T>>)
        ensures
            rows@.len() == self.cells@.len(),
            forall|r: int|
                0 <= r < rows@.len() ==> (#[trigger] rows@[r])@.len() == self.cells@[r]@.len(),
            forall|r: int, c: int|
                0 <= r < rows@.len() && 0 <= c < self.cells@[r]@.len() ==> cloned(
                    self.cells@[r]@[c],
                    #[trigger] rows@[r]@[c],
                ),
    {
        let mut rows: Vec<Vec<T>> = Vec::new();
        let mut r: usize = 0;
        while r < self.cells.len()
            invariant
                r <= self.cells@.len(),
                rows@.len() == r,
                forall|i: int| 0 <= i < r ==> (#[trigger] rows@[i])@.len() == self.cells@[i]@.len(),
                forall|i: int, c: int|
                    0 <= i < r && 0 <= c < self.cells@[i]@.len() ==> cloned(
                        self.cells@[i]@[c],
                        #[trigger] rows@[i]@[c],
                    ),
            decreases self.cells@.len() - r,
        {
            let mut new_row: Vec<T> = Vec::new();
            let mut c: usize = 0;
            while c < self.cells[r].len()
                invariant
                    r < self.cells@.len(),
                    c <= self.cells@[r as int]@.len(),
                    new_row@.len() == c,
                    forall|i: int|
                        0 <= i < c ==> cloned(self.cells@[r as int]@[i], #[trigger] new_row@[i]),
                decreases self.cells@[r as int]@.len() - c,
            {
                new_row.push(self.cells[r][c].clone());
                c += 1;
            }
            rows.push(new_row);
            r += 1;
        }
        rows
    }
}

/// Cloning a grid clones every value but none of the identity tracking: the clone
/// starts with no token attached, so that edits of the clone never move the
/// tokens of the original.
impl<T: Clone> Clone for Grid<T> {
    fn clone(&self) -> (copy: Self)
        ensures
            self.wf() ==> {
                &&& copy.wf()
                &&& copy.same_shape(self)
                &&& copy.issued() == 0
                &&& forall|x: int, y: int|
                    self.in_bounds(x, y) ==> cloned(self.cell(x, y), #[trigger] copy.cell(x, y))
                &&& forall|x: int, y: int| self.in_bounds(x, y) ==> #[trigger] copy.slot(x, y) is None
                &&& forall|t: Token| #[trigger] copy.resolve(t) is None
            },
    {
        Grid {
            cells: self.clone_points_without_positions(),
            slots: Self::convert_container(self.rows, self.cols),
            positions: Vec::new(),
            rows: self.rows,
            cols: self.cols,
            rotated: self.rotated,
        }
    }
}

impl<T> Grid<T> {
    /// Rotating twice gives the grid back: the same width and height, the same
    /// value at every `(x, y)`, and the same tokens.
    pub proof fn lemma_rotate_twice(&self, once: &Self, twice: &Self)
        requires
            self.wf(),
            once.rotation_of(self),
            twice.rotation_of(once),
        ensures
            twice.same_shape(self),
            twice.same_cells(self),
            twice.same_slots(self),
    {
        assert forall|x: int, y: int| self.in_bounds(x, y) implies #[trigger] twice.cell(x, y)
            == self.cell(x, y) by {
            assert(once.cell(y, x) == self.cell(x, y));
        }
        assert forall|x: int, y: int| self.in_bounds(x, y) implies #[trigger] twice.slot(x, y)
            == self.slot(x, y) by {
            assert(once.slot(y, x) == self.slot(x, y));
        }
        assert forall|t: Token| #[trigger] twice.resolve(t) == self.resolve(t) by {
            assert(once.resolve(t) == match self.resolve(t) {
                Some((x, y)) => Some((y, x)),
                None => None,
            });
        }
    }
}

impl<T: Clone> Grid<T> {
    /// Adding a last column and removing it again restores the width and every
    /// original cell, with its value and its token.
    pub proof fn lemma_add_then_remove_last_column(&self, added: &Self, removed: &Self)
        requires
            self.wf(),
            added.with_last_column_of(self),
            removed.without_last_column_of(added),
        ensures
            removed.same_shape(self),
            removed.same_cells(self),
            removed.same_slots(self),
    {
        assert forall|x: int, y: int| self.in_bounds(x, y) implies #[trigger] removed.cell(x, y)
            == self.cell(x, y) by {
            assert(added.cell(x, y) == self.cell(x, y));
        }
        assert forall|x: int, y: int| self.in_bounds(x, y) implies #[trigger] removed.slot(x, y)
            == self.slot(x, y) by {
            assert(added.slot(x, y) == self.slot(x, y));
        }
        assert forall|t: Token| #[trigger] removed.resolve(t) == self.resolve(t) by {
            assert(added.resolve(t) == self.resolve(t));
            self.lemma_resolve(t);
        }
    }
}

/// In row-major order, the cell `(x, y)` of a grid `width` wide stands at `y * width + x`.
proof fn lemma_row_major(width: int, y: int, x: int)
    ensures
        y * width + x == width * y + x,
{
    assert(y * width == width * y) by (nonlinear_arith);
}

/// A cell of an earlier row stands before every cell of a later row.
proof fn lemma_row_major_lt(width: int, i: int, j: int, y: int)
    requires
        0 <= i < width,
        0 <= j < y,
    ensures
        j * width + i < width * y,
{
    assert(j * width + i < width * y) by (nonlinear_arith)
        requires
            0 <= i < width,
            0 <= j < y,
    ;
}

/// A mutable reference to each item, in order.
fn borrow_each<'a, U>(items: &'a mut Vec<U>) -> (out: Vec<&'a mut U>)
    ensures
        out@.len() == old(items)@.len(),
        forall|i: int| 0 <= i < out@.len() ==> *#[trigger] out@[i] == old(items)@[i],
        final(items)@.len() == old(items)@.len(),
        forall|i: int| 0 <= i < out@.len() ==> #[trigger] final(items)@[i] == *final(out@[i]),
{
    let mut out: Vec<&'a mut U> = Vec::new();
    let mut rest: &'a mut [U] = items.as_mut_slice();
    let ghost all = rest@;
    let ghost end = final(rest)@;
    while rest.len() > 0
        invariant
            out@.len() + rest@.len() == all.len(),
            forall|i: int| 0 <= i < out@.len() ==> *#[trigger] out@[i] == all[i],
            forall|i: int| 0 <= i < rest@.len() ==> #[trigger] rest@[i] == all[out@.len() + i],
            end.len() == out@.len() + final(rest)@.len(),
            forall|i: int| 0 <= i < out@.len() ==> #[trigger] end[i] == *final(out@[i]),
            forall|i: int|
                0 <= i < final(rest)@.len() ==> #[trigger] end[out@.len() + i] == final(rest)@[i],
        decreases rest@.len(),
    {
        let ghost before = final(rest)@;
        let ghost done: int = out@.len() as int;
        let (head, tail) = rest.split_at_mut(1);
        let ghost head_end = final(head)@;
        proof {
            assert(before == head_end + final(tail)@);
        }
        match head.first_mut() {
            Some(first) => {
                proof {
                    assert(head_end.len() == 1);
                    assert(head_end[0] == *final(first));
                    assert(before[0] == *final(first));
                    assert(end[done + 0] == before[0]);
                    assert forall|i: int| 0 <= i < final(tail)@.len() implies #[trigger] end[done + 1
                        + i] == final(tail)@[i] by {
                        assert(before[1 + i] == final(tail)@[i]);
                        assert(end[done + (1 + i)] == before[1 + i]);
                    }
                }
                out.push(first);
            },
            None => {},
        }
        rest = tail;
    }
    out
}

/// The items from the last to the first.
fn reversed<R>(items: Vec<R>) -> (out: Vec<R>)
    ensures
        out@.len() == items@.len(),
        forall|i: int| 0 <= i < out@.len() ==> #[trigger] out@[i] == items@[items@.len() - 1 - i],
{
    let mut items = items;
    let ghost all = items@;
    let mut out: Vec<R> = Vec::new();
    while items.len() > 0
        invariant
            out@.len() + items@.len() == all.len(),
            forall|i: int| 0 <= i < items@.len() ==> #[trigger] items@[i] == all[i],
            forall|i: int| 0 <= i < out@.len() ==> #[trigger] out@[i] == all[all.len() - 1 - i],
        decreases items@.len(),
    {
        let item = items.pop().unwrap();
        out.push(item);
    }
    out
}

/// Empties a table row by row, each row from its end.
fn drain_rows<R>(table: Vec<Vec<R>>, cols: usize) -> (out: Vec<R>)
    requires
        forall|k: int| 0 <= k < table@.len() ==> (#[trigger] table@[k])@.len() == cols,
    ensures
        out@.len() == table@.len() * cols,
        forall|k: int, c: int|
            0 <= k < table@.len() && 0 <= c < cols ==> out@[k * cols + (cols - 1 - c)]
                == #[trigger] table@[k]@[c],
{
    let mut table = table;
    let ghost all = table@;
    let rows = table.len();
    let mut out: Vec<R> = Vec::new();
    let mut k: usize = 0;
    while k < rows
        invariant
            k <= rows,
            rows == all.len(),
            table@.len() == rows,
            forall|i: int| 0 <= i < rows ==> (#[trigger] all[i])@.len() == cols,
            forall|i: int| k <= i < rows ==> #[trigger] table@[i] == all[i],
            out@.len() == k * cols,
            forall|i: int, c: int|
                0 <= i < k && 0 <= c < cols ==> out@[i * cols + (cols - 1 - c)] == #[trigger] all[i]@[c],
        decreases rows - k,
    {
        proof {
            assert(all[k as int]@.len() == cols);
        }
        let mut left: usize = cols;
        while left > 0
            invariant
                k < rows,
                rows == all.len(),
                table@.len() == rows,
                left <= cols,
                all[k as int]@.len() == cols,
                forall|i: int| k < i < rows ==> #[trigger] table@[i] == all[i],
                table@[k as int]@ == all[k as int]@.take(left as int),
                out@.len() == k * cols + (cols - left),
                forall|i: int, c: int|
                    0 <= i < k && 0 <= c < cols ==> out@[i * cols + (cols - 1 - c)]
                        == #[trigger] all[i]@[c],
                forall|c: int|
                    left <= c < cols ==> out@[k * cols + (cols - 1 - c)] == #[trigger] all[k as int]@[c],
            decreases left,
        {
            let ghost before = out@;
            let item = table[k].pop().unwrap();
            out.push(item);
            left -= 1;
            proof {
                assert(table@[k as int]@ =~= all[k as int]@.take(left as int));
                assert forall|i: int, c: int| 0 <= i < k && 0 <= c < cols implies out@[i * cols + (
                cols - 1 - c)] == #[trigger] all[i]@[c] by {
                    lemma_row_major_lt(cols as int, cols - 1 - c, i, k as int);
                    lemma_row_major(cols as int, k as int, 0);
                    assert(out@[i * cols + (cols - 1 - c)] == before[i * cols + (cols - 1 - c)]);
                }
                assert forall|c: int| left <= c < cols implies out@[k * cols + (cols - 1 - c)]
                    == #[trigger] all[k as int]@[c] by {
                    if c > left {
                        assert(out@[k * cols + (cols - 1 - c)] == before[k * cols + (cols - 1 - c)]);
                    }
                }
            }
        }
        proof {
            assert((k + 1) * cols == k * cols + cols) by (nonlinear_arith);
        }
        k += 1;
    }
    out
}

/// Empties a table column by column from the last, each column from its first
/// row.
fn drain_columns<R>(table: Vec<Vec<R>>, cols: usize) -> (out: Vec<R>)
    requires
        forall|k: int| 0 <= k < table@.len() ==> (#[trigger] table@[k])@.len() == cols,
    ensures
        out@.len() == table@.len() * cols,
        forall|k: int, c: int|
            0 <= k < table@.len() && 0 <= c < cols ==> out@[(cols - 1 - c) * table@.len() + k]
                == #[trigger] table@[k]@[c],
{
    let mut table = table;
    let ghost all = table@;
    let rows = table.len();
    let mut out: Vec<R> = Vec::new();
    let mut left: usize = cols;
    while left > 0
        invariant
            left <= cols,
            rows == all.len(),
            table@.len() == rows,
            forall|i: int| 0 <= i < rows ==> (#[trigger] all[i])@.len() == cols,
            forall|i: int| 0 <= i < rows ==> (#[trigger] table@[i])@ == all[i]@.take(left as int),
            out@.len() == (cols - left) * rows,
            forall|i: int, c: int|
                0 <= i < rows && left <= c < cols ==> out@[(cols - 1 - c) * rows + i]
                    == #[trigger] all[i]@[c],
        decreases left,
    {
        let mut k: usize = 0;
        while k < rows
            invariant
                0 < left <= cols,
                k <= rows,
                rows == all.len(),
                table@.len() == rows,
                forall|i: int| 0 <= i < rows ==> (#[trigger] all[i])@.len() == cols,
                forall|i: int| k <= i < rows ==> (#[trigger] table@[i])@ == all[i]@.take(left as int),
                forall|i: int| 0 <= i < k ==> (#[trigger] table@[i])@ == all[i]@.take(left - 1),
                out@.len() == (cols - left) * rows + k,
                forall|i: int, c: int|
                    0 <= i < rows && left <= c < cols ==> out@[(cols - 1 - c) * rows + i]
                        == #[trigger] all[i]@[c],
                forall|i: int|
                    0 <= i < k ==> out@[(cols - left) * rows + i] == (#[trigger] all[i])@[left - 1],
            decreases rows - k,
        {
            let ghost before = out@;
            let ghost held = table@;
            proof {
                assert(table@[k as int]@ == all[k as int]@.take(left as int));
                assert(all[k as int]@.len() == cols);
            }
            let item = table[k].pop().unwrap();
            out.push(item);
            proof {
                assert(table@[k as int]@ =~= all[k as int]@.take(left - 1));
                assert forall|i: int| k < i < rows implies (#[trigger] table@[i])@ == all[i]@.take(
                    left as int,
                ) by {
                    assert(table@[i] == held[i]);
                }
                assert forall|i: int| 0 <= i < k implies (#[trigger] table@[i])@ == all[i]@.take(
                    left - 1,
                ) by {
                    assert(table@[i] == held[i]);
                }
                assert forall|i: int, c: int| 0 <= i < rows && left <= c < cols implies out@[(cols
                    - 1 - c) * rows + i] == #[trigger] all[i]@[c] by {
                    lemma_row_major_lt(rows as int, i, cols - 1 - c, cols - left);
                    lemma_row_major(rows as int, cols - left, 0);
                    assert(out@[(cols - 1 - c) * rows + i] == before[(cols - 1 - c) * rows + i]);
                }
                assert forall|i: int| 0 <= i < k + 1 implies out@[(cols - left) * rows + i] == (
                #[trigger] all[i])@[left - 1] by {
                    if i < k {
                        assert(out@[(cols - left) * rows + i] == before[(cols - left) * rows + i]);
                    }
                }
            }
            k += 1;
        }
        proof {
            assert((cols - (left - 1)) * rows == (cols - left) * rows + rows) by (nonlinear_arith);
            assert forall|i: int, c: int| 0 <= i < rows && left - 1 <= c < cols implies out@[(cols
                - 1 - c) * rows + i] == #[trigger] all[i]@[c] by {
                if c == left - 1 {
                    assert(cols - 1 - c == cols - left);
                }
            }
        }
        left -= 1;
    }
    proof {
        lemma_row_major(rows as int, cols as int, 0);
    }
    out
}

impl<T> Grid<T> {
    /// Mutable access to every cell, in coordinate order: row by row, each from
    /// left to right.
    pub fn iter_mut(&mut self) -> (items: Vec<&mut T>)
        requires
            old(self).wf(),
        ensures
            final(self).wf(),
            final(self).same_shape(old(self)),
            final(self).same_slots(old(self)),
            items@.len() == old(self).spec_width() * old(self).spec_height(),
            forall|x: int, y: int|
                old(self).in_bounds(x, y) ==> *#[trigger] items@[y * old(self).spec_width() + x]
                    == old(self).cell(x, y),
            forall|x: int, y: int|
                old(self).in_bounds(x, y) ==> #[trigger] final(self).cell(x, y) == *final(
                    items@[y * old(self).spec_width() + x]
                ),
    {
        let rotated = self.rotated;
        let n_rows = self.rows;
        let n_cols = self.cols;
        let cells: &mut Vec<Vec<T>> = &mut self.cells;
        let ghost start = cells@;
        let ghost end = final(cells)@;
        let mut rows = borrow_each(cells);
        let ghost row_refs = rows@;
        // The references into the storage rows, from the last row to the first.
        let mut table: Vec<Vec<&mut T>> = Vec::new();
        while rows.len() > 0
            invariant
                rows@.len() + table@.len() == n_rows,
                row_refs.len() == n_rows,
                start.len() == n_rows,
                forall|r: int| 0 <= r < n_rows ==> (#[trigger] start[r])@.len() == n_cols,
                forall|r: int| 0 <= r < n_rows ==> *#[trigger] row_refs[r] == start[r],
                forall|r: int| 0 <= r < rows@.len() ==> #[trigger] rows@[r] == row_refs[r],
                forall|k: int|
                    0 <= k < table@.len() ==> {
                        &&& (#[trigger] table@[k])@.len() == n_cols
                        &&& (*final(row_refs[n_rows - 1 - k]))@.len() == n_cols
                    },
                forall|k: int, c: int|
                    0 <= k < table@.len() && 0 <= c < n_cols ==> {
                        &&& *#[trigger] table@[k]@[c] == start[n_rows - 1 - k]@[c]
                        &&& (*final(row_refs[n_rows - 1 - k]))@[c] == *final(table@[k]@[c])
                    },
            decreases rows@.len(),
        {
            let ghost r = rows@.len() - 1;
            let ghost held = table@;
            let row = rows.pop().unwrap();
            proof {
                assert(row == row_refs[r]);
                assert(*row == start[r]);
            }
            let inner = borrow_each(row);
            table.push(inner);
            proof {
                assert forall|k: int, c: int| 0 <= k < table@.len() && 0 <= c < n_cols implies {
                    &&& *#[trigger] table@[k]@[c] == start[n_rows - 1 - k]@[c]
                    &&& (*final(row_refs[n_rows - 1 - k]))@[c] == *final(table@[k]@[c])
                } by {
                    if k < held.len() {
                        assert(table@[k] == held[k]);
                    }
                }
            }
        }
        let ghost marks = table@;
        let back = if rotated {
            drain_columns(table, n_cols)
        } else {
            drain_rows(table, n_cols)
        };
        let items = reversed(back);
        proof {
            let w = old(self).spec_width() as int;
            let count = n_rows * n_cols;
            let h = old(self).spec_height() as int;
            assert(w * h == count) by (nonlinear_arith)
                requires
                    (w == n_rows && h == n_cols) || (w == n_cols && h == n_rows),
                    count == n_rows * n_cols,
            ;
            assert forall|x: int, y: int| old(self).in_bounds(x, y) implies {
                &&& 0 <= y * w + x < count
                &&& items@[y * w + x] == marks[n_rows - 1 - old(self).row_of(x, y)]@[old(self).col_of(
                    x,
                    y,
                )]
            } by {
                let r = old(self).row_of(x, y);
                let c = old(self).col_of(x, y);
                let k = n_rows - 1 - r;
                if rotated {
                    assert(count - 1 - (c * n_rows + r) == (n_cols - 1 - c) * n_rows + k && 0 <= c
                        * n_rows + r < count) by (nonlinear_arith)
                        requires
                            0 <= r < n_rows,
                            0 <= c < n_cols,
                            k == n_rows - 1 - r,
                            count == n_rows * n_cols,
                    ;
                    assert(back@[(n_cols - 1 - c) * marks.len() + k] == marks[k]@[c]);
                } else {
                    assert(count - 1 - (r * n_cols + c) == k * n_cols + (n_cols - 1 - c) && 0 <= r
                        * n_cols + c < count) by (nonlinear_arith)
                        requires
                            0 <= r < n_rows,
                            0 <= c < n_cols,
                            k == n_rows - 1 - r,
                            count == n_rows * n_cols,
                    ;
                    assert(back@[k * n_cols + (n_cols - 1 - c)] == marks[k]@[c]);
                }
            }
            assert forall|x: int, y: int| old(self).in_bounds(x, y) implies *#[trigger] items@[y * w
                + x] == old(self).cell(x, y) by {
                let r = old(self).row_of(x, y);
                let c = old(self).col_of(x, y);
                assert(*marks[n_rows - 1 - r]@[c] == start[n_rows - 1 - (n_rows - 1 - r)]@[c]);
            }
            assert forall|r: int| 0 <= r < n_rows implies (#[trigger] end[r])@.len() == n_cols by {
                assert(marks[n_rows - 1 - r]@.len() == n_cols);
                assert((*final(row_refs[n_rows - 1 - (n_rows - 1 - r)]))@.len() == n_cols);
            }
            assert forall|x: int, y: int| old(self).in_bounds(x, y) implies (#[trigger] end[old(self).row_of(x, y)])@[old(self).col_of(x, y)] == *final(items@[y * w + x]) by {
                let r = old(self).row_of(x, y);
                let c = old(self).col_of(x, y);
                let k = n_rows - 1 - r;
                assert((*final(row_refs[n_rows - 1 - k]))@[c] == *final(marks[k]@[c]));
            }
        }
        items
    }

    /// Mutable access to every cell in coordinate order, each with the
    /// coordinates that it has in the natural, unrotated orientation.
    pub fn coord_iter_mut(&mut self) -> (items: Vec<(usize, usize, &mut T)>)
        requires
            old(self).wf(),
        ensures
            final(self).wf(),
            final(self).same_shape(old(self)),
            final(self).same_slots(old(self)),
            items@.len() == old(self).spec_width() * old(self).spec_height(),
            forall|x: int, y: int|
                old(self).in_bounds(x, y) ==> {
                    let item = #[trigger] items@[y * old(self).spec_width() + x];
                    &&& item.0 == old(self).col_of(x, y)
                    &&& item.1 == old(self).row_of(x, y)
                    &&& *item.2 == old(self).cell(x, y)
                },
            forall|x: int, y: int|
                old(self).in_bounds(x, y) ==> #[trigger] final(self).cell(x, y) == *final(
                    items@[y * old(self).spec_width() + x].2
                ),
    {
        let rotated = self.rotated;
        let width = self.width();
        let height = self.height();
        let mut refs = self.iter_mut();
        let ghost all = refs@;
        let ghost w = width as int;
        // Walk from the last cell to the first, then turn the walk around.
        let mut back: Vec<(usize, usize, &mut T)> = Vec::new();
        let mut y: usize = height;
        while y > 0
            invariant
                y <= height,
                all.len() == w * height,
                w == width,
                refs@.len() == w * y,
                forall|i: int| 0 <= i < refs@.len() ==> #[trigger] refs@[i] == all[i],
                back@.len() == all.len() - refs@.len(),
                forall|i: int, j: int|
                    0 <= i < w && y <= j < height ==> {
                        let item = #[trigger] back@[all.len() - 1 - (j * w + i)];
                        &&& item.0 == (if rotated {
                            j
                        } else {
                            i
                        })
                        &&& item.1 == (if rotated {
                            i
                        } else {
                            j
                        })
                        &&& *item.2 == *all[j * w + i]
                        &&& *final(item.2) == *final(all[j * w + i])
                    },
            decreases y,
        {
            y -= 1;
            let mut x: usize = width;
            proof {
                assert(w * (y + 1) == w * y + w) by (nonlinear_arith);
            }
            while x > 0
                invariant
                    y < height,
                    x <= width,
                    all.len() == w * height,
                    w == width,
                    refs@.len() == w * y + x,
                    forall|i: int| 0 <= i < refs@.len() ==> #[trigger] refs@[i] == all[i],
                    back@.len() == all.len() - refs@.len(),
                    forall|i: int, j: int|
                        0 <= i < w && y < j < height ==> {
                            let item = #[trigger] back@[all.len() - 1 - (j * w + i)];
                            &&& item.0 == (if rotated {
                                j
                            } else {
                                i
                            })
                            &&& item.1 == (if rotated {
                                i
                            } else {
                                j
                            })
                            &&& *item.2 == *all[j * w + i]
                        &&& *final(item.2) == *final(all[j * w + i])
                        },
                    forall|i: int|
                        x <= i < w ==> {
                            let item = #[trigger] back@[all.len() - 1 - (y * w + i)];
                            &&& item.0 == (if rotated {
                                y
                            } else {
                                i as usize
                            })
                            &&& item.1 == (if rotated {
                                i as usize
                            } else {
                                y
                            })
                            &&& *item.2 == *all[y * w + i]
                        &&& *final(item.2) == *final(all[y * w + i])
                        },
                decreases x,
            {
                x -= 1;
                let ghost before = back@;
                proof {
                    lemma_row_major(w, y as int, x as int);
                    lemma_row_major(w, height as int, 0);
                    lemma_row_major_lt(w, x as int, y as int, height as int);
                }
                let ghost taken = refs@[refs@.len() - 1];
                let value = refs.pop().unwrap();
                let point = if rotated {
                    (y, x)
                } else {
                    (x, y)
                };
                back.push((point.0, point.1, value));
                proof {
                    assert forall|i: int, j: int| 0 <= i < w && y < j < height implies {
                        let item = #[trigger] back@[all.len() - 1 - (j * w + i)];
                        &&& item.0 == (if rotated {
                            j
                        } else {
                            i
                        })
                        &&& item.1 == (if rotated {
                            i
                        } else {
                            j
                        })
                        &&& *item.2 == *all[j * w + i]
                        &&& *final(item.2) == *final(all[j * w + i])
                    } by {
                        lemma_row_major_lt(w, i, j, height as int);
                        lemma_row_major_lt(w, x as int, y as int, j);
                        lemma_row_major(w, j, 0);
                        assert(back@[all.len() - 1 - (j * w + i)] == before[all.len() - 1 - (j * w
                            + i)]);
                    }
                    assert forall|i: int| x <= i < w implies {
                        let item = #[trigger] back@[all.len() - 1 - (y * w + i)];
                        &&& item.0 == (if rotated {
                            y
                        } else {
                            i as usize
                        })
                        &&& item.1 == (if rotated {
                            i as usize
                        } else {
                            y
                        })
                        &&& *item.2 == *all[y * w + i]
                        &&& *final(item.2) == *final(all[y * w + i])
                    } by {
                        lemma_row_major(w, y as int, i);
                        lemma_row_major_lt(w, i, y as int, height as int);
                        if i > x {
                            assert(back@[all.len() - 1 - (y * w + i)] == before[all.len() - 1 - (y
                                * w + i)]);
                        } else {
                            assert(all.len() - 1 - (y * w + i) == before.len());
                            assert(taken == all[w * y + x]);
                        }
                    }
                }
            }
            proof {
                lemma_row_major(w, y as int, 0);
            }
        }
        let items = reversed(back);
        proof {
            lemma_row_major(w, height as int, 0);
            assert forall|i: int, j: int| 0 <= i < w && 0 <= j < height implies {
                &&& 0 <= j * w + i < all.len()
                &&& #[trigger] items@[j * w + i] == back@[all.len() - 1 - (j * w + i)]
            } by {
                lemma_row_major_lt(w, i, j, height as int);
                assert(0 <= j * w + i) by (nonlinear_arith)
                    requires
                        0 <= i,
                        0 <= j,
                        0 <= w,
                ;
            }
        }
        items
    }
}

/// A cursor over the parents of a cell: the existing cells among the three above
/// it, handed out from left to right.
///
/// A variant names the cell that comes next and how many candidates follow it.
pub enum ParentIter<'grid, T: 'grid> {
    Done,
    Right { x: usize, y: usize, grid: &'grid Grid<T> },
    Middle { x: usize, y: usize, grid: &'grid Grid<T> },
    Left { x: usize, y: usize, grid: &'grid Grid<T> },
}

impl<'grid, T> ParentIter<'grid, T> {
    /// The cell that comes next lies in a well-formed grid.
    pub open spec fn wf(&self) -> bool {
        match *self {
            ParentIter::Done => true,
            ParentIter::Right { x, y, grid } => grid.wf() && grid.in_bounds(x as int, y as int),
            ParentIter::Middle { x, y, grid } => grid.wf() && grid.in_bounds(x as int, y as int),
            ParentIter::Left { x, y, grid } => grid.wf() && grid.in_bounds(x as int, y as int),
        }
    }

    /// The cursor, unless it is done, walks over `g`.
    pub open spec fn grid_wf(&self, g: &Grid<T>) -> bool {
        match *self {
            ParentIter::Done => true,
            ParentIter::Right { x, y, grid } => *grid == *g,
            ParentIter::Middle { x, y, grid } => *grid == *g,
            ParentIter::Left { x, y, grid } => *grid == *g,
        }
    }

    /// The coordinates `x`, `x + 1`, ... of row `y`, at most `n` of them, that
    /// lie left of `width`.
    pub open spec fn run(x: int, y: int, n: nat, width: int) -> Seq<(int, int)>
        decreases n,
    {
        if n == 0 || x >= width {
            seq![]
        } else {
            seq![(x, y)] + Self::run(x + 1, y, (n - 1) as nat, width)
        }
    }

    /// The coordinates that `next` has yet to hand out, in order.
    pub open spec fn remaining(&self) -> Seq<(int, int)> {
        match *self {
            ParentIter::Done => seq![],
            ParentIter::Right { x, y, grid } => Self::run(
                x as int,
                y as int,
                1,
                grid.spec_width() as int,
            ),
            ParentIter::Middle { x, y, grid } => Self::run(
                x as int,
                y as int,
                2,
                grid.spec_width() as int,
            ),
            ParentIter::Left { x, y, grid } => Self::run(
                x as int,
                y as int,
                3,
                grid.spec_width() as int,
            ),
        }
    }

    fn new(grid: &'grid Grid<T>, x: usize, y: usize) -> (iter: Self)
        requires
            grid.wf(),
        ensures
            iter.wf(),
            iter.grid_wf(grid),
            iter.remaining() == grid.parent_coords(x as int, y as int),
    {
        let width = grid.width();
        if y == 0 || y - 1 >= grid.height() || width == 0 {
            // There is no row above to take parents from.
            proof {
                assert(grid.parent_coords(x as int, y as int) =~= seq![]);
            }
            return ParentIter::Done;
        }
        // Move up.
        let y = y - 1;
        if x == 0 {
            // There is no column to the left, so this cell has at most two parents.
            proof {
                reveal_with_fuel(ParentIter::run, 3);
                assert(grid.parent_coords(x as int, y as int + 1) =~= Self::run(
                    0,
                    y as int,
                    2,
                    width as int,
                ));
            }
            return ParentIter::Middle { x, y, grid };
        }
        // Move left.
        let x = x - 1;
        if x >= width {
            proof {
                assert(grid.parent_coords(x as int + 1, y as int + 1) =~= seq![]);
            }
            return ParentIter::Done;
        }
        proof {
            reveal_with_fuel(ParentIter::run, 4);
            assert(grid.parent_coords(x as int + 1, y as int + 1) =~= Self::run(
                x as int,
                y as int,
                3,
                width as int,
            ));
        }
        ParentIter::Left { x, y, grid }
    }

    /// Hands out the next parent with its coordinates, or `None` when none is left.
    pub fn next(&mut self) -> (item: Option<((usize, usize), &'grid T)>)
        requires
            old(self).wf(),
        ensures
            final(self).wf(),
            match item {
                Some((point, value)) => {
                    &&& old(self).remaining().len() > 0
                    &&& (point.0 as int, point.1 as int) == old(self).remaining()[0]
                    &&& final(self).remaining() == old(self).remaining().skip(1)
                    &&& forall|g: &Grid<T>|
                        old(self).grid_wf(g) ==> *value == g.cell(point.0 as int, point.1 as int)
                            && final(self).grid_wf(g)
                },
                None => old(self).remaining().len() == 0 && *final(self) == ParentIter::<T>::Done,
            },
    {
        let res;
        match *self {
            ParentIter::Done => {
                return None;
            },
            ParentIter::Right { x, y, grid } => {
                proof {
                    reveal_with_fuel(ParentIter::run, 2);
                }
                res = Some(((x, y), grid.get(x, y)));
                *self = ParentIter::Done;
            },
            ParentIter::Middle { x, y, grid } => {
                proof {
                    reveal_with_fuel(ParentIter::run, 3);
                }
                res = Some(((x, y), grid.get(x, y)));
                if x == grid.width() - 1 {
                    // The cursor cannot move right without falling off the grid.
                    *self = ParentIter::Done;
                } else {
                    *self = ParentIter::Right { x: x + 1, y, grid };
                }
            },
            ParentIter::Left { x, y, grid } => {
                proof {
                    reveal_with_fuel(ParentIter::run, 4);
                }
                res = Some(((x, y), grid.get(x, y)));
                if x == grid.width() - 1 {
                    // The cursor cannot move right without falling off the grid.
                    *self = ParentIter::Done;
                } else {
                    *self = ParentIter::Middle { x: x + 1, y, grid };
                }
            },
        }
        proof {
            assert(self.remaining() =~= old(self).remaining().skip(1));
        }
        res
    }
}

} // verus!
