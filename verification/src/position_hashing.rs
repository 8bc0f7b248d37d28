//! The uniform grid that finds the particles near a place.
//!
//! The grid covers a rectangle with square cells. A particle is listed in the
//! cell that holds its centre and in each adjacent cell that the square around
//! its disc reaches, so that two discs that touch always share a cell as long
//! as a radius stays below the side of a cell.

use vstd::prelude::*;
use crate::handle::Handle;
use crate::numeric::clamp;
use crate::previous_positions::{previous_positions, EntityPreviousPositionMap};
use crate::registry::{Registry, SlotView};
use crate::vector::Vector2;

verus! {

/// How many whole cells of the given side fit between `min` and `max`.
pub open spec fn cell_count(min: int, max: int, side: int) -> int {
    if max > min {
        (max - min) / side
    } else {
        0
    }
}

/// The index, along one axis, of the cell that holds `coordinate`. What lies
/// below `min` counts to the first cell.
pub open spec fn cell_index(coordinate: int, min: int, side: int) -> int {
    if coordinate > min {
        (coordinate - min) / side
    } else {
        0
    }
}

/// The offset of the `k`-th cell that `cells_idxs_of` looks at, from the cell
/// of the centre: the centre's own cell first, then left, upper left, up,
/// upper right, right, lower right, down, lower left.
pub open spec fn neighbour_offset(k: int) -> (int, int) {
    if k == 0 {
        (0, 0)
    } else if k == 1 {
        (-1, 0)
    } else if k == 2 {
        (-1, 1)
    } else if k == 3 {
        (0, 1)
    } else if k == 4 {
        (1, 1)
    } else if k == 5 {
        (1, 0)
    } else if k == 6 {
        (1, -1)
    } else if k == 7 {
        (0, -1)
    } else {
        (-1, -1)
    }
}

/// The four sides of a cell.
#[derive(Clone, Copy, PartialEq, Eq, Structural, Debug)]
pub struct Borders {
    pub left: i128,
    pub up: i128,
    pub right: i128,
    pub down: i128,
}

/// The grid: for each cell the handles of the particles listed in it.
pub struct PositionHashMap {
    /// `map[x][y]` lists the particles of the cell in column `x` and row `y`.
    pub map: Vec<Vec<Vec<Handle>>>,
    pub cell_side_size: usize,
    pub min_x: i64,
    pub max_x: i64,
    pub min_y: i64,
    pub max_y: i64,
}

impl PositionHashMap {
    /// The side of a cell.
    pub open spec fn side(self) -> int {
        self.cell_side_size as int
    }

    /// The number of columns.
    pub open spec fn columns(self) -> int {
        cell_count(self.min_x as int, self.max_x as int, self.side())
    }

    /// The number of rows.
    pub open spec fn rows(self) -> int {
        cell_count(self.min_y as int, self.max_y as int, self.side())
    }

    /// The grid has cells of a positive side, and as many of them as fit
    /// into its rectangle.
    pub open spec fn wf(self) -> bool {
        &&& self.cell_side_size > 0
        &&& self.map.len() == self.columns()
        &&& forall|i: int| 0 <= i < self.map.len() ==> (#[trigger] self.map[i]).len() == self.rows()
    }

    /// Whether the grid has a cell in column `i` and row `j`.
    pub open spec fn in_grid(self, i: int, j: int) -> bool {
        0 <= i < self.columns() && 0 <= j < self.rows()
    }

    /// The handles listed in the cell of column `i` and row `j`.
    pub open spec fn cell(self, i: int, j: int) -> Seq<Handle> {
        self.map[i][j]@
    }

    /// Whether the two grids cover the same rectangle with the same cells.
    pub open spec fn same_layout(self, other: PositionHashMap) -> bool {
        &&& self.cell_side_size == other.cell_side_size
        &&& self.min_x == other.min_x
        &&& self.max_x == other.max_x
        &&& self.min_y == other.min_y
        &&& self.max_y == other.max_y
    }

    /// The column of the cell that holds `position`.
    pub open spec fn center_column(self, position: Vector2) -> int {
        cell_index(position.x as int, self.min_x as int, self.side())
    }

    /// The row of the cell that holds `position`.
    pub open spec fn center_row(self, position: Vector2) -> int {
        cell_index(position.y as int, self.min_y as int, self.side())
    }

    /// The left side of column `i`.
    pub open spec fn left_of(self, i: int) -> int {
        i * self.side() + self.min_x
    }

    /// The right side of column `i`.
    pub open spec fn right_of(self, i: int) -> int {
        (i + 1) * self.side() + self.min_x
    }

    /// The lower side of row `j`.
    pub open spec fn down_of(self, j: int) -> int {
        j * self.side() + self.min_y
    }

    /// The upper side of row `j`.
    pub open spec fn up_of(self, j: int) -> int {
        (j + 1) * self.side() + self.min_y
    }

    /// Whether the square around the disc at `position` reaches from the
    /// centre's cell over to the cell at offset `(dx, dy)` from it: it has to
    /// reach the side of the centre's cell that lies in that direction, on
    /// both axes for a corner.
    pub open spec fn reaches(self, position: Vector2, radius: i64, dx: int, dy: int) -> bool {
        let cx = self.center_column(position);
        let cy = self.center_row(position);
        &&& dx == -1 ==> position.x - radius <= self.left_of(cx)
        &&& dx == 1 ==> position.x + radius >= self.right_of(cx)
        &&& dy == -1 ==> position.y - radius <= self.down_of(cy)
        &&& dy == 1 ==> position.y + radius >= self.up_of(cy)
    }

    /// Whether the cell at offset `(dx, dy)` from the centre's cell is one of
    /// the cells of the disc: it is reached, and it is a cell of the grid.
    pub open spec fn selects(self, position: Vector2, radius: i64, dx: int, dy: int) -> bool {
        &&& self.reaches(position, radius, dx, dy)
        &&& self.in_grid(self.center_column(position) + dx, self.center_row(position) + dy)
    }

    /// The cell at offset `(dx, dy)` from the cell that holds `position`.
    pub open spec fn cell_at(self, position: Vector2, dx: int, dy: int) -> (usize, usize) {
        (
            (self.center_column(position) + dx) as usize,
            (self.center_row(position) + dy) as usize,
        )
    }

    /// The cells of the disc among the first `n` that are looked at, in that
    /// order.
    pub open spec fn cells_among(self, position: Vector2, radius: i64, n: nat) -> Seq<
        (usize, usize),
    >
        decreases n,
    {
        if n == 0 {
            Seq::empty()
        } else {
            let before = self.cells_among(position, radius, (n - 1) as nat);
            let (dx, dy) = neighbour_offset(n - 1);
            if self.selects(position, radius, dx, dy) {
                before.push(self.cell_at(position, dx, dy))
            } else {
                before
            }
        }
    }

    /// The cells in which a disc is listed: the cell of its centre, and each
    /// of the eight cells around it that the square around the disc reaches,
    /// as far as they are cells of the grid.
    pub open spec fn cells_overlapping(self, position: Vector2, radius: i64) -> Seq<
        (usize, usize),
    > {
        self.cells_among(position, radius, 9)
    }

    /// Whether the closed square around the disc and the closed cell in
    /// column `i` and row `j` have a point in common.
    pub open spec fn square_meets_cell(self, position: Vector2, radius: i64, i: int, j: int) -> bool {
        &&& self.left_of(i) <= position.x + radius
        &&& position.x - radius <= self.right_of(i)
        &&& self.down_of(j) <= position.y + radius
        &&& position.y - radius <= self.up_of(j)
    }

    /// Whether the disc at `position` and the closed cell in column `i` and
    /// row `j` have a point in common: the point of the cell nearest to the
    /// centre lies no further from it than the radius.
    pub open spec fn disc_meets_cell(self, position: Vector2, radius: i64, i: int, j: int) -> bool {
        let dx = clamp(position.x as int, self.left_of(i), self.right_of(i)) - position.x;
        let dy = clamp(position.y as int, self.down_of(j), self.up_of(j)) - position.y;
        dx * dx + dy * dy <= radius * radius
    }

    /// Whether `position` lies in one of the cells of the grid.
    pub open spec fn covers(self, position: Vector2) -> bool {
        &&& self.min_x <= position.x < self.left_of(self.columns())
        &&& self.min_y <= position.y < self.down_of(self.rows())
    }

    /// Whether the `k`-th cell that is looked at is `cell`, and one of the
    /// cells of the disc.
    pub open spec fn lists(self, position: Vector2, radius: i64, k: int, cell: (usize, usize)) -> bool {
        let (dx, dy) = neighbour_offset(k);
        self.selects(position, radius, dx, dy) && self.cell_at(position, dx, dy) == cell
    }

    /// A cell that is listed lies in the grid, at the offset under which it
    /// was looked at.
    pub proof fn lemma_cell_at_offset(
        self,
        position: Vector2,
        radius: i64,
        k: int,
        cell: (usize, usize),
    )
        requires
            self.wf(),
            self.lists(position, radius, k, cell),
        ensures
            self.in_grid(cell.0 as int, cell.1 as int),
            neighbour_offset(k) == (
                cell.0 - self.center_column(position),
                cell.1 - self.center_row(position),
            ),
    {
        let (dx, dy) = neighbour_offset(k);
        let x = self.center_column(position) + dx;
        let y = self.center_row(position) + dy;
        assert(self.in_grid(x, y));
        assert(self.columns() <= usize::MAX);
        if self.columns() > 0 {
            assert(self.map[0].len() == self.rows());
        }
        assert(self.rows() <= usize::MAX);
        assert(x as usize == x);
        assert(y as usize == y);
    }

    /// A cell is among the first `n` cells of a disc exactly if one of the
    /// first `n` cells looked at is that cell and is selected.
    pub proof fn lemma_cells_among_contains(
        self,
        position: Vector2,
        radius: i64,
        n: nat,
        cell: (usize, usize),
    )
        ensures
            self.cells_among(position, radius, n).contains(cell) <==> exists|k: int|
                0 <= k < n && #[trigger] self.lists(position, radius, k, cell),
        decreases n,
    {
        if n > 0 {
            let before = self.cells_among(position, radius, (n - 1) as nat);
            let after = self.cells_among(position, radius, n);
            self.lemma_cells_among_contains(position, radius, (n - 1) as nat, cell);
            let (dx, dy) = neighbour_offset(n - 1);
            if self.selects(position, radius, dx, dy) {
                let added = self.cell_at(position, dx, dy);
                assert(after == before.push(added));
                if after.contains(cell) {
                    let at = choose|at: int| 0 <= at < after.len() && after[at] == cell;
                    if at < before.len() {
                        assert(before[at] == cell);
                        assert(before.contains(cell));
                    } else {
                        assert(self.lists(position, radius, n - 1, cell));
                    }
                }
                if before.contains(cell) {
                    let at = choose|at: int| 0 <= at < before.len() && before[at] == cell;
                    assert(after[at] == cell);
                }
                if self.lists(position, radius, n - 1, cell) {
                    assert(after[before.len() as int] == cell);
                }
            }
        }
    }

    /// No cell is listed twice among the cells of a disc.
    pub proof fn lemma_cells_among_distinct(self, position: Vector2, radius: i64, n: nat)
        requires
            self.wf(),
            n <= 9,
        ensures
            self.cells_among(position, radius, n).no_duplicates(),
        decreases n,
    {
        if n > 0 {
            let before = self.cells_among(position, radius, (n - 1) as nat);
            self.lemma_cells_among_distinct(position, radius, (n - 1) as nat);
            let (dx, dy) = neighbour_offset(n - 1);
            if self.selects(position, radius, dx, dy) {
                let added = self.cell_at(position, dx, dy);
                self.lemma_cells_among_contains(position, radius, (n - 1) as nat, added);
                if before.contains(added) {
                    let k = choose|k: int|
                        0 <= k < n - 1 && #[trigger] self.lists(position, radius, k, added);
                    self.lemma_cell_at_offset(position, radius, k, added);
                    self.lemma_cell_at_offset(position, radius, n - 1, added);
                    assert(neighbour_offset(k) == neighbour_offset(n - 1));
                }
                assert(before.push(added).no_duplicates());
            }
        }
    }

    /// The cells of a disc are the cells of the grid, among the cell of its
    /// centre and the eight around it, that the square around the disc
    /// reaches.
    pub proof fn lemma_cells_overlapping_exact(
        self,
        position: Vector2,
        radius: i64,
        cell: (usize, usize),
    )
        requires
            self.wf(),
        ensures
            self.cells_overlapping(position, radius).contains(cell) <==> {
                let dx = cell.0 - self.center_column(position);
                let dy = cell.1 - self.center_row(position);
                &&& self.in_grid(cell.0 as int, cell.1 as int)
                &&& -1 <= dx <= 1
                &&& -1 <= dy <= 1
                &&& self.reaches(position, radius, dx, dy)
            },
            self.cells_overlapping(position, radius).no_duplicates(),
    {
        self.lemma_cells_among_contains(position, radius, 9, cell);
        self.lemma_cells_among_distinct(position, radius, 9);
        let dx = cell.0 - self.center_column(position);
        let dy = cell.1 - self.center_row(position);
        if self.in_grid(cell.0 as int, cell.1 as int) && -1 <= dx <= 1 && -1 <= dy <= 1
            && self.reaches(position, radius, dx, dy) {
            let k: int = if dx == 0 && dy == 0 {
                0
            } else if dx == -1 && dy == 0 {
                1
            } else if dx == -1 && dy == 1 {
                2
            } else if dx == 0 && dy == 1 {
                3
            } else if dx == 1 && dy == 1 {
                4
            } else if dx == 1 && dy == 0 {
                5
            } else if dx == 1 && dy == -1 {
                6
            } else if dx == 0 && dy == -1 {
                7
            } else {
                8
            };
            assert(neighbour_offset(k) == (dx, dy));
            assert(self.lists(position, radius, k, cell));
        }
        if self.cells_overlapping(position, radius).contains(cell) {
            let k = choose|k: int| 0 <= k < 9 && #[trigger] self.lists(position, radius, k, cell);
            self.lemma_cell_at_offset(position, radius, k, cell);
            assert(neighbour_offset(k) == (dx, dy));
        }
    }

    /// Grid membership is complete: for a disc whose centre lies in the grid
    /// and whose radius is below the side of a cell, the cells in which it is
    /// listed are the cells of the grid that the square around the disc
    /// touches, all of them and no others.
    pub proof fn lemma_grid_membership_complete(
        self,
        position: Vector2,
        radius: i64,
        cell: (usize, usize),
    )
        requires
            self.wf(),
            self.covers(position),
            0 <= radius < self.side(),
        ensures
            self.cells_overlapping(position, radius).contains(cell) <==> self.in_grid(
                cell.0 as int,
                cell.1 as int,
            ) && self.square_meets_cell(position, radius, cell.0 as int, cell.1 as int),
    {
        self.lemma_cells_overlapping_exact(position, radius, cell);
        let side = self.side();
        lemma_axis_membership(
            position.x as int,
            radius as int,
            self.min_x as int,
            side,
            cell.0 as int,
        );
        lemma_axis_membership(
            position.y as int,
            radius as int,
            self.min_y as int,
            side,
            cell.1 as int,
        );
    }

    /// No cell that the disc overlaps is missed: for a disc whose centre
    /// lies in the grid and whose radius is below the side of a cell, every
    /// cell of the grid that has a point in common with the disc is one of
    /// the cells in which it is listed.
    pub proof fn lemma_cells_cover_disc(
        self,
        position: Vector2,
        radius: i64,
        cell: (usize, usize),
    )
        requires
            self.wf(),
            self.covers(position),
            0 <= radius < self.side(),
            self.in_grid(cell.0 as int, cell.1 as int),
            self.disc_meets_cell(position, radius, cell.0 as int, cell.1 as int),
        ensures
            self.cells_overlapping(position, radius).contains(cell),
    {
        self.lemma_grid_membership_complete(position, radius, cell);
        let i = cell.0 as int;
        let j = cell.1 as int;
        let side = self.side();
        let dx = clamp(position.x as int, self.left_of(i), self.right_of(i)) - position.x;
        let dy = clamp(position.y as int, self.down_of(j), self.up_of(j)) - position.y;
        assert((i + 1) * side == i * side + side && (j + 1) * side == j * side + side)
            by (nonlinear_arith);
        assert(dx * dx >= 0 && dy * dy >= 0) by (nonlinear_arith);
        if dx > radius || dx < -radius {
            assert(dx * dx > radius * radius) by (nonlinear_arith)
                requires
                    dx > radius || dx < -radius,
                    radius >= 0,
            ;
        }
        if dy > radius || dy < -radius {
            assert(dy * dy > radius * radius) by (nonlinear_arith)
                requires
                    dy > radius || dy < -radius,
                    radius >= 0,
            ;
        }
    }

    /// Discs that touch share a cell: two discs whose centres lie in the
    /// grid, whose radii are below the side of a cell, and whose centres are
    /// no further apart than the sum of the radii are both listed in one
    /// cell at least.
    pub proof fn lemma_touching_discs_share_a_cell(
        self,
        first: Vector2,
        first_radius: i64,
        second: Vector2,
        second_radius: i64,
    ) -> (cell: (usize, usize))
        requires
            self.wf(),
            self.covers(first),
            self.covers(second),
            0 <= first_radius < self.side(),
            0 <= second_radius < self.side(),
            (second.x - first.x) * (second.x - first.x) + (second.y - first.y) * (second.y
                - first.y) <= (first_radius + second_radius) * (first_radius + second_radius),
        ensures
            self.in_grid(cell.0 as int, cell.1 as int),
            self.cells_overlapping(first, first_radius).contains(cell),
            self.cells_overlapping(second, second_radius).contains(cell),
    {
        let reach = first_radius + second_radius;
        let dx = second.x - first.x;
        let dy = second.y - first.y;
        assert(dx * dx >= 0 && dy * dy >= 0) by (nonlinear_arith);
        if dx > reach || dx < -reach {
            assert(dx * dx > reach * reach) by (nonlinear_arith)
                requires
                    dx > reach || dx < -reach,
                    reach >= 0,
            ;
        }
        if dy > reach || dy < -reach {
            assert(dy * dy > reach * reach) by (nonlinear_arith)
                requires
                    dy > reach || dy < -reach,
                    reach >= 0,
            ;
        }
        let i = lemma_axis_common_cell(
            first.x as int,
            first_radius as int,
            second.x as int,
            second_radius as int,
            self.min_x as int,
            self.side(),
            self.columns(),
        );
        let j = lemma_axis_common_cell(
            first.y as int,
            first_radius as int,
            second.y as int,
            second_radius as int,
            self.min_y as int,
            self.side(),
            self.rows(),
        );
        assert(self.columns() <= usize::MAX);
        assert(self.map[0].len() == self.rows());
        let cell = (i as usize, j as usize);
        self.lemma_grid_membership_complete(first, first_radius, cell);
        self.lemma_grid_membership_complete(second, second_radius, cell);
        cell
    }

    /// An empty grid over the given rectangle.
    pub fn new(cell_side_size: usize, min_x: i64, max_x: i64, min_y: i64, max_y: i64) -> (grid:
        PositionHashMap)
        requires
            cell_side_size > 0,
            cell_count(min_x as int, max_x as int, cell_side_size as int) <= usize::MAX,
            cell_count(min_y as int, max_y as int, cell_side_size as int) <= usize::MAX,
        ensures
            grid.wf(),
            grid.cell_side_size == cell_side_size,
            grid.min_x == min_x,
            grid.max_x == max_x,
            grid.min_y == min_y,
            grid.max_y == max_y,
            forall|i: int, j: int| grid.in_grid(i, j) ==> (#[trigger] grid.cell(i, j)).len() == 0,
    {
        let amount_of_x_cells: usize = count_cells(min_x, max_x, cell_side_size);
        let amount_of_y_cells: usize = count_cells(min_y, max_y, cell_side_size);
        let mut map: Vec<Vec<Vec<Handle>>> = Vec::new();
        let mut x: usize = 0;
        while x < amount_of_x_cells
            invariant
                x <= amount_of_x_cells,
                map.len() == x,
                forall|i: int| 0 <= i < x ==> (#[trigger] map[i]).len() == amount_of_y_cells,
                forall|i: int, j: int|
                    0 <= i < x && 0 <= j < amount_of_y_cells ==> (#[trigger] map[i][j]).len() == 0,
            decreases amount_of_x_cells - x,
        {
            let mut column: Vec<Vec<Handle>> = Vec::new();
            let mut y: usize = 0;
            while y < amount_of_y_cells
                invariant
                    y <= amount_of_y_cells,
                    column.len() == y,
                    forall|j: int| 0 <= j < y ==> (#[trigger] column[j]).len() == 0,
                decreases amount_of_y_cells - y,
            {
                column.push(Vec::new());
                y = y + 1;
            }
            map.push(column);
            x = x + 1;
        }
        PositionHashMap { map, cell_side_size, min_x, max_x, min_y, max_y }
    }

    /// The cell that holds `position`.
    pub fn cell_idxs_of(&self, position: Vector2) -> (cell: (u64, u64))
        requires
            self.cell_side_size > 0,
        ensures
            cell.0 == self.center_column(position),
            cell.1 == self.center_row(position),
            cell.0 * self.side() <= u64::MAX,
            cell.1 * self.side() <= u64::MAX,
    {
        (
            index_of(position.x, self.min_x, self.cell_side_size),
            index_of(position.y, self.min_y, self.cell_side_size),
        )
    }

    /// The four sides of the cell in column `cell_x` and row `cell_y`.
    pub fn cell_idxs_to_borders(&self, cell_x: u64, cell_y: u64) -> (borders: Borders)
        requires
            cell_x * self.side() <= u64::MAX,
            cell_y * self.side() <= u64::MAX,
        ensures
            borders.left == self.left_of(cell_x as int),
            borders.right == self.right_of(cell_x as int),
            borders.down == self.down_of(cell_y as int),
            borders.up == self.up_of(cell_y as int),
    {
        let side: i128 = self.cell_side_size as i128;
        let x: i128 = cell_x as i128;
        let y: i128 = cell_y as i128;
        assert(0 <= x * side && 0 <= y * side) by (nonlinear_arith)
            requires
                0 <= x,
                0 <= y,
                0 <= side,
        ;
        assert((x + 1) * side == x * side + side) by (nonlinear_arith);
        assert((y + 1) * side == y * side + side) by (nonlinear_arith);
        Borders {
            left: x * side + self.min_x as i128,
            up: y * side + side + self.min_y as i128,
            right: x * side + side + self.min_x as i128,
            down: y * side + self.min_y as i128,
        }
    }

    /// The cells in which the disc at `position` is listed.
    pub fn cells_idxs_of(&self, position: Vector2, radius: i64) -> (cells: Vec<(usize, usize)>)
        requires
            self.wf(),
        ensures
            cells@ == self.cells_overlapping(position, radius),
    {
        let cell_of_center: (u64, u64) = self.cell_idxs_of(position);
        let cell_border: Borders = self.cell_idxs_to_borders(cell_of_center.0, cell_of_center.1);
        let intersects_left: bool = position.x as i128 - radius as i128 <= cell_border.left;
        let intersects_upper: bool = position.y as i128 + radius as i128 >= cell_border.up;
        let intersects_right: bool = position.x as i128 + radius as i128 >= cell_border.right;
        let intersects_lower: bool = position.y as i128 - radius as i128 <= cell_border.down;
        let amount_of_x_cells: usize = self.map.len();
        let amount_of_y_cells: usize = if amount_of_x_cells > 0 {
            self.map[0].len()
        } else {
            0
        };
        let mut result: Vec<(usize, usize)> = Vec::new();
        let mut k: usize = 0;
        while k < 9
            invariant
                k <= 9,
                self.wf(),
                cell_of_center.0 == self.center_column(position),
                cell_of_center.1 == self.center_row(position),
                intersects_left == (position.x - radius <= self.left_of(cell_of_center.0 as int)),
                intersects_right == (position.x + radius >= self.right_of(cell_of_center.0 as int)),
                intersects_lower == (position.y - radius <= self.down_of(cell_of_center.1 as int)),
                intersects_upper == (position.y + radius >= self.up_of(cell_of_center.1 as int)),
                amount_of_x_cells == self.columns(),
                amount_of_x_cells > 0 ==> amount_of_y_cells == self.rows(),
                result@ == self.cells_among(position, radius, k as nat),
            decreases 9 - k,
        {
            let (dx, dy): (i8, i8) = offset_of(k);
            let reached: bool = (dx != -1 || intersects_left) && (dx != 1 || intersects_right) && (
            dy != -1 || intersects_lower) && (dy != 1 || intersects_upper);
            let x: i128 = cell_of_center.0 as i128 + dx as i128;
            let y: i128 = cell_of_center.1 as i128 + dy as i128;
            if reached && 0 <= x && x < amount_of_x_cells as i128 && 0 <= y && y
                < amount_of_y_cells as i128 {
                result.push((x as usize, y as usize));
            }
            k = k + 1;
        }
        result
    }
}

impl PositionHashMap {
    /// Whether the disc at `position` is listed in the cell of column `i`
    /// and row `j`.
    pub open spec fn lists_in(self, position: Vector2, radius: i64, i: int, j: int) -> bool {
        self.cells_overlapping(position, radius).contains((i as usize, j as usize))
    }

    /// Lists `entity` in every cell of the disc at `position`.
    pub fn insert(&mut self, position: Vector2, radius: i64, entity: Handle)
        requires
            old(self).wf(),
        ensures
            final(self).wf(),
            final(self).same_layout(*old(self)),
            forall|i: int, j: int|
                old(self).in_grid(i, j) ==> #[trigger] final(self).cell(i, j) == if old(
                    self,
                ).lists_in(position, radius, i, j) {
                    old(self).cell(i, j).push(entity)
                } else {
                    old(self).cell(i, j)
                },
    {
        let cells: Vec<(usize, usize)> = self.cells_idxs_of(position, radius);
        proof {
            assert forall|m: int| 0 <= m < cells.len() implies self.in_grid(
                (#[trigger] cells[m]).0 as int,
                cells[m].1 as int,
            ) by {
                assert(cells@.contains(cells[m]));
                self.lemma_cells_overlapping_exact(position, radius, cells[m]);
            }
            self.lemma_cells_among_distinct(position, radius, 9);
        }
        let mut k: usize = 0;
        while k < cells.len()
            invariant
                k <= cells.len(),
                old(self).wf(),
                self.wf(),
                self.same_layout(*old(self)),
                cells@ == old(self).cells_overlapping(position, radius),
                cells@.no_duplicates(),
                forall|m: int|
                    0 <= m < cells.len() ==> self.in_grid(
                        (#[trigger] cells[m]).0 as int,
                        cells[m].1 as int,
                    ),
                forall|i: int, j: int|
                    self.in_grid(i, j) ==> #[trigger] self.cell(i, j) == if listed_before(
                        cells@,
                        k as int,
                        (i as usize, j as usize),
                    ) {
                        old(self).cell(i, j).push(entity)
                    } else {
                        old(self).cell(i, j)
                    },
            decreases cells.len() - k,
        {
            let (cell_x, cell_y): (usize, usize) = cells[k];
            let ghost before = *self;
            assert(self.in_grid(cells[k as int].0 as int, cells[k as int].1 as int));
            assert(self.map[cell_x as int].len() == self.rows());
            self.map[cell_x][cell_y].push(entity);
            proof {
                assert forall|i: int| 0 <= i < self.map.len() implies (#[trigger] self.map[i]).len()
                    == self.rows() by {
                    assert(before.map[i].len() == before.rows());
                }
                assert forall|i: int, j: int| self.in_grid(i, j) implies #[trigger] self.cell(i, j)
                    == if listed_before(cells@, k + 1, (i as usize, j as usize)) {
                    old(self).cell(i, j).push(entity)
                } else {
                    old(self).cell(i, j)
                } by {
                    let c = (i as usize, j as usize);
                    assert(before.in_grid(i, j));
                    assert(before.map[i].len() == before.rows());
                    if i == cell_x && j == cell_y {
                        assert(c == cells[k as int]);
                        assert(!listed_before(cells@, k as int, c));
                        assert(before.cell(i, j) == old(self).cell(i, j));
                    } else {
                        assert(self.cell(i, j) == before.cell(i, j));
                        assert(listed_before(cells@, k + 1, c) == listed_before(cells@, k as int, c));
                    }
                }
            }
            k = k + 1;
        }
        proof {
            assert forall|i: int, j: int| old(self).in_grid(i, j) implies #[trigger] self.cell(i, j)
                == if old(self).lists_in(position, radius, i, j) {
                old(self).cell(i, j).push(entity)
            } else {
                old(self).cell(i, j)
            } by {
                let c = (i as usize, j as usize);
                assert(self.in_grid(i, j));
                if cells@.contains(c) {
                    let m = choose|m: int| 0 <= m < cells@.len() && cells@[m] == c;
                    assert(listed_before(cells@, k as int, c));
                }
            }
        }
    }

    /// Takes `entity` out of every cell of the disc at `position`.
    pub fn remove(&mut self, position: Vector2, radius: i64, entity: Handle)
        requires
            old(self).wf(),
        ensures
            final(self).wf(),
            final(self).same_layout(*old(self)),
            forall|i: int, j: int|
                old(self).in_grid(i, j) ==> #[trigger] final(self).cell(i, j) == if old(
                    self,
                ).lists_in(position, radius, i, j) {
                    without(old(self).cell(i, j), entity)
                } else {
                    old(self).cell(i, j)
                },
    {
        let cells: Vec<(usize, usize)> = self.cells_idxs_of(position, radius);
        proof {
            assert forall|m: int| 0 <= m < cells.len() implies self.in_grid(
                (#[trigger] cells[m]).0 as int,
                cells[m].1 as int,
            ) by {
                assert(cells@.contains(cells[m]));
                self.lemma_cells_overlapping_exact(position, radius, cells[m]);
            }
            self.lemma_cells_among_distinct(position, radius, 9);
        }
        let mut k: usize = 0;
        while k < cells.len()
            invariant
                k <= cells.len(),
                old(self).wf(),
                self.wf(),
                self.same_layout(*old(self)),
                cells@ == old(self).cells_overlapping(position, radius),
                cells@.no_duplicates(),
                forall|m: int|
                    0 <= m < cells.len() ==> self.in_grid(
                        (#[trigger] cells[m]).0 as int,
                        cells[m].1 as int,
                    ),
                forall|i: int, j: int|
                    self.in_grid(i, j) ==> #[trigger] self.cell(i, j) == if listed_before(
                        cells@,
                        k as int,
                        (i as usize, j as usize),
                    ) {
                        without(old(self).cell(i, j), entity)
                    } else {
                        old(self).cell(i, j)
                    },
            decreases cells.len() - k,
        {
            let (cell_x, cell_y): (usize, usize) = cells[k];
            let ghost before = *self;
            assert(self.in_grid(cells[k as int].0 as int, cells[k as int].1 as int));
            assert(self.map[cell_x as int].len() == self.rows());
            retain_others(&mut self.map[cell_x][cell_y], entity);
            proof {
                assert forall|i: int| 0 <= i < self.map.len() implies (#[trigger] self.map[i]).len()
                    == self.rows() by {
                    assert(before.map[i].len() == before.rows());
                }
                assert forall|i: int, j: int| self.in_grid(i, j) implies #[trigger] self.cell(i, j)
                    == if listed_before(cells@, k + 1, (i as usize, j as usize)) {
                    without(old(self).cell(i, j), entity)
                } else {
                    old(self).cell(i, j)
                } by {
                    let c = (i as usize, j as usize);
                    assert(before.in_grid(i, j));
                    assert(before.map[i].len() == before.rows());
                    if i == cell_x && j == cell_y {
                        assert(c == cells[k as int]);
                        assert(!listed_before(cells@, k as int, c));
                        assert(before.cell(i, j) == old(self).cell(i, j));
                    } else {
                        assert(self.cell(i, j) == before.cell(i, j));
                        assert(listed_before(cells@, k + 1, c) == listed_before(cells@, k as int, c));
                    }
                }
            }
            k = k + 1;
        }
        proof {
            assert forall|i: int, j: int| old(self).in_grid(i, j) implies #[trigger] self.cell(i, j)
                == if old(self).lists_in(position, radius, i, j) {
                without(old(self).cell(i, j), entity)
            } else {
                old(self).cell(i, j)
            } by {
                let c = (i as usize, j as usize);
                assert(self.in_grid(i, j));
                if cells@.contains(c) {
                    let m = choose|m: int| 0 <= m < cells@.len() && cells@[m] == c;
                    assert(listed_before(cells@, k as int, c));
                }
            }
        }
    }

    /// Moves `entity` from the cells of the disc at `prev_position` to the
    /// cells of the disc at `curr_position`.
    pub fn update(
        &mut self,
        prev_position: Vector2,
        curr_position: Vector2,
        radius: i64,
        entity: Handle,
    )
        requires
            old(self).wf(),
        ensures
            final(self).wf(),
            final(self).same_layout(*old(self)),
            forall|i: int, j: int|
                old(self).in_grid(i, j) ==> #[trigger] final(self).cell(i, j) == moved(
                    old(self).cell(i, j),
                    old(self).lists_in(prev_position, radius, i, j),
                    old(self).lists_in(curr_position, radius, i, j),
                    entity,
                ),
    {
        self.remove(prev_position, radius, entity);
        let ghost between = *self;
        self.insert(curr_position, radius, entity);
        proof {
            assert forall|i: int, j: int| old(self).in_grid(i, j) implies #[trigger] self.cell(i, j)
                == moved(
                old(self).cell(i, j),
                old(self).lists_in(prev_position, radius, i, j),
                old(self).lists_in(curr_position, radius, i, j),
                entity,
            ) by {
                assert(between.in_grid(i, j));
                assert(between.cell(i, j) == if old(self).lists_in(prev_position, radius, i, j) {
                    without(old(self).cell(i, j), entity)
                } else {
                    old(self).cell(i, j)
                });
                lemma_same_layout_same_cells(*old(self), between, curr_position, radius);
            }
        }
    }
}

/// Where two grids have the same layout, a disc has the same cells in both.
pub proof fn lemma_same_layout_same_cells(
    a: PositionHashMap,
    b: PositionHashMap,
    position: Vector2,
    radius: i64,
)
    requires
        a.wf(),
        b.wf(),
        a.same_layout(b),
    ensures
        a.cells_overlapping(position, radius) == b.cells_overlapping(position, radius),
{
    lemma_same_layout_same_cells_among(a, b, position, radius, 9);
}

/// Where two grids have the same layout, a disc has the same cells among
/// the first `n` in both.
proof fn lemma_same_layout_same_cells_among(
    a: PositionHashMap,
    b: PositionHashMap,
    position: Vector2,
    radius: i64,
    n: nat,
)
    requires
        a.wf(),
        b.wf(),
        a.same_layout(b),
    ensures
        a.cells_among(position, radius, n) == b.cells_among(position, radius, n),
    decreases n,
{
    if n > 0 {
        lemma_same_layout_same_cells_among(a, b, position, radius, (n - 1) as nat);
    }
}

/// Whether `cell` is one of the first `k` of `cells`.
pub open spec fn listed_before(cells: Seq<(usize, usize)>, k: int, cell: (usize, usize)) -> bool {
    exists|m: int| 0 <= m < k && m < cells.len() && #[trigger] cells[m] == cell
}

/// `cell` without any occurrence of `entity`, the others in their order.
pub open spec fn without(cell: Seq<Handle>, entity: Handle) -> Seq<Handle>
    decreases cell.len(),
{
    if cell.len() == 0 {
        cell
    } else if cell.last() == entity {
        without(cell.drop_last(), entity)
    } else {
        without(cell.drop_last(), entity).push(cell.last())
    }
}

/// What `update` leaves of a cell: `entity` is taken out where the old disc
/// was listed, and then added at the end where the new disc is.
pub open spec fn moved(cell: Seq<Handle>, was_listed: bool, is_listed: bool, entity: Handle) -> Seq<
    Handle,
> {
    let cleared = if was_listed {
        without(cell, entity)
    } else {
        cell
    };
    if is_listed {
        cleared.push(entity)
    } else {
        cleared
    }
}

/// What is left of a cell without `entity` holds the other handles of the
/// cell, and only them.
pub proof fn lemma_without_contains(cell: Seq<Handle>, entity: Handle, other: Handle)
    ensures
        without(cell, entity).contains(other) <==> cell.contains(other) && other != entity,
    decreases cell.len(),
{
    if cell.len() > 0 {
        let front = cell.drop_last();
        lemma_without_contains(front, entity, other);
        let kept = without(front, entity);
        if cell.contains(other) {
            let at = choose|at: int| 0 <= at < cell.len() && cell[at] == other;
            if at < front.len() {
                assert(front[at] == other);
            }
        }
        if front.contains(other) {
            let at = choose|at: int| 0 <= at < front.len() && front[at] == other;
            assert(cell[at] == other);
        }
        if cell.last() != entity {
            let after = kept.push(cell.last());
            if kept.contains(other) {
                let at = choose|at: int| 0 <= at < kept.len() && kept[at] == other;
                assert(after[at] == other);
            }
            if after.contains(other) {
                let at = choose|at: int| 0 <= at < after.len() && after[at] == other;
                if at < kept.len() {
                    assert(kept[at] == other);
                }
            }
            if other == cell.last() {
                assert(after[kept.len() as int] == other);
                assert(cell[cell.len() - 1] == other);
            }
        }
    }
}

/// Takes every occurrence of `entity` out of `cell`.
pub fn retain_others(cell: &mut Vec<Handle>, entity: Handle)
    ensures
        final(cell)@ == without(old(cell)@, entity),
{
    let mut kept: Vec<Handle> = Vec::new();
    let mut k: usize = 0;
    while k < cell.len()
        invariant
            k <= cell.len(),
            cell@ == old(cell)@,
            kept@ == without(cell@.subrange(0, k as int), entity),
        decreases cell.len() - k,
    {
        let handle: Handle = cell[k];
        proof {
            let next = cell@.subrange(0, k + 1);
            assert(next.drop_last() == cell@.subrange(0, k as int));
            assert(next.last() == handle);
        }
        if handle != entity {
            kept.push(handle);
        }
        k = k + 1;
    }
    assert(cell@.subrange(0, k as int) == cell@);
    *cell = kept;
}

/// The `k`-th offset that `cells_idxs_of` looks at.
fn offset_of(k: usize) -> (offset: (i8, i8))
    requires
        k < 9,
    ensures
        (offset.0 as int, offset.1 as int) == neighbour_offset(k as int),
{
    if k == 0 {
        (0, 0)
    } else if k == 1 {
        (-1, 0)
    } else if k == 2 {
        (-1, 1)
    } else if k == 3 {
        (0, 1)
    } else if k == 4 {
        (1, 1)
    } else if k == 5 {
        (1, 0)
    } else if k == 6 {
        (1, -1)
    } else if k == 7 {
        (0, -1)
    } else {
        (-1, -1)
    }
}

/// How many cells fit between `min` and `max`.
fn count_cells(min: i64, max: i64, side: usize) -> (count: usize)
    requires
        side > 0,
        cell_count(min as int, max as int, side as int) <= usize::MAX,
    ensures
        count == cell_count(min as int, max as int, side as int),
{
    if max > min {
        let extent: u128 = (max as i128 - min as i128) as u128;
        (extent / (side as u128)) as usize
    } else {
        0
    }
}

/// The index of the cell that holds `coordinate`.
fn index_of(coordinate: i64, min: i64, side: usize) -> (index: u64)
    requires
        side > 0,
    ensures
        index == cell_index(coordinate as int, min as int, side as int),
        index * side <= u64::MAX,
{
    if coordinate > min {
        let offset: u128 = (coordinate as i128 - min as i128) as u128;
        let index: u128 = offset / (side as u128);
        assert(index <= offset && index * side <= offset) by (nonlinear_arith)
            requires
                index == offset / (side as u128),
                side > 0,
        ;
        index as u64
    } else {
        0
    }
}

/// Along one axis: two intervals around coordinates of the grid that meet
/// each other both meet the interval of one cell of the grid.
pub proof fn lemma_axis_common_cell(
    first: int,
    first_radius: int,
    second: int,
    second_radius: int,
    min: int,
    side: int,
    count: int,
) -> (i: int)
    requires
        side > 0,
        first_radius >= 0,
        second_radius >= 0,
        min <= first < count * side + min,
        min <= second < count * side + min,
        -(first_radius + second_radius) <= second - first <= first_radius + second_radius,
    ensures
        0 <= i < count,
        i * side + min <= first + first_radius,
        first - first_radius <= (i + 1) * side + min,
        i * side + min <= second + second_radius,
        second - second_radius <= (i + 1) * side + min,
{
    let lower = if first <= second {
        first
    } else {
        second
    };
    let reached = if first <= second {
        second - second_radius
    } else {
        first - first_radius
    };
    let point = if reached > lower {
        reached
    } else {
        lower
    };
    let offset = point - min;
    let i = offset / side;
    assert(0 <= i && i * side <= offset < i * side + side) by (nonlinear_arith)
        requires
            i == offset / side,
            side > 0,
            offset >= 0,
    ;
    assert(i < count) by (nonlinear_arith)
        requires
            i * side <= offset,
            offset < count * side,
            side > 0,
    ;
    assert((i + 1) * side == i * side + side) by (nonlinear_arith);
    i
}

/// Along one axis: the interval `[coordinate - radius, coordinate + radius]`
/// meets the interval of cell `i` exactly if `i` is the cell of `coordinate`
/// or a cell next to it whose near side the interval reaches.
pub proof fn lemma_axis_membership(coordinate: int, radius: int, min: int, side: int, i: int)
    requires
        side > 0,
        0 <= radius < side,
        coordinate >= min,
    ensures
        ({
            let c = cell_index(coordinate, min, side);
            let meets = i * side + min <= coordinate + radius && coordinate - radius <= (i + 1)
                * side + min;
            let near = -1 <= i - c <= 1 && (i - c == -1 ==> coordinate - radius <= c * side + min)
                && (i - c == 1 ==> coordinate + radius >= (c + 1) * side + min);
            meets <==> near
        }),
{
    let c = cell_index(coordinate, min, side);
    let offset = coordinate - min;
    assert(c == offset / side);
    assert(c * side <= offset < c * side + side) by (nonlinear_arith)
        requires
            c == offset / side,
            side > 0,
            offset >= 0,
    ;
    assert((c + 1) * side == c * side + side) by (nonlinear_arith);
    assert((i + 1) * side == i * side + side) by (nonlinear_arith);
    if i <= c - 2 {
        assert(i * side + side <= c * side - side) by (nonlinear_arith)
            requires
                i <= c - 2,
                side > 0,
        ;
    } else if i >= c + 2 {
        assert(i * side >= c * side + side + side) by (nonlinear_arith)
            requires
                i >= c + 2,
                side > 0,
        ;
    } else if i == c - 1 {
        assert(i * side == c * side - side) by (nonlinear_arith)
            requires
                i == c - 1,
        ;
    } else if i == c + 1 {
        assert(i * side == c * side + side) by (nonlinear_arith)
            requires
                i == c + 1,
        ;
    }
}

/// The offset of the `k`-th of the eight cells around a cell, column by
/// column from the lower left.
pub open spec fn surrounding_offset(k: int) -> (int, int) {
    if k == 0 {
        (-1, -1)
    } else if k == 1 {
        (-1, 0)
    } else if k == 2 {
        (-1, 1)
    } else if k == 3 {
        (0, -1)
    } else if k == 4 {
        (0, 1)
    } else if k == 5 {
        (1, -1)
    } else if k == 6 {
        (1, 0)
    } else {
        (1, 1)
    }
}

impl PositionHashMap {
    /// The cells of the grid among the first `n` of the eight around the
    /// cell in column `x` and row `y`.
    pub open spec fn neighbours_among(self, x: int, y: int, n: int) -> Seq<(usize, usize)>
        decreases n,
    {
        if n <= 0 {
            Seq::empty()
        } else {
            let before = self.neighbours_among(x, y, n - 1);
            let (dx, dy) = surrounding_offset(n - 1);
            if self.in_grid(x + dx, y + dy) {
                before.push(((x + dx) as usize, (y + dy) as usize))
            } else {
                before
            }
        }
    }

    /// The handles listed in the first `n` of `cells`, each once, in the
    /// order in which they are first met.
    pub open spec fn listed_among(self, cells: Seq<(usize, usize)>, n: int) -> Seq<Handle>
        decreases n,
    {
        if n <= 0 {
            Seq::empty()
        } else {
            merged(
                self.listed_among(cells, n - 1),
                self.cell(cells[n - 1].0 as int, cells[n - 1].1 as int),
                self.cell(cells[n - 1].0 as int, cells[n - 1].1 as int).len() as int,
            )
        }
    }

    /// The cell itself and the cells around it, as far as they are cells of
    /// the grid.
    pub open spec fn neighbourhood(self, x: int, y: int) -> Seq<(usize, usize)> {
        if self.in_grid(x, y) {
            seq![(x as usize, y as usize)] + self.neighbours_among(x, y, 8)
        } else {
            self.neighbours_among(x, y, 8)
        }
    }

    /// The cells of the grid among the eight around the cell in column `x`
    /// and row `y`.
    pub fn neighbouring_cells(&self, x: usize, y: usize) -> (cells: Vec<(usize, usize)>)
        requires
            self.wf(),
        ensures
            cells@ == self.neighbours_among(x as int, y as int, 8),
            forall|k: int|
                0 <= k < cells.len() ==> self.in_grid(
                    (#[trigger] cells[k]).0 as int,
                    cells[k].1 as int,
                ),
    {
        let amount_of_x_cells: usize = self.map.len();
        let amount_of_y_cells: usize = if amount_of_x_cells > 0 {
            self.map[0].len()
        } else {
            0
        };
        let mut cells: Vec<(usize, usize)> = Vec::new();
        let mut k: usize = 0;
        while k < 8
            invariant
                k <= 8,
                self.wf(),
                amount_of_x_cells == self.columns(),
                amount_of_x_cells > 0 ==> amount_of_y_cells == self.rows(),
                cells@ == self.neighbours_among(x as int, y as int, k as int),
                forall|m: int|
                    0 <= m < cells.len() ==> self.in_grid(
                        (#[trigger] cells[m]).0 as int,
                        cells[m].1 as int,
                    ),
            decreases 8 - k,
        {
            let (dx, dy): (i8, i8) = surrounding(k);
            let i: i128 = x as i128 + dx as i128;
            let j: i128 = y as i128 + dy as i128;
            if 0 <= i && i < amount_of_x_cells as i128 && 0 <= j && j < amount_of_y_cells as i128 {
                cells.push((i as usize, j as usize));
            }
            k = k + 1;
        }
        cells
    }

    /// The particles that may touch one in the cell in column `x` and row
    /// `y`: those listed in the cell or in a cell around it, each once.
    pub fn neighbouring_cells_particles(&self, x: usize, y: usize) -> (particles: Vec<Handle>)
        requires
            self.wf(),
        ensures
            particles@ == self.listed_among(
                self.neighbourhood(x as int, y as int),
                self.neighbourhood(x as int, y as int).len() as int,
            ),
    {
        let mut cells: Vec<(usize, usize)> = Vec::new();
        if x < self.map.len() && y < self.map[x].len() {
            assert(self.map[x as int].len() == self.rows());
            cells.push((x, y));
        } else {
            assert(!self.in_grid(x as int, y as int)) by {
                if x < self.map.len() {
                    assert(self.map[x as int].len() == self.rows());
                }
            }
        }
        let mut around: Vec<(usize, usize)> = self.neighbouring_cells(x, y);
        cells.append(&mut around);
        assert(cells@ =~= self.neighbourhood(x as int, y as int));
        let mut particles: Vec<Handle> = Vec::new();
        let mut k: usize = 0;
        while k < cells.len()
            invariant
                k <= cells.len(),
                self.wf(),
                forall|m: int|
                    0 <= m < cells.len() ==> self.in_grid(
                        (#[trigger] cells[m]).0 as int,
                        cells[m].1 as int,
                    ),
                particles@ == self.listed_among(cells@, k as int),
            decreases cells.len() - k,
        {
            let (i, j): (usize, usize) = cells[k];
            assert(self.in_grid(cells[k as int].0 as int, cells[k as int].1 as int));
            assert(self.map[i as int].len() == self.rows());
            let ghost before = particles@;
            let mut m: usize = 0;
            while m < self.map[i][j].len()
                invariant
                    self.wf(),
                    i < self.map.len(),
                    j < self.map[i as int].len(),
                    m <= self.map[i as int][j as int].len(),
                    particles@ == merged(before, self.cell(i as int, j as int), m as int),
                decreases self.map[i as int][j as int].len() - m,
            {
                let handle: Handle = self.map[i][j][m];
                if !holds_handle(&particles, handle) {
                    particles.push(handle);
                }
                m = m + 1;
            }
            k = k + 1;
        }
        particles
    }
}

/// `found` with the first `n` handles of `cell` added at the end, each
/// unless it is there already.
pub open spec fn merged(found: Seq<Handle>, cell: Seq<Handle>, n: int) -> Seq<Handle>
    decreases n,
{
    if n <= 0 {
        found
    } else {
        let before = merged(found, cell, n - 1);
        if before.contains(cell[n - 1]) {
            before
        } else {
            before.push(cell[n - 1])
        }
    }
}

/// Whether `handle` is one of `handles`.
fn holds_handle(handles: &Vec<Handle>, handle: Handle) -> (found: bool)
    ensures
        found == handles@.contains(handle),
{
    let mut k: usize = 0;
    while k < handles.len()
        invariant
            k <= handles.len(),
            forall|m: int| 0 <= m < k ==> handles[m] != handle,
        decreases handles.len() - k,
    {
        if handles[k] == handle {
            return true;
        }
        k = k + 1;
    }
    false
}

/// The `k`-th offset of the eight cells around a cell.
fn surrounding(k: usize) -> (offset: (i8, i8))
    requires
        k < 8,
    ensures
        (offset.0 as int, offset.1 as int) == surrounding_offset(k as int),
{
    if k == 0 {
        (-1, -1)
    } else if k == 1 {
        (-1, 0)
    } else if k == 2 {
        (-1, 1)
    } else if k == 3 {
        (0, -1)
    } else if k == 4 {
        (0, 1)
    } else if k == 5 {
        (1, -1)
    } else if k == 6 {
        (1, 0)
    } else {
        (1, 1)
    }
}

/// The handle of the particle in slot `i`.
pub open spec fn handle_at(slots: Seq<SlotView>, i: int) -> Handle {
    Handle { index: i as u32, generation: slots[i].generation }
}

/// The position as a vector.
pub open spec fn as_vector(position: (i64, i64)) -> Vector2 {
    Vector2 { x: position.0, y: position.1 }
}

/// What a refresh of the grid makes of the cell in column `i` and row `j`
/// once it has dealt with the first `n` slots: each particle in them has
/// been taken out of the cell where the cell was one of the cells of its
/// disc at the position kept for it, and added at the end where the cell is
/// one of the cells of its disc now.
pub open spec fn refreshed_cell(
    grid: PositionHashMap,
    i: int,
    j: int,
    slots: Seq<SlotView>,
    previous: Map<u64, (i64, i64)>,
    n: int,
) -> Seq<Handle>
    decreases n,
{
    if n <= 0 {
        grid.cell(i, j)
    } else {
        let before = refreshed_cell(grid, i, j, slots, previous, n - 1);
        let slot = slots[n - 1];
        if slot.occupied {
            let entity = handle_at(slots, n - 1);
            let key = entity.bits() as u64;
            moved(
                before,
                previous.dom().contains(key) && grid.lists_in(
                    as_vector(previous[key]),
                    slot.body.particle.radius,
                    i,
                    j,
                ),
                grid.lists_in(slot.body.position, slot.body.particle.radius, i, j),
                entity,
            )
        } else {
            before
        }
    }
}

/// The positions kept once a refresh has dealt with the first `n` slots:
/// for each particle in them, where it stands.
pub open spec fn recorded(previous: Map<u64, (i64, i64)>, slots: Seq<SlotView>, n: int) -> Map<
    u64,
    (i64, i64),
>
    decreases n,
{
    if n <= 0 {
        previous
    } else {
        let before = recorded(previous, slots, n - 1);
        let slot = slots[n - 1];
        if slot.occupied {
            before.insert(
                handle_at(slots, n - 1).bits() as u64,
                (slot.body.position.x, slot.body.position.y),
            )
        } else {
            before
        }
    }
}

/// A refresh that has dealt with the first `n` slots has kept nothing new
/// under the key of a later slot.
pub proof fn lemma_recorded_later(
    previous: Map<u64, (i64, i64)>,
    slots: Seq<SlotView>,
    n: int,
    later: int,
)
    requires
        0 <= n <= later < slots.len() <= u32::MAX,
    ensures
        ({
            let key = handle_at(slots, later).bits() as u64;
            &&& recorded(previous, slots, n).dom().contains(key) == previous.dom().contains(key)
            &&& recorded(previous, slots, n).dom().contains(key) ==> recorded(previous, slots, n)[key]
                == previous[key]
        }),
    decreases n,
{
    if n > 0 {
        lemma_recorded_later(previous, slots, n - 1, later);
        assert(handle_at(slots, n - 1).bits() != handle_at(slots, later).bits());
    }
}

/// After a refresh every particle is listed in every cell of its disc.
pub proof fn lemma_refreshed_lists(
    grid: PositionHashMap,
    i: int,
    j: int,
    slots: Seq<SlotView>,
    previous: Map<u64, (i64, i64)>,
    n: int,
    k: int,
)
    requires
        0 <= k < n <= slots.len() <= u32::MAX,
        slots[k].occupied,
        grid.lists_in(slots[k].body.position, slots[k].body.particle.radius, i, j),
    ensures
        refreshed_cell(grid, i, j, slots, previous, n).contains(handle_at(slots, k)),
    decreases n,
{
    let entity = handle_at(slots, k);
    let after = refreshed_cell(grid, i, j, slots, previous, n);
    if k == n - 1 {
        assert(after[after.len() - 1] == entity);
    } else {
        lemma_refreshed_lists(grid, i, j, slots, previous, n - 1, k);
        if slots[n - 1].occupied {
            let other = handle_at(slots, n - 1);
            let key = other.bits() as u64;
            lemma_moved_keeps(
                refreshed_cell(grid, i, j, slots, previous, n - 1),
                previous.dom().contains(key) && grid.lists_in(
                    as_vector(previous[key]),
                    slots[n - 1].body.particle.radius,
                    i,
                    j,
                ),
                grid.lists_in(
                    slots[n - 1].body.position,
                    slots[n - 1].body.particle.radius,
                    i,
                    j,
                ),
                other,
                entity,
            );
        }
    }
}

/// Moving one particle leaves every other where it is listed.
pub proof fn lemma_moved_keeps(
    cell: Seq<Handle>,
    was_listed: bool,
    is_listed: bool,
    entity: Handle,
    other: Handle,
)
    requires
        other != entity,
    ensures
        moved(cell, was_listed, is_listed, entity).contains(other) == cell.contains(other),
{
    lemma_without_contains(cell, entity, other);
    let cleared = if was_listed {
        without(cell, entity)
    } else {
        cell
    };
    let after = moved(cell, was_listed, is_listed, entity);
    if is_listed {
        if cleared.contains(other) {
            let at = choose|at: int| 0 <= at < cleared.len() && cleared[at] == other;
            assert(after[at] == other);
        }
        if after.contains(other) {
            let at = choose|at: int| 0 <= at < after.len() && after[at] == other;
            assert(at < cleared.len());
            assert(cleared[at] == other);
        }
    }
}

/// Brings the grid up to date with where the particles stand: a particle
/// that the grid lists is moved from the cells of its disc at the position
/// kept for it to the cells of its disc now, one that it does not list yet
/// is added to them, and for each the position is kept for the next time.
pub fn update_position_map(
    positions_map: &mut PositionHashMap,
    entity_previous_position_map: &mut EntityPreviousPositionMap,
    registry: &Registry,
)
    requires
        old(positions_map).wf(),
        registry.wf(),
    ensures
        final(positions_map).wf(),
        final(positions_map).same_layout(*old(positions_map)),
        forall|i: int, j: int|
            old(positions_map).in_grid(i, j) ==> #[trigger] final(positions_map).cell(i, j)
                == refreshed_cell(
                *old(positions_map),
                i,
                j,
                registry@,
                previous_positions(*old(entity_previous_position_map)),
                registry@.len() as int,
            ),
        previous_positions(*final(entity_previous_position_map)) == recorded(
            previous_positions(*old(entity_previous_position_map)),
            registry@,
            registry@.len() as int,
        ),
{
    let ghost start = previous_positions(*entity_previous_position_map);
    let mut k: usize = 0;
    while k < registry.slots.len()
        invariant
            k <= registry.slots.len(),
            registry.wf(),
            old(positions_map).wf(),
            positions_map.wf(),
            positions_map.same_layout(*old(positions_map)),
            start == previous_positions(*old(entity_previous_position_map)),
            forall|i: int, j: int|
                old(positions_map).in_grid(i, j) ==> #[trigger] positions_map.cell(i, j)
                    == refreshed_cell(*old(positions_map), i, j, registry@, start, k as int),
            previous_positions(*entity_previous_position_map) == recorded(
                start,
                registry@,
                k as int,
            ),
        decreases registry.slots.len() - k,
    {
        assert(registry@[k as int] == registry.slots@[k as int]@);
        if registry.slots[k].occupied {
            let entity: Handle = Handle {
                index: k as u32,
                generation: registry.slots[k].generation,
            };
            let key: u64 = entity.to_bits();
            let curr_position: Vector2 = registry.slots[k].body.position;
            let radius: i64 = registry.slots[k].body.particle.radius;
            let ghost before = *positions_map;
            proof {
                lemma_recorded_later(start, registry@, k as int, k as int);
                lemma_same_layout_same_cells(*old(positions_map), before, curr_position, radius);
            }
            match entity_previous_position_map.get(key) {
                Some(prev_position) => {
                    let prev: Vector2 = Vector2 { x: prev_position.0, y: prev_position.1 };
                    proof {
                        lemma_same_layout_same_cells(*old(positions_map), before, prev, radius);
                    }
                    positions_map.update(prev, curr_position, radius, entity);
                },
                None => {
                    positions_map.insert(curr_position, radius, entity);
                },
            }
            entity_previous_position_map.insert(key, (curr_position.x, curr_position.y));
            proof {
                assert forall|i: int, j: int|
                    old(positions_map).in_grid(i, j) implies #[trigger] positions_map.cell(i, j)
                    == refreshed_cell(*old(positions_map), i, j, registry@, start, k + 1) by {
                    assert(before.in_grid(i, j));
                    assert(before.cell(i, j) == refreshed_cell(
                        *old(positions_map),
                        i,
                        j,
                        registry@,
                        start,
                        k as int,
                    ));
                }
            }
        }
        k = k + 1;
    }
}

} // verus!
