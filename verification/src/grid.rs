//! The room grid: a fixed number of cells, each blocked or holding a
//! navigation value.

use vstd::prelude::*;
use crate::navigation::{fill_distances, is_field, open_neighbor, pursuit_step};

verus! {

/// Number of cell columns in a room.
pub const ROOM_WIDTH: usize = 15;

/// Number of cell rows in a room.
pub const ROOM_HEIGHT: usize = 9;

/// Number of cells in a room.
pub const ROOM_CELLS: usize = 135;

/// Value of a blocked cell.
pub const BLOCKED: i32 = -1;

/// Value of an open cell from which the target cannot be reached.
pub const UNREACHED: i32 = 2147483647;

/// `p` is the index of a cell: row `p / ROOM_WIDTH`, column `p % ROOM_WIDTH`.
pub open spec fn is_cell(p: int) -> bool {
    0 <= p < ROOM_CELLS
}

/// Index of the cell at `row`, `col`.
pub open spec fn cell_at(row: int, col: int) -> int {
    row * ROOM_WIDTH + col
}

/// The cell `p` has a neighbor in direction `k`: 0 is west (the column
/// before), 1 south (the row after), 2 east, 3 north.
pub open spec fn has_neighbor(p: int, k: int) -> bool {
    is_cell(p) && if k == 0 {
        p % (ROOM_WIDTH as int) > 0
    } else if k == 1 {
        p + ROOM_WIDTH < ROOM_CELLS
    } else if k == 2 {
        p % (ROOM_WIDTH as int) < ROOM_WIDTH - 1
    } else if k == 3 {
        p >= ROOM_WIDTH
    } else {
        false
    }
}

/// The neighbor of `p` in direction `k`.
pub open spec fn neighbor(p: int, k: int) -> int {
    if k == 0 {
        p - 1
    } else if k == 1 {
        p + ROOM_WIDTH
    } else if k == 2 {
        p + 1
    } else {
        p - ROOM_WIDTH
    }
}

/// The direction that leads back: west and east, south and north.
pub open spec fn opposite(k: int) -> int {
    if k < 2 {
        k + 2
    } else {
        k - 2
    }
}

/// The cells `p` and `q` share an edge.
pub open spec fn adjacent(p: int, q: int) -> bool {
    exists|k: int| 0 <= k < 4 && has_neighbor(p, k) && #[trigger] neighbor(p, k) == q
}

/// A room's grid of cells, row by row.
pub struct Grid {
    cells: Vec<i32>,
}

impl Grid {
    /// The cell values, row by row.
    pub closed spec fn view(&self) -> Seq<i32> {
        self.cells@
    }

    /// The grid has one value for each cell, `BLOCKED` or not negative.
    pub open spec fn wf(&self) -> bool {
        &&& self@.len() == ROOM_CELLS
        &&& forall|p: int| is_cell(p) ==> #[trigger] self@[p] >= BLOCKED
    }

    /// The cell `p` is not blocked.
    pub open spec fn open_at(&self, p: int) -> bool {
        is_cell(p) && self@[p] >= 0
    }

    /// A grid in which every cell is open and holds zero.
    pub fn new() -> (g: Grid)
        ensures
            g.wf(),
            forall|p: int| is_cell(p) ==> #[trigger] g@[p] == 0,
    {
        let mut cells: Vec<i32> = Vec::new();
        let mut n: usize = 0;
        while n < ROOM_CELLS
            invariant
                n <= ROOM_CELLS,
                cells@.len() == n,
                forall|p: int| 0 <= p < n ==> #[trigger] cells@[p] == 0,
            decreases ROOM_CELLS - n,
        {
            cells.push(0);
            n = n + 1;
        }
        Grid { cells }
    }

    /// The value of the cell at `row`, `col`.
    pub fn get(&self, row: usize, col: usize) -> (v: i32)
        requires
            self.wf(),
            row < ROOM_HEIGHT,
            col < ROOM_WIDTH,
        ensures
            v == self@[cell_at(row as int, col as int)],
            is_cell(cell_at(row as int, col as int)),
    {
        self.cells[row * ROOM_WIDTH + col]
    }

    /// Whether the cell at `row`, `col` is blocked.
    pub fn is_blocked(&self, row: usize, col: usize) -> (b: bool)
        requires
            self.wf(),
            row < ROOM_HEIGHT,
            col < ROOM_WIDTH,
        ensures
            b == !self.open_at(cell_at(row as int, col as int)),
    {
        self.cells[row * ROOM_WIDTH + col] < 0
    }

    /// Blocks the cell at `row`, `col`.
    pub fn block(&mut self, row: usize, col: usize)
        requires
            old(self).wf(),
            row < ROOM_HEIGHT,
            col < ROOM_WIDTH,
        ensures
            final(self).wf(),
            final(self)@ == old(self)@.update(cell_at(row as int, col as int), BLOCKED),
    {
        self.cells.set(row * ROOM_WIDTH + col, BLOCKED);
    }

    /// Recomputes the navigation field for the target cell at `row`, `col`:
    /// blocked cells stay blocked, and every open cell gets the number of
    /// steps to the target through open cells, `UNREACHED` if there is no
    /// way. A blocked target leaves every open cell at `UNREACHED`.
    pub fn flood_fill(&mut self, row: usize, col: usize)
        requires
            old(self).wf(),
            row < ROOM_HEIGHT,
            col < ROOM_WIDTH,
        ensures
            final(self).wf(),
            is_field(final(self)@, cell_at(row as int, col as int)),
            forall|p: int|
                is_cell(p) ==> (#[trigger] final(self)@[p] == BLOCKED) == (old(self)@[p]
                    == BLOCKED),
    {
        fill_distances(&mut self.cells, row * ROOM_WIDTH + col);
    }

    /// The cell that a pursuer at `row`, `col` steps to: the first
    /// neighbor, in the order west, south, east, north, that is open and
    /// holds less than the pursuer's cell; the pursuer's own cell if there
    /// is none.
    pub fn next_cell(&self, row: usize, col: usize) -> (r: (usize, usize))
        requires
            self.wf(),
            row < ROOM_HEIGHT,
            col < ROOM_WIDTH,
        ensures
            r.0 < ROOM_HEIGHT,
            r.1 < ROOM_WIDTH,
            cell_at(r.0 as int, r.1 as int) == pursuit_step(self@, cell_at(row as int, col as int)),
    {
        let p: usize = row * ROOM_WIDTH + col;
        let here: i32 = self.cells[p];
        if col > 0 && self.cells[p - 1] >= 0 && self.cells[p - 1] < here {
            (row, col - 1)
        } else if row + 1 < ROOM_HEIGHT && self.cells[p + ROOM_WIDTH] >= 0 && self.cells[p
            + ROOM_WIDTH] < here {
            (row + 1, col)
        } else if col + 1 < ROOM_WIDTH && self.cells[p + 1] >= 0 && self.cells[p + 1] < here {
            (row, col + 1)
        } else if row > 0 && self.cells[p - ROOM_WIDTH] >= 0 && self.cells[p - ROOM_WIDTH] < here {
            (row - 1, col)
        } else {
            (row, col)
        }
    }

    /// Whether the cell at `row`, `col` has an open neighbor in direction
    /// `k`: 0 is west, 1 south, 2 east, 3 north.
    pub fn open_toward(&self, row: usize, col: usize, k: usize) -> (b: bool)
        requires
            self.wf(),
            row < ROOM_HEIGHT,
            col < ROOM_WIDTH,
        ensures
            b == open_neighbor(self@, cell_at(row as int, col as int), k as int),
    {
        let p: usize = row * ROOM_WIDTH + col;
        if k == 0 {
            col > 0 && self.cells[p - 1] >= 0
        } else if k == 1 {
            row + 1 < ROOM_HEIGHT && self.cells[p + ROOM_WIDTH] >= 0
        } else if k == 2 {
            col + 1 < ROOM_WIDTH && self.cells[p + 1] >= 0
        } else if k == 3 {
            row > 0 && self.cells[p - ROOM_WIDTH] >= 0
        } else {
            false
        }
    }

    /// Whether every open cell holds a distance.
    pub fn all_reached(&self) -> (b: bool)
        requires
            self.wf(),
        ensures
            b == forall|p: int| is_cell(p) && #[trigger] self@[p] >= 0 ==> self@[p] < UNREACHED,
    {
        let mut n: usize = 0;
        while n < ROOM_CELLS
            invariant
                n <= ROOM_CELLS,
                self.wf(),
                forall|p: int| 0 <= p < n && #[trigger] self@[p] >= 0 ==> self@[p] < UNREACHED,
            decreases ROOM_CELLS - n,
        {
            if self.cells[n] == UNREACHED {
                assert(is_cell(n as int) && self@[n as int] >= 0);
                return false;
            }
            n = n + 1;
        }
        true
    }

    /// Opens the cell at `row`, `col`, with the value zero.
    pub fn clear(&mut self, row: usize, col: usize)
        requires
            old(self).wf(),
            row < ROOM_HEIGHT,
            col < ROOM_WIDTH,
        ensures
            final(self).wf(),
            final(self)@ == old(self)@.update(cell_at(row as int, col as int), 0),
    {
        self.cells.set(row * ROOM_WIDTH + col, 0);
    }
}

} // verus!
