//! Movement decisions of enemies: pursuit along the navigation field and
//! wandering among open cells.

use vstd::prelude::*;
use crate::geometry::Vector;
use crate::grid::{cell_at, is_cell, Grid, BLOCKED, ROOM_HEIGHT, ROOM_WIDTH};
use crate::layout::{cell_centre, cell_index, in_room, pos_to_room_coords, room_coords_to_pos};
use crate::navigation::{is_field, open_neighbor, pursuit_step};
use crate::random::{random_below, random_ratio};

verus! {

/// Chance, in fifths, that a wanderer whose cooldown has expired picks a
/// new heading although its heading is still open.
pub const REROLL_CHANCE_FIFTHS: u32 = 4;

/// A direction of movement along the grid, in the order in which queries
/// look at the neighbors of a cell.
#[derive(Clone, Copy, Debug, PartialEq, Eq, Structural)]
pub enum Heading {
    West,
    South,
    East,
    North,
}

impl Heading {
    /// The number of the direction: 0 is west, 1 south, 2 east, 3 north.
    pub open spec fn number(self) -> int {
        match self {
            Heading::West => 0,
            Heading::South => 1,
            Heading::East => 2,
            Heading::North => 3,
        }
    }

    /// The heading with the given number.
    pub open spec fn of(k: int) -> Heading {
        if k == 0 {
            Heading::West
        } else if k == 1 {
            Heading::South
        } else if k == 2 {
            Heading::East
        } else {
            Heading::North
        }
    }

    /// The unit vector of the heading: west is `-x`, south `+y`.
    pub open spec fn unit(self) -> Vector {
        match self {
            Heading::West => Vector { x: -1i32, y: 0 },
            Heading::South => Vector { x: 0, y: 1 },
            Heading::East => Vector { x: 1, y: 0 },
            Heading::North => Vector { x: 0, y: -1i32 },
        }
    }

    /// The unit vector of the heading.
    pub fn to_vector(&self) -> (v: Vector)
        ensures
            v == self.unit(),
    {
        match self {
            Heading::West => Vector { x: -1, y: 0 },
            Heading::South => Vector { x: 0, y: 1 },
            Heading::East => Vector { x: 1, y: 0 },
            Heading::North => Vector { x: 0, y: -1 },
        }
    }

    /// The heading with the given unit vector, if it is one.
    pub fn from_vector(v: Vector) -> (h: Option<Heading>)
        ensures
            h is Some ==> h->0.unit() == v,
            h is None ==> !v.cardinal(),
    {
        if v.x == -1 && v.y == 0 {
            Some(Heading::West)
        } else if v.x == 0 && v.y == 1 {
            Some(Heading::South)
        } else if v.x == 1 && v.y == 0 {
            Some(Heading::East)
        } else if v.x == 0 && v.y == -1 {
            Some(Heading::North)
        } else {
            None
        }
    }
}

/// The position that a pursuer at `pos` heads for: the centre of the cell
/// that the navigation field leads to, or `pos` itself where the field
/// leads nowhere.
pub open spec fn pursuit_goal(g: Seq<i32>, pos: Vector, sw: u32, sh: u32) -> Vector {
    let here = cell_at(
        cell_index(pos.y as int, sh, ROOM_HEIGHT as int),
        cell_index(pos.x as int, sw, ROOM_WIDTH as int),
    );
    let next = pursuit_step(g, here);
    if next == here {
        pos
    } else {
        Vector {
            x: cell_centre(next % (ROOM_WIDTH as int), sw, ROOM_WIDTH as int) as i32,
            y: cell_centre(next / (ROOM_WIDTH as int), sh, ROOM_HEIGHT as int) as i32,
        }
    }
}

/// Pursuit query: where an actor at `pos` goes next to come closer to the
/// field's target.
pub fn find_path(grid: &Grid, pos: Vector, sw: u32, sh: u32) -> (goal: Vector)
    requires
        grid.wf(),
        in_room(pos, sw, sh),
    ensures
        goal == pursuit_goal(grid@, pos, sw, sh),
{
    let (row, col): (usize, usize) = pos_to_room_coords(pos, sw, sh);
    let (next_row, next_col): (usize, usize) = grid.next_cell(row, col);
    if next_row == row && next_col == col {
        pos
    } else {
        room_coords_to_pos(next_row, next_col, sw, sh)
    }
}

/// The headings from the cell `p` that lead to an open cell, among the
/// first `n` directions, in order.
pub open spec fn open_headings(g: Seq<i32>, p: int, n: int) -> Seq<Heading>
    decreases n,
{
    if n <= 0 {
        Seq::empty()
    } else if open_neighbor(g, p, n - 1) {
        open_headings(g, p, n - 1).push(Heading::of(n - 1))
    } else {
        open_headings(g, p, n - 1)
    }
}

/// The headings from the cell at `row`, `col` that lead to an open cell,
/// in the order west, south, east, north.
pub fn viable_headings(grid: &Grid, row: usize, col: usize) -> (options: Vec<Heading>)
    requires
        grid.wf(),
        row < ROOM_HEIGHT,
        col < ROOM_WIDTH,
    ensures
        options@ == open_headings(grid@, cell_at(row as int, col as int), 4),
{
    let mut options: Vec<Heading> = Vec::new();
    let mut k: usize = 0;
    while k < 4
        invariant
            k <= 4,
            grid.wf(),
            row < ROOM_HEIGHT,
            col < ROOM_WIDTH,
            options@ == open_headings(grid@, cell_at(row as int, col as int), k as int),
        decreases 4 - k,
    {
        if grid.open_toward(row, col, k) {
            let h: Heading = if k == 0 {
                Heading::West
            } else if k == 1 {
                Heading::South
            } else if k == 2 {
                Heading::East
            } else {
                Heading::North
            };
            options.push(h);
        }
        k = k + 1;
    }
    options
}

/// What a wanderer does in a tick.
#[derive(Clone, Copy, Debug, PartialEq, Eq, Structural)]
pub struct WanderStep {
    /// The heading after the decision: one that leads to an open cell.
    pub heading: Heading,
    /// A new heading was picked, so the cooldown starts again.
    pub rerolled: bool,
}

/// The wanderer must pick a heading: it has none, or its heading leads to
/// a cell that is not open.
pub open spec fn must_reroll(options: Seq<Heading>, current: Option<Heading>) -> bool {
    current is None || !options.contains(current->0)
}

/// The wanderer's decision, given the open headings, of which there is at
/// least one, its heading, whether its cooldown has expired, and the two
/// draws: `chance` says whether an expired cooldown leads to a new
/// heading, `pick` which of the open headings is taken. A heading that is
/// not viable is replaced at once, whatever the cooldown.
pub open spec fn wander_choice(
    options: Seq<Heading>,
    current: Option<Heading>,
    cooldown_expired: bool,
    chance: bool,
    pick: int,
) -> WanderStep {
    if (cooldown_expired && chance) || must_reroll(options, current) {
        WanderStep { heading: options[pick], rerolled: true }
    } else {
        WanderStep { heading: current->0, rerolled: false }
    }
}

/// The current heading, if it is one of `options`.
fn viable_heading(options: &Vec<Heading>, current: Option<Heading>) -> (kept: Option<Heading>)
    ensures
        kept == (if must_reroll(options@, current) {
            None
        } else {
            current
        }),
{
    match current {
        None => None,
        Some(h) => {
            let mut i: usize = 0;
            while i < options.len()
                invariant
                    i <= options.len(),
                    current == Some(h),
                    forall|j: int| 0 <= j < i ==> options@[j] != h,
                decreases options.len() - i,
            {
                if options[i] == h {
                    assert(options@[i as int] == h);
                    return current;
                }
                i = i + 1;
            }
            None
        },
    }
}

/// The wanderer's decision for given draws. There must be an open heading
/// for `pick` to name; the heading decided on is one of the open ones.
pub fn decide_wander(
    options: &Vec<Heading>,
    current: Option<Heading>,
    cooldown_expired: bool,
    chance: bool,
    pick: usize,
) -> (step: WanderStep)
    requires
        pick < options.len(),
    ensures
        step == wander_choice(options@, current, cooldown_expired, chance, pick as int),
        options@.contains(step.heading),
{
    let kept: Option<Heading> = if cooldown_expired && chance {
        None
    } else {
        viable_heading(options, current)
    };
    match kept {
        Some(h) => WanderStep { heading: h, rerolled: false },
        None => {
            let h: Heading = options[pick];
            assert(options@[pick as int] == h);
            WanderStep { heading: h, rerolled: true }
        },
    }
}

/// Wander query for an actor in the cell at `row`, `col` with the heading
/// `current`: the chance to change heading after an expired cooldown is
/// four in five, and a new heading is drawn evenly among the open ones.
/// The cell must have an open neighbor: a walled-in actor has nowhere to
/// head for. The result is the decision for the draws that were made, and
/// its heading leads to an open cell.
pub fn wander(
    grid: &Grid,
    row: usize,
    col: usize,
    current: Option<Heading>,
    cooldown_expired: bool,
) -> (step: WanderStep)
    requires
        grid.wf(),
        row < ROOM_HEIGHT,
        col < ROOM_WIDTH,
        open_headings(grid@, cell_at(row as int, col as int), 4).len() > 0,
    ensures
        exists|chance: bool, pick: int|
            0 <= pick < open_headings(grid@, cell_at(row as int, col as int), 4).len() && step
                == #[trigger] wander_choice(
                open_headings(grid@, cell_at(row as int, col as int), 4),
                current,
                cooldown_expired,
                chance,
                pick,
            ),
        open_headings(grid@, cell_at(row as int, col as int), 4).contains(step.heading),
{
    let options: Vec<Heading> = viable_headings(grid, row, col);
    let chance: bool = cooldown_expired && random_ratio(REROLL_CHANCE_FIFTHS, 5);
    let viable: bool = viable_heading(&options, current).is_some();
    let pick: usize = if chance || !viable {
        random_below(options.len())
    } else {
        0
    };
    let step: WanderStep = decide_wander(&options, current, cooldown_expired, chance, pick);
    assert(step == wander_choice(options@, current, cooldown_expired, chance, pick as int));
    step
}

/// The cell that the field of a room was last computed for, if any.
#[derive(Clone, Copy, Debug, PartialEq, Eq, Structural)]
pub enum FieldTarget {
    Unset,
    Cell { row: usize, col: usize },
}

/// Recomputes the navigation field when the target has moved to another
/// cell, and only then: the field is computed for the cell at `row`,
/// `col` unless `last` names that very cell. The result says whether it
/// was computed.
pub fn track_target(grid: &mut Grid, last: FieldTarget, row: usize, col: usize) -> (recomputed: bool)
    requires
        old(grid).wf(),
        row < ROOM_HEIGHT,
        col < ROOM_WIDTH,
    ensures
        final(grid).wf(),
        recomputed == (last != FieldTarget::Cell { row, col }),
        !recomputed ==> final(grid)@ == old(grid)@,
        recomputed ==> is_field(final(grid)@, cell_at(row as int, col as int)),
        forall|p: int|
            is_cell(p) ==> (#[trigger] final(grid)@[p] == BLOCKED) == (old(grid)@[p] == BLOCKED),
{
    match last {
        FieldTarget::Cell { row: r, col: c } => {
            if r == row && c == col {
                return false;
            }
        },
        FieldTarget::Unset => {},
    }
    grid.flood_fill(row, col);
    true
}

} // verus!
