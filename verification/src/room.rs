//! A room: its navigation grid and its stationary obstacles, as the
//! generator lays them out.

use vstd::prelude::*;
use crate::entities::{BlockTag, Body, Coords, Obstacle, Shot};
use crate::geometry::Vector;
use crate::grid::{cell_at, is_cell, Grid, BLOCKED, ROOM_CELLS, ROOM_HEIGHT, ROOM_WIDTH};
use crate::layout::{cell_centre, cell_extent, cell_size, room_coords_to_pos};
use crate::navigation::{
    connected_through, is_field, is_grid, is_walk, lemma_field_decides_connection,
    lemma_field_unique, lemma_walk_carries_over, same_walls,
};
use crate::plan::{
    draw, slot_has_neighbor, slot_neighbor, DUNGEON_SIDES, DUNGEON_SLOTS, DUNGEON_WIDTH,
};
use crate::random::random_below;

verus! {

/// Number of obstacles that the generator tries to place in a room.
pub const OBSTACLE_TRIES: usize = 6;

/// The cell in the middle of a room, row `4`, column `7`.
pub const CENTRE_CELL: usize = 67;

/// Number of cells that are not on the border.
pub const INNER_CELLS: usize = 91;

/// Number of columns that are not on the border.
pub const INNER_WIDTH: usize = 13;

/// The cell `p` lies on the border of the room.
pub open spec fn on_border(p: int) -> bool {
    p < ROOM_WIDTH || p >= ROOM_CELLS - ROOM_WIDTH || p % (ROOM_WIDTH as int) == 0 || p % (
    ROOM_WIDTH as int) == ROOM_WIDTH - 1
}

/// The border cell in which a door on side `k` stands: the middle of the
/// west, south, east and north wall.
pub open spec fn door_cell(k: int) -> int {
    if k == 0 {
        60
    } else if k == 1 {
        127
    } else if k == 2 {
        74
    } else {
        7
    }
}

/// The cell `p` must stay open: the centre, and the cell before each door.
pub open spec fn kept_open(p: int) -> bool {
    p == CENTRE_CELL || p == 61 || p == 112 || p == 73 || p == 22
}

/// The grid of an empty room: the border blocked, every other cell open.
pub open spec fn blank() -> Seq<i32> {
    Seq::new(
        ROOM_CELLS as nat,
        |p: int|
            if on_border(p) {
                BLOCKED
            } else {
                0i32
            },
    )
}

/// The inner cell that a draw picks for an obstacle.
pub open spec fn trial_cell(d: int) -> int {
    (1 + (d % (INNER_CELLS as int)) / (INNER_WIDTH as int)) * ROOM_WIDTH + 1 + (d % (
    INNER_CELLS as int)) % (INNER_WIDTH as int)
}

/// The walls after one more obstacle has been tried: the cell that the
/// draw picks is blocked, unless it must stay open, is blocked already,
/// or would cut an open cell off from the centre.
pub open spec fn tried(g: Seq<i32>, d: int) -> Seq<i32> {
    let c = trial_cell(d);
    if !kept_open(c) && g[c] >= 0 && connected_through(g.update(c, BLOCKED), CENTRE_CELL as int) {
        g.update(c, BLOCKED)
    } else {
        g
    }
}

/// The walls of a room after the first `n` tries, the draws for which
/// start at `first`.
pub open spec fn walls(draws: Seq<usize>, first: int, n: int) -> Seq<i32>
    decreases n,
{
    if n <= 0 {
        blank()
    } else {
        tried(walls(draws, first, n - 1), draw(draws, first + n - 1))
    }
}

/// The navigation field of the walls `g` for `target`.
pub open spec fn field_of(g: Seq<i32>, target: int) -> Seq<i32> {
    choose|f: Seq<i32>| is_field(f, target) && same_walls(f, g)
}

/// The coordinate of a slot of the dungeon.
pub open spec fn coords_of(slot: int) -> Coords {
    Coords { row: (slot / (DUNGEON_WIDTH as int)) as usize, col: (slot % (DUNGEON_WIDTH as int)) as usize }
}

/// The side on which the cell `p` holds a door of the room at `slot`, if any.
pub open spec fn door_side(doors: Seq<bool>, slot: int, p: int) -> Option<int> {
    if p == door_cell(0) && doors[4 * slot + 0] {
        Some(0int)
    } else if p == door_cell(1) && doors[4 * slot + 1] {
        Some(1int)
    } else if p == door_cell(2) && doors[4 * slot + 2] {
        Some(2int)
    } else if p == door_cell(3) && doors[4 * slot + 3] {
        Some(3int)
    } else {
        None
    }
}

/// What stands on the blocked cell `p` of the room at `slot`: a closed
/// door to the neighboring room where the graph has one, a wall on the
/// rest of the border, a stone inside.
pub open spec fn tag_at(doors: Seq<bool>, slot: int, p: int) -> BlockTag {
    match door_side(doors, slot, p) {
        Some(k) => BlockTag::Door {
            is_open: false,
            connects_to: coords_of(slot_neighbor(slot, k)),
        },
        None => if on_border(p) {
            BlockTag::Wall
        } else {
            BlockTag::Stone
        },
    }
}

/// The obstacle on the blocked cell `p`: it fills the cell.
pub open spec fn block_at(doors: Seq<bool>, slot: int, p: int, sw: u32, sh: u32) -> Obstacle {
    Obstacle {
        pos: Vector {
            x: cell_centre(p % (ROOM_WIDTH as int), sw, ROOM_WIDTH as int) as i32,
            y: cell_centre(p / (ROOM_WIDTH as int), sh, ROOM_HEIGHT as int) as i32,
        },
        size: Vector {
            x: cell_extent(sw, ROOM_WIDTH as int) as i32,
            y: cell_extent(sh, ROOM_HEIGHT as int) as i32,
        },
        tag: tag_at(doors, slot, p),
    }
}

/// The obstacles on the blocked cells among the first `n`, in the order of the cells.
pub open spec fn blocks(g: Seq<i32>, doors: Seq<bool>, slot: int, sw: u32, sh: u32, n: int) -> Seq<
    Obstacle,
>
    decreases n,
{
    if n <= 0 {
        Seq::empty()
    } else if g[n - 1] == BLOCKED {
        blocks(g, doors, slot, sw, sh, n - 1).push(block_at(doors, slot, n - 1, sw, sh))
    } else {
        blocks(g, doors, slot, sw, sh, n - 1)
    }
}

/// A room of the dungeon.
pub struct Room {
    /// The room's coordinate in the dungeon.
    pub coords: Coords,
    /// The navigation grid.
    pub grid: Grid,
    /// Walls, doors and stones.
    pub obstacles: Vec<Obstacle>,
    /// The enemies in the room.
    pub enemies: Vec<Body>,
    /// The projectiles in flight.
    pub shots: Vec<Shot>,
}

/// The mathematical content of a room: all that it owns.
pub struct RoomView {
    pub coords: Coords,
    pub grid: Seq<i32>,
    pub obstacles: Seq<Obstacle>,
    pub enemies: Seq<Body>,
    pub shots: Seq<Shot>,
}

/// The room can be crossed: its grid is the navigation field for the
/// centre, the border is blocked, the centre and the cell before each
/// door are open, and every open cell is joined to the centre, and so to
/// the cells before the doors, through open cells.
pub open spec fn passable(r: RoomView) -> bool {
    &&& is_field(r.grid, CENTRE_CELL as int)
    &&& connected_through(r.grid, CENTRE_CELL as int)
    &&& forall|p: int| is_cell(p) && on_border(p) ==> #[trigger] r.grid[p] == BLOCKED
    &&& forall|p: int| kept_open(p) ==> #[trigger] r.grid[p] >= 0
}

/// Whatever obstacles are tried, the walls keep the border blocked, the
/// centre and the cells before the doors open, and every open cell joined
/// to the centre.
pub proof fn lemma_walls_passable(draws: Seq<usize>, first: int, n: int)
    ensures
        is_grid(walls(draws, first, n)),
        connected_through(walls(draws, first, n), CENTRE_CELL as int),
        forall|p: int| is_cell(p) && on_border(p) ==> #[trigger] walls(draws, first, n)[p] == BLOCKED,
        forall|p: int| kept_open(p) ==> #[trigger] walls(draws, first, n)[p] >= 0,
    decreases n,
{
    if n <= 0 {
        lemma_blank_connected();
    } else {
        lemma_walls_passable(draws, first, n - 1);
        let g = walls(draws, first, n - 1);
        let d = draw(draws, first + n - 1);
        lemma_trial_cell(d);
        assert(walls(draws, first, n) == tried(g, d));
    }
}

/// The room at `slot` as the generator lays it out for the given doors,
/// draws and screen: its walls are those after `OBSTACLE_TRIES` tries, its
/// grid the navigation field of these walls for the centre, its obstacles
/// those on the blocked cells. It holds no enemy and no projectile.
pub open spec fn room_of(doors: Seq<bool>, slot: int, draws: Seq<usize>, first: int, sw: u32, sh: u32) -> RoomView {
    let g = walls(draws, first, OBSTACLE_TRIES as int);
    RoomView {
        coords: coords_of(slot),
        grid: field_of(g, CENTRE_CELL as int),
        obstacles: blocks(g, doors, slot, sw, sh, ROOM_CELLS as int),
        enemies: Seq::empty(),
        shots: Seq::empty(),
    }
}

/// Whether an obstacle can be placed depends on the walls only.
proof fn lemma_tried_respects_walls(a: Seq<i32>, b: Seq<i32>, d: int)
    requires
        is_grid(a),
        is_grid(b),
        same_walls(a, b),
        d >= 0,
    ensures
        is_grid(tried(a, d)),
        is_grid(tried(b, d)),
        same_walls(tried(a, d), tried(b, d)),
{
    let c = trial_cell(d);
    lemma_trial_cell(d);
    let a2 = a.update(c, BLOCKED);
    let b2 = b.update(c, BLOCKED);
    assert(a[c] >= BLOCKED && b[c] >= BLOCKED);
    assert(same_walls(a2, b2));
    if connected_through(a2, CENTRE_CELL as int) {
        lemma_connection_respects_walls(a2, b2);
    }
    if connected_through(b2, CENTRE_CELL as int) {
        lemma_connection_respects_walls(b2, a2);
    }
}

/// Grids with the same walls as a third have the same walls.
proof fn lemma_same_walls_chain(a: Seq<i32>, b: Seq<i32>, c: Seq<i32>)
    requires
        same_walls(a, b),
        same_walls(b, c) || same_walls(c, b),
    ensures
        same_walls(a, c),
        same_walls(c, a),
{
    assert forall|p: int| is_cell(p) implies (#[trigger] a[p] == BLOCKED) == (#[trigger] c[p]
        == BLOCKED) by {
        assert((a[p] == BLOCKED) == (b[p] == BLOCKED));
        assert((b[p] == BLOCKED) == (c[p] == BLOCKED));
    }
}

/// Whether a grid is connected depends on the walls only.
proof fn lemma_connection_respects_walls(a: Seq<i32>, b: Seq<i32>)
    requires
        is_grid(a),
        is_grid(b),
        same_walls(a, b),
        connected_through(a, CENTRE_CELL as int),
    ensures
        connected_through(b, CENTRE_CELL as int),
{
    assert forall|p: int| is_cell(p) && #[trigger] b[p] >= 0 implies exists|w: Seq<int>|
        #[trigger] is_walk(b, w) && w[0] == p && w.last() == CENTRE_CELL as int by {
        assert(a[p] >= BLOCKED);
        assert(a[p] >= 0);
        let w = choose|w: Seq<int>|
            #[trigger] is_walk(a, w) && w[0] == p && w.last() == CENTRE_CELL as int;
        lemma_walk_carries_over(a, b, w);
    }
}

/// The cell that a draw picks is an inner cell.
proof fn lemma_trial_cell(d: int)
    requires
        d >= 0,
    ensures
        is_cell(trial_cell(d)),
        !on_border(trial_cell(d)),
        trial_cell(d) == cell_at(
            1 + (d % (INNER_CELLS as int)) / (INNER_WIDTH as int),
            1 + (d % (INNER_CELLS as int)) % (INNER_WIDTH as int),
        ),
{
}

/// The grid of an empty room.
pub fn blank_grid() -> (grid: Grid)
    ensures
        grid.wf(),
        grid@ == blank(),
{
    let mut grid: Grid = Grid::new();
    let mut p: usize = 0;
    while p < ROOM_CELLS
        invariant
            p <= ROOM_CELLS,
            grid.wf(),
            forall|q: int| 0 <= q < p ==> #[trigger] grid@[q] == blank()[q],
            forall|q: int| p <= q < ROOM_CELLS ==> #[trigger] grid@[q] == 0,
        decreases ROOM_CELLS - p,
    {
        let row: usize = p / ROOM_WIDTH;
        let col: usize = p % ROOM_WIDTH;
        if row == 0 || row == ROOM_HEIGHT - 1 || col == 0 || col == ROOM_WIDTH - 1 {
            grid.block(row, col);
        }
        p = p + 1;
    }
    assert(grid@ =~= blank());
    grid
}

/// Tries to place an obstacle on the inner cell that the draw picks: the
/// cell is blocked unless it must stay open, is blocked already, or
/// blocking it would cut an open cell off from the centre, which the
/// navigation field for the centre tells.
pub fn try_obstacle(grid: &mut Grid, d: usize)
    requires
        old(grid).wf(),
    ensures
        final(grid).wf(),
        same_walls(final(grid)@, tried(old(grid)@, d as int)),
{
    let inner: usize = d % INNER_CELLS;
    let row: usize = 1 + inner / INNER_WIDTH;
    let col: usize = 1 + inner % INNER_WIDTH;
    let c: usize = row * ROOM_WIDTH + col;
    proof {
        lemma_trial_cell(d as int);
    }
    if c == CENTRE_CELL || c == 61 || c == 112 || c == 73 || c == 22 {
        return;
    }
    if grid.is_blocked(row, col) {
        return;
    }
    grid.block(row, col);
    let ghost blocked = grid@;
    grid.flood_fill(ROOM_HEIGHT / 2, ROOM_WIDTH / 2);
    proof {
        assert(same_walls(grid@, blocked));
        lemma_field_decides_connection(grid@, blocked, CENTRE_CELL as int);
    }
    if !grid.all_reached() {
        grid.clear(row, col);
    }
}

/// The coordinate of a slot.
pub fn slot_coords(slot: usize) -> (c: Coords)
    ensures
        c == coords_of(slot as int),
{
    Coords { row: slot / DUNGEON_WIDTH, col: slot % DUNGEON_WIDTH }
}

/// What stands on the blocked cell `p` of the room at `slot`.
fn tag_of(doors: &Vec<bool>, slot: usize, p: usize) -> (tag: BlockTag)
    requires
        slot < DUNGEON_SLOTS,
        p < ROOM_CELLS,
        doors@.len() == DUNGEON_SIDES,
        forall|k: int| 0 <= k < 4 && #[trigger] doors@[4 * slot + k] ==> slot_has_neighbor(slot as int, k),
    ensures
        tag == tag_at(doors@, slot as int, p as int),
{
    if p == 60 && doors[4 * slot] {
        assert(doors@[4 * slot + 0]);
        BlockTag::Door { is_open: false, connects_to: slot_coords(slot - 1) }
    } else if p == 127 && doors[4 * slot + 1] {
        BlockTag::Door { is_open: false, connects_to: slot_coords(slot + DUNGEON_WIDTH) }
    } else if p == 74 && doors[4 * slot + 2] {
        BlockTag::Door { is_open: false, connects_to: slot_coords(slot + 1) }
    } else if p == 7 && doors[4 * slot + 3] {
        BlockTag::Door { is_open: false, connects_to: slot_coords(slot - DUNGEON_WIDTH) }
    } else if p < ROOM_WIDTH || p >= ROOM_CELLS - ROOM_WIDTH || p % ROOM_WIDTH == 0 || p
        % ROOM_WIDTH == ROOM_WIDTH - 1 {
        BlockTag::Wall
    } else {
        BlockTag::Stone
    }
}

/// The body of an enemy of extents `size` in the middle of the cell `p`.
pub open spec fn body_at(p: int, size: Vector, sw: u32, sh: u32) -> Body {
    Body {
        pos: Vector {
            x: cell_centre(p % (ROOM_WIDTH as int), sw, ROOM_WIDTH as int) as i32,
            y: cell_centre(p / (ROOM_WIDTH as int), sh, ROOM_HEIGHT as int) as i32,
        },
        size,
    }
}

/// An enemy can be put on the cell `p`: the cell is open, and it is not
/// one of those that must stay free, the centre and the cells before the doors.
pub open spec fn can_spawn(grid: Seq<i32>, p: int) -> bool {
    !kept_open(p) && grid[p] >= 0
}

/// The room after an enemy has been tried on the inner cell that the draw
/// picks: where an enemy can be put there, the room has one more, in the
/// middle of that cell; nothing else changes.
pub open spec fn spawned(r: RoomView, d: int, size: Vector, sw: u32, sh: u32) -> RoomView {
    if can_spawn(r.grid, trial_cell(d)) {
        RoomView {
            coords: r.coords,
            grid: r.grid,
            obstacles: r.obstacles,
            enemies: r.enemies.push(body_at(trial_cell(d), size, sw, sh)),
            shots: r.shots,
        }
    } else {
        r
    }
}

/// The room after an enemy has been tried for each of the first `n` draws.
pub open spec fn populated(r: RoomView, draws: Seq<usize>, size: Vector, sw: u32, sh: u32, n: int) -> RoomView
    decreases n,
{
    if n <= 0 {
        r
    } else {
        spawned(populated(r, draws, size, sw, sh, n - 1), draws[n - 1] as int, size, sw, sh)
    }
}

/// The obstacle with its door, if it is one, open or closed as `open` says.
pub open spec fn with_door(o: Obstacle, open: bool) -> Obstacle {
    match o.tag {
        BlockTag::Door { is_open, connects_to } => Obstacle {
            pos: o.pos,
            size: o.size,
            tag: BlockTag::Door { is_open: open, connects_to },
        },
        _ => o,
    }
}

impl Room {
    /// Tries to put an enemy of extents `size` on the inner cell that the
    /// draw picks. The result says whether the room has got one.
    pub fn spawn_enemy(&mut self, d: usize, size: Vector, sw: u32, sh: u32) -> (placed: bool)
        requires
            old(self).grid.wf(),
        ensures
            final(self)@ == spawned(old(self)@, d as int, size, sw, sh),
            placed == can_spawn(old(self).grid@, trial_cell(d as int)),
            final(self).grid.wf(),
    {
        let inner: usize = d % INNER_CELLS;
        let row: usize = 1 + inner / INNER_WIDTH;
        let col: usize = 1 + inner % INNER_WIDTH;
        let c: usize = row * ROOM_WIDTH + col;
        proof {
            lemma_trial_cell(d as int);
        }
        if c == CENTRE_CELL || c == 61 || c == 112 || c == 73 || c == 22 {
            return false;
        }
        if self.grid.is_blocked(row, col) {
            return false;
        }
        let pos: Vector = room_coords_to_pos(row, col, sw, sh);
        self.enemies.push(Body { pos, size });
        true
    }

    /// Puts enemies of extents `size` into the room, with `tries` draws
    /// from the `rand` crate, each for an inner cell. Whatever is drawn,
    /// the room is the one populated by these draws: it has an enemy more
    /// for each draw that picks a cell on which one can be put.
    pub fn populate(&mut self, tries: usize, size: Vector, sw: u32, sh: u32)
        requires
            old(self).grid.wf(),
        ensures
            final(self).grid.wf(),
            exists|draws: Seq<usize>|
                draws.len() == tries && final(self)@ == #[trigger] populated(
                    old(self)@,
                    draws,
                    size,
                    sw,
                    sh,
                    tries as int,
                ),
    {
        let ghost mut draws: Seq<usize> = Seq::empty();
        let mut n: usize = 0;
        while n < tries
            invariant
                n <= tries,
                self.grid.wf(),
                draws.len() == n,
                self@ == populated(old(self)@, draws, size, sw, sh, n as int),
            decreases tries - n,
        {
            let d: usize = random_below(INNER_CELLS);
            proof {
                let more = draws.push(d);
                lemma_populated_prefix(old(self)@, draws, more, size, sw, sh, n as int);
                draws = more;
            }
            self.spawn_enemy(d, size, sw, sh);
            n = n + 1;
        }
    }

    /// Opens or closes every door of the room. Nothing else changes.
    pub fn set_doors(&mut self, open: bool)
        ensures
            final(self).coords == old(self).coords,
            final(self).grid == old(self).grid,
            final(self).enemies == old(self).enemies,
            final(self).shots == old(self).shots,
            final(self).obstacles@.len() == old(self).obstacles@.len(),
            forall|i: int|
                0 <= i < old(self).obstacles@.len() ==> #[trigger] final(self).obstacles@[i]
                    == with_door(old(self).obstacles@[i], open),
    {
        let mut i: usize = 0;
        while i < self.obstacles.len()
            invariant
                i <= self.obstacles.len(),
                self.coords == old(self).coords,
                self.grid == old(self).grid,
                self.enemies == old(self).enemies,
                self.shots == old(self).shots,
                self.obstacles@.len() == old(self).obstacles@.len(),
                forall|j: int|
                    0 <= j < i ==> #[trigger] self.obstacles@[j] == with_door(
                        old(self).obstacles@[j],
                        open,
                    ),
                forall|j: int|
                    i <= j < self.obstacles@.len() ==> #[trigger] self.obstacles@[j] == old(
                        self,
                    ).obstacles@[j],
            decreases self.obstacles.len() - i,
        {
            let o: Obstacle = self.obstacles[i];
            match o.tag {
                BlockTag::Door { is_open, connects_to } => {
                    self.obstacles.set(
                        i,
                        Obstacle {
                            pos: o.pos,
                            size: o.size,
                            tag: BlockTag::Door { is_open: open, connects_to },
                        },
                    );
                },
                _ => {},
            }
            i = i + 1;
        }
    }

    /// The mathematical content of the room.
    pub open spec fn view(&self) -> RoomView {
        RoomView {
            coords: self.coords,
            grid: self.grid@,
            obstacles: self.obstacles@,
            enemies: self.enemies@,
            shots: self.shots@,
        }
    }

    /// Lays out the room at `slot`. Its doors are those that the door
    /// flags give it; its obstacles are tried with the draws from `first`
    /// on. The room has no enemies and no projectiles.
    pub fn generate(
        slot: usize,
        doors: &Vec<bool>,
        draws: &Vec<usize>,
        first: usize,
        sw: u32,
        sh: u32,
    ) -> (room: Room)
        requires
            slot < DUNGEON_SLOTS,
            first <= usize::MAX - OBSTACLE_TRIES,
            doors@.len() == DUNGEON_SIDES,
            forall|k: int| 0 <= k < 4 && #[trigger] doors@[4 * slot + k] ==> slot_has_neighbor(slot as int, k),
        ensures
            room.grid.wf(),
            room@ == room_of(doors@, slot as int, draws@, first as int, sw, sh),
            room.enemies@.len() == 0,
            room.shots@.len() == 0,
            same_walls(room.grid@, walls(draws@, first as int, OBSTACLE_TRIES as int)),
            passable(room@),
    {
        let mut grid: Grid = blank_grid();
        let mut t: usize = 0;
        proof {
            lemma_blank_connected();
        }
        while t < OBSTACLE_TRIES
            invariant
                t <= OBSTACLE_TRIES,
                first <= usize::MAX - OBSTACLE_TRIES,
                grid.wf(),
                is_grid(walls(draws@, first as int, t as int)),
                same_walls(grid@, walls(draws@, first as int, t as int)),
                connected_through(walls(draws@, first as int, t as int), CENTRE_CELL as int),
            decreases OBSTACLE_TRIES - t,
        {
            let d: usize = if first + t < draws.len() { draws[first + t] } else { 0 };
            let ghost before = grid@;
            let ghost w = walls(draws@, first as int, t as int);
            try_obstacle(&mut grid, d);
            proof {
                assert(is_grid(before));
                lemma_tried_respects_walls(before, w, d as int);
                assert(d == draw(draws@, first + t));
                assert(walls(draws@, first as int, t + 1) == tried(w, d as int));
                lemma_same_walls_chain(grid@, tried(before, d as int), tried(w, d as int));
            }
            t = t + 1;
        }
        let ghost w = walls(draws@, first as int, OBSTACLE_TRIES as int);
        grid.flood_fill(ROOM_HEIGHT / 2, ROOM_WIDTH / 2);
        proof {
            let f = field_of(w, CENTRE_CELL as int);
            assert(is_field(grid@, CENTRE_CELL as int) && same_walls(grid@, w));
            assert(is_field(f, CENTRE_CELL as int) && same_walls(f, w));
            lemma_same_walls_chain(grid@, w, f);
            lemma_field_unique(grid@, f, CENTRE_CELL as int);
            lemma_connection_respects_walls(w, grid@);
            lemma_walls_passable(draws@, first as int, OBSTACLE_TRIES as int);
            assert forall|p: int| kept_open(p) implies #[trigger] grid@[p] >= 0 by {
                assert(is_cell(p));
                assert(w[p] >= 0);
                assert(grid@[p] >= BLOCKED);
            }
            assert forall|p: int| is_cell(p) && on_border(p) implies #[trigger] grid@[p]
                == BLOCKED by {
                assert(w[p] == BLOCKED);
            }
        }
        let ghost field = grid@;
        let size: Vector = cell_size(sw, sh);
        let mut obstacles: Vec<Obstacle> = Vec::new();
        let mut p: usize = 0;
        while p < ROOM_CELLS
            invariant
                p <= ROOM_CELLS,
                slot < DUNGEON_SLOTS,
                doors@.len() == DUNGEON_SIDES,
                forall|k: int|
                    0 <= k < 4 && #[trigger] doors@[4 * slot + k] ==> slot_has_neighbor(
                        slot as int,
                        k,
                    ),
                grid.wf(),
                grid@ == field,
                is_grid(w),
                same_walls(grid@, w),
                size.x == cell_extent(sw, ROOM_WIDTH as int),
                size.y == cell_extent(sh, ROOM_HEIGHT as int),
                obstacles@ == blocks(w, doors@, slot as int, sw, sh, p as int),
            decreases ROOM_CELLS - p,
        {
            let row: usize = p / ROOM_WIDTH;
            let col: usize = p % ROOM_WIDTH;
            assert(is_cell(p as int));
            assert(grid@[p as int] >= BLOCKED && w[p as int] >= BLOCKED);
            if grid.is_blocked(row, col) {
                let pos: Vector = room_coords_to_pos(row, col, sw, sh);
                let tag: BlockTag = tag_of(doors, slot, p);
                obstacles.push(Obstacle { pos, size, tag });
            }
            p = p + 1;
        }
        Room {
            coords: slot_coords(slot),
            grid,
            obstacles,
            enemies: Vec::new(),
            shots: Vec::new(),
        }
    }
}

/// What the first draws do to a room does not depend on the draws after them.
proof fn lemma_populated_prefix(
    r: RoomView,
    a: Seq<usize>,
    b: Seq<usize>,
    size: Vector,
    sw: u32,
    sh: u32,
    n: int,
)
    requires
        0 <= n <= a.len() <= b.len(),
        forall|i: int| 0 <= i < n ==> a[i] == b[i],
    ensures
        populated(r, a, size, sw, sh, n) == populated(r, b, size, sw, sh, n),
    decreases n,
{
    if n > 0 {
        lemma_populated_prefix(r, a, b, size, sw, sh, n - 1);
    }
}

/// In an empty room every open cell is joined to the centre.
proof fn lemma_blank_connected()
    ensures
        is_grid(blank()),
        connected_through(blank(), CENTRE_CELL as int),
{
    let g = blank();
    assert forall|p: int| is_cell(p) && #[trigger] g[p] >= 0 implies exists|w: Seq<int>|
        #[trigger] is_walk(g, w) && w[0] == p && w.last() == CENTRE_CELL as int by {
        lemma_blank_walk(p);
    }
}

/// A walk from an inner cell of an empty room to the centre: along the
/// row to the centre's column, and along that column to the centre.
proof fn lemma_blank_walk(p: int)
    requires
        is_cell(p),
        !on_border(p),
    ensures
        exists|w: Seq<int>| #[trigger] is_walk(blank(), w) && w[0] == p && w.last() == CENTRE_CELL as int,
    decreases
        (if p % (ROOM_WIDTH as int) >= 7 { p % (ROOM_WIDTH as int) - 7 } else { 7 - p % (ROOM_WIDTH as int) })
            + (if p / (ROOM_WIDTH as int) >= 4 { p / (ROOM_WIDTH as int) - 4 } else { 4 - p / (ROOM_WIDTH as int) }),
{
    let g = blank();
    let col = p % (ROOM_WIDTH as int);
    let row = p / (ROOM_WIDTH as int);
    if p == CENTRE_CELL {
        let w = seq![p];
        assert(is_walk(g, w));
        assert(w[0] == p && w.last() == CENTRE_CELL as int);
    } else {
        let (q, k) = if col > 7 {
            (p - 1, 2int)
        } else if col < 7 {
            (p + 1, 0int)
        } else if row > 4 {
            (p - ROOM_WIDTH, 1int)
        } else {
            (p + ROOM_WIDTH, 3int)
        };
        assert(is_cell(q) && !on_border(q));
        lemma_blank_walk(q);
        let rest = choose|w: Seq<int>| #[trigger] is_walk(g, w) && w[0] == q && w.last() == CENTRE_CELL as int;
        let w = seq![p].add(rest);
        assert(crate::grid::has_neighbor(q, k) && crate::grid::neighbor(q, k) == p);
        assert forall|i: int| 0 <= i < w.len() implies is_cell(#[trigger] w[i]) && g[w[i]] >= 0 by {
            if i > 0 {
                assert(w[i] == rest[i - 1]);
            }
        }
        assert forall|i: int| 0 <= i < w.len() - 1 implies crate::grid::adjacent(
            w[i + 1],
            #[trigger] w[i],
        ) by {
            if i == 0 {
                assert(w[1] == rest[0]);
            } else {
                assert(w[i] == rest[i - 1] && w[i + 1] == rest[i]);
                assert(crate::grid::adjacent(rest[i], rest[i - 1]));
            }
        }
        assert(is_walk(g, w));
        assert(w[0] == p && w.last() == rest.last());
    }
}

} // verus!
