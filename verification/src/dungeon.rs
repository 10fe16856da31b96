//! The dungeon: the rooms that the generator lays out along the room
//! graph, and the door edges that connect them.

use vstd::prelude::*;
use crate::entities::{BlockTag, Coords, Obstacle};
use crate::grid::{BLOCKED, ROOM_CELLS};
use crate::navigation::is_grid;
use crate::plan::{
    facing_side, is_slot, lemma_after_wf, lemma_slot_neighbor_back, slot_has_neighbor,
    slot_neighbor, Plan, PlanView, GROWTH_DRAWS, START_SLOT, TARGET_ROOMS,
};
use crate::random::random_below;
use crate::room::{
    block_at, blocks, coords_of, door_cell, door_side, on_border, passable, room_of,
    slot_coords, walls, Room, RoomView, OBSTACLE_TRIES,
};

verus! {

/// Number of draws that the generation of a dungeon consumes: those of
/// the graph's growth, and those of the obstacle tries of each room.
pub const DRAWS_NEEDED: usize = 124;

/// The draws are taken from `0..DRAW_RANGE`.
pub const DRAW_RANGE: usize = 1048576;

/// What a dungeon cannot do.
#[derive(Clone, Copy, Debug, PartialEq, Eq, Structural)]
pub enum DungeonError {
    /// The dungeon has no room at the requested coordinate.
    RoomNotFound,
}

/// The obstacle is a door to the room at `c`, open or closed.
pub open spec fn is_door_to(o: Obstacle, c: Coords) -> bool {
    match o.tag {
        BlockTag::Door { is_open, connects_to } => connects_to == c,
        _ => false,
    }
}

/// The room `a` has a door to the room `b`.
pub open spec fn door_leads(rooms: Seq<RoomView>, a: int, b: int) -> bool {
    exists|j: int|
        0 <= j < rooms[a].obstacles.len() && is_door_to(
            #[trigger] rooms[a].obstacles[j],
            rooms[b].coords,
        )
}

/// The room `b` is reached from the first room, the start room, through
/// at most `n` doors.
pub open spec fn reach(rooms: Seq<RoomView>, b: int, n: nat) -> bool
    decreases n,
{
    if n == 0 {
        b == 0
    } else {
        reach(rooms, b, (n - 1) as nat) || exists|a: int|
            0 <= a < rooms.len() && reach(rooms, a, (n - 1) as nat) && #[trigger] door_leads(
                rooms,
                a,
                b,
            )
    }
}

/// Connectivity: every room is reached from the start room over door
/// edges. No more doors are needed than there are rooms.
pub open spec fn connected(rooms: Seq<RoomView>) -> bool {
    forall|b: int| 0 <= b < rooms.len() ==> #[trigger] reach(rooms, b, rooms.len())
}

/// The draws for the obstacles of the `i`-th room start here.
pub open spec fn first_draw(i: int) -> int {
    GROWTH_DRAWS + i * OBSTACLE_TRIES
}

/// The rooms that the generator lays out for the given draws and screen:
/// one for each room of the graph grown by the draws, in the order of
/// creation.
pub open spec fn layout(draws: Seq<usize>, sw: u32, sh: u32) -> Seq<RoomView> {
    let plan = PlanView::after(draws, GROWTH_DRAWS as int);
    Seq::new(
        plan.slots.len(),
        |i: int| room_of(plan.doors, plan.slots[i] as int, draws, first_draw(i), sw, sh),
    )
}

/// The border of a room stays blocked, whatever obstacles are tried.
proof fn lemma_walls_keep_border(draws: Seq<usize>, first: int, n: int, p: int)
    requires
        0 <= p < ROOM_CELLS,
        on_border(p),
    ensures
        walls(draws, first, n).len() == ROOM_CELLS,
        walls(draws, first, n)[p] == BLOCKED,
    decreases n,
{
    if n > 0 {
        lemma_walls_keep_border(draws, first, n - 1, p);
    }
}

/// The obstacle on a blocked cell is among the obstacles of the room.
proof fn lemma_blocks_hold(g: Seq<i32>, doors: Seq<bool>, slot: int, sw: u32, sh: u32, n: int, p: int)
    requires
        0 <= p < n,
        g[p] == BLOCKED,
    ensures
        blocks(g, doors, slot, sw, sh, n).contains(block_at(doors, slot, p, sw, sh)),
    decreases n,
{
    let s = blocks(g, doors, slot, sw, sh, n);
    if p == n - 1 {
        assert(s[s.len() - 1] == block_at(doors, slot, p, sw, sh));
    } else {
        lemma_blocks_hold(g, doors, slot, sw, sh, n - 1, p);
        let t = blocks(g, doors, slot, sw, sh, n - 1);
        let j = choose|j: int| 0 <= j < t.len() && t[j] == block_at(doors, slot, p, sw, sh);
        assert(s[j] == t[j]);
    }
}

/// A room with a door flag on side `k` has a door to its neighbor on that side.
proof fn lemma_room_has_door(doors: Seq<bool>, slot: int, k: int, draws: Seq<usize>, first: int, sw: u32, sh: u32)
    requires
        0 <= k < 4,
        doors[4 * slot + k],
    ensures
        exists|j: int|
            0 <= j < room_of(doors, slot, draws, first, sw, sh).obstacles.len() && is_door_to(
                #[trigger] room_of(doors, slot, draws, first, sw, sh).obstacles[j],
                coords_of(slot_neighbor(slot, k)),
            ),
{
    let g = walls(draws, first, OBSTACLE_TRIES as int);
    let p = door_cell(k);
    lemma_walls_keep_border(draws, first, OBSTACLE_TRIES as int, p);
    lemma_blocks_hold(g, doors, slot, sw, sh, ROOM_CELLS as int, p);
    let obs = room_of(doors, slot, draws, first, sw, sh).obstacles;
    let o = block_at(doors, slot, p, sw, sh);
    assert(door_side(doors, slot, p) == Some(k));
    let j = choose|j: int| 0 <= j < obs.len() && obs[j] == o;
    assert(is_door_to(obs[j], coords_of(slot_neighbor(slot, k))));
}

/// What is reached through `n` doors is reached through more.
proof fn lemma_reach_grows(rooms: Seq<RoomView>, b: int, n: nat, m: nat)
    requires
        reach(rooms, b, n),
        n <= m,
    ensures
        reach(rooms, b, m),
    decreases m,
{
    if n < m {
        lemma_reach_grows(rooms, b, n, (m - 1) as nat);
    }
}

/// A door from a room that is reached leads to a room that is reached
/// through one door more.
proof fn lemma_reach_step(rooms: Seq<RoomView>, a: int, b: int, n: nat)
    requires
        n > 0,
        0 <= a < rooms.len(),
        reach(rooms, a, (n - 1) as nat),
        door_leads(rooms, a, b),
    ensures
        reach(rooms, b, n),
{
}

/// In the generator's layout, each room is reached through no more doors
/// than rooms were created before it.
proof fn lemma_layout_reach(draws: Seq<usize>, sw: u32, sh: u32, i: int)
    requires
        0 <= i < layout(draws, sw, sh).len(),
    ensures
        reach(layout(draws, sw, sh), i, i as nat),
    decreases i,
{
    let plan = PlanView::after(draws, GROWTH_DRAWS as int);
    let rooms = layout(draws, sw, sh);
    lemma_after_wf(draws, GROWTH_DRAWS as int);
    if i > 0 {
        assert(plan.attached(i));
        let p = plan.parents[i] as int;
        lemma_layout_reach(draws, sw, sh, p);
        lemma_reach_grows(rooms, p, p as nat, (i - 1) as nat);
        let k = choose|k: int|
            0 <= k < 4 && #[trigger] slot_has_neighbor(plan.slots[p] as int, k) && slot_neighbor(
                plan.slots[p] as int,
                k,
            ) == plan.slots[i] && plan.doors[4 * plan.slots[p] + k] && plan.doors[4 * plan.slots[i]
                + facing_side(k)];
        lemma_room_has_door(plan.doors, plan.slots[p] as int, k, draws, first_draw(p), sw, sh);
        assert(rooms[p] == room_of(plan.doors, plan.slots[p] as int, draws, first_draw(p), sw, sh));
        assert(rooms[i].coords == coords_of(plan.slots[i] as int));
        assert(door_leads(rooms, p, i));
        let n = i as nat;
        assert(0 <= p < rooms.len() && reach(rooms, p, (n - 1) as nat));
        lemma_reach_step(rooms, p, i, n);
    }
}

/// Connectivity of what the generator lays out: whatever the draws, every
/// room is reached from the start room over door edges.
pub proof fn lemma_layout_connected(draws: Seq<usize>, sw: u32, sh: u32)
    ensures
        connected(layout(draws, sw, sh)),
        1 <= layout(draws, sw, sh).len() <= TARGET_ROOMS,
        layout(draws, sw, sh)[0].coords == coords_of(START_SLOT as int),
{
    let rooms = layout(draws, sw, sh);
    lemma_after_wf(draws, GROWTH_DRAWS as int);
    assert forall|b: int| 0 <= b < rooms.len() implies #[trigger] reach(rooms, b, rooms.len()) by {
        lemma_layout_reach(draws, sw, sh, b);
        lemma_reach_grows(rooms, b, b as nat, rooms.len());
    }
}

/// Each obstacle of a room stands on a blocked cell.
proof fn lemma_blocks_come_from_cells(
    g: Seq<i32>,
    doors: Seq<bool>,
    slot: int,
    sw: u32,
    sh: u32,
    n: int,
    j: int,
)
    requires
        0 <= j < blocks(g, doors, slot, sw, sh, n).len(),
    ensures
        exists|p: int|
            0 <= p < n && g[p] == BLOCKED && blocks(g, doors, slot, sw, sh, n)[j] == #[trigger] block_at(
                doors,
                slot,
                p,
                sw,
                sh,
            ),
    decreases n,
{
    if n > 0 {
        let before = blocks(g, doors, slot, sw, sh, n - 1);
        if j < before.len() {
            lemma_blocks_come_from_cells(g, doors, slot, sw, sh, n - 1, j);
            let p = choose|p: int|
                0 <= p < n - 1 && g[p] == BLOCKED && before[j] == #[trigger] block_at(
                    doors,
                    slot,
                    p,
                    sw,
                    sh,
                );
            assert(blocks(g, doors, slot, sw, sh, n)[j] == block_at(doors, slot, p, sw, sh));
        } else {
            assert(blocks(g, doors, slot, sw, sh, n)[j] == block_at(doors, slot, n - 1, sw, sh));
        }
    }
}

/// Doors come in pairs: in the generator's layout a door of a room leads
/// to a room of the dungeon, and that room has a door that leads back.
pub proof fn lemma_layout_doors_paired(draws: Seq<usize>, sw: u32, sh: u32, a: int, j: int)
    requires
        0 <= a < layout(draws, sw, sh).len(),
        0 <= j < layout(draws, sw, sh)[a].obstacles.len(),
        layout(draws, sw, sh)[a].obstacles[j].tag is Door,
    ensures
        exists|b: int|
            0 <= b < layout(draws, sw, sh).len() && is_door_to(
                layout(draws, sw, sh)[a].obstacles[j],
                layout(draws, sw, sh)[b].coords,
            ) && #[trigger] door_leads(layout(draws, sw, sh), b, a),
{
    let plan = PlanView::after(draws, GROWTH_DRAWS as int);
    let rooms = layout(draws, sw, sh);
    lemma_after_wf(draws, GROWTH_DRAWS as int);
    let slot = plan.slots[a] as int;
    let g = walls(draws, first_draw(a), OBSTACLE_TRIES as int);
    let o = rooms[a].obstacles[j];
    lemma_blocks_come_from_cells(g, plan.doors, slot, sw, sh, ROOM_CELLS as int, j);
    let p = choose|p: int|
        0 <= p < ROOM_CELLS && g[p] == BLOCKED && o == #[trigger] block_at(
            plan.doors,
            slot,
            p,
            sw,
            sh,
        );
    let k = door_side(plan.doors, slot, p)->0;
    assert(door_side(plan.doors, slot, p) is Some);
    assert(0 <= k < 4 && plan.doors[4 * slot + k]);
    assert(is_slot(slot));
    let other = slot_neighbor(slot, k);
    lemma_slot_neighbor_back(slot, k);
    let b = choose|b: int| 0 <= b < plan.slots.len() && plan.slots[b] == other as usize;
    assert(rooms[b].coords == coords_of(other));
    assert(is_door_to(o, rooms[b].coords));
    assert(plan.doors[4 * other + facing_side(k)]);
    lemma_room_has_door(plan.doors, other, facing_side(k), draws, first_draw(b), sw, sh);
    assert(rooms[b] == room_of(plan.doors, other, draws, first_draw(b), sw, sh));
    assert(rooms[a].coords == coords_of(slot));
    assert(door_leads(rooms, b, a));
}

/// Determinism: two dungeons laid out for the same draws and the same
/// screen have the same number of rooms, and room by room the same
/// coordinate, the same obstacles, doors among them, the same grid, and
/// the same enemies and projectiles, which is none.
pub proof fn lemma_same_draws_same_dungeon(
    a: Seq<RoomView>,
    b: Seq<RoomView>,
    draws: Seq<usize>,
    sw: u32,
    sh: u32,
)
    requires
        a == layout(draws, sw, sh),
        b == layout(draws, sw, sh),
    ensures
        a.len() == b.len(),
        forall|i: int|
            0 <= i < a.len() ==> (#[trigger] a[i]).coords == b[i].coords && a[i].obstacles
                == b[i].obstacles && a[i].grid == b[i].grid && a[i].enemies == b[i].enemies
                && a[i].shots == b[i].shots,
{
}

/// The room holds no enemy and no projectile.
pub open spec fn deserted(r: RoomView) -> bool {
    r.enemies.len() == 0 && r.shots.len() == 0
}

/// A dungeon: its rooms in the order of their creation, the start room first.
pub struct Dungeon {
    rooms: Vec<Room>,
}

/// Whether the obstacle is a door to the room at `c`.
fn leads_to_room(o: &Obstacle, c: Coords) -> (b: bool)
    ensures
        b == is_door_to(*o, c),
{
    match o.tag {
        BlockTag::Door { is_open, connects_to } => connects_to.row == c.row && connects_to.col
            == c.col,
        _ => false,
    }
}

/// Whether the room has a door to the room at `c`.
fn has_door_to(room: &Room, c: Coords) -> (b: bool)
    ensures
        b == exists|j: int|
            0 <= j < room@.obstacles.len() && is_door_to(#[trigger] room@.obstacles[j], c),
{
    let mut j: usize = 0;
    while j < room.obstacles.len()
        invariant
            j <= room.obstacles.len(),
            forall|i: int| 0 <= i < j ==> !is_door_to(#[trigger] room@.obstacles[i], c),
        decreases room.obstacles.len() - j,
    {
        if leads_to_room(&room.obstacles[j], c) {
            assert(is_door_to(room@.obstacles[j as int], c));
            return true;
        }
        j = j + 1;
    }
    false
}

impl Dungeon {
    /// The content of each room, in the order of creation.
    pub closed spec fn view(&self) -> Seq<RoomView> {
        Seq::new(self.rooms@.len(), |i: int| self.rooms@[i]@)
    }

    /// The dungeon has a start room, the first, rooms with well-formed
    /// grids, and no two rooms at one coordinate.
    pub open spec fn wf(&self) -> bool {
        &&& 1 <= self@.len() <= TARGET_ROOMS
        &&& self@[0].coords == coords_of(START_SLOT as int)
        &&& forall|i: int| 0 <= i < self@.len() ==> is_grid((#[trigger] self@[i]).grid)
        &&& forall|i: int, j: int|
            0 <= i < j < self@.len() ==> (#[trigger] self@[i]).coords != (#[trigger] self@[j]).coords
    }

    /// The dungeon has a room at `c`.
    pub open spec fn has_room(&self, c: Coords) -> bool {
        exists|i: int| 0 <= i < self@.len() && (#[trigger] self@[i]).coords == c
    }

    /// The coordinate of the start room.
    pub fn get_start_room_coords() -> (c: Coords)
        ensures
            c == coords_of(START_SLOT as int),
            c == (Coords { row: 3, col: 3 }),
    {
        slot_coords(START_SLOT)
    }

    /// Number of rooms.
    pub fn room_count(&self) -> (n: usize)
        ensures
            n == self@.len(),
    {
        self.rooms.len()
    }

    /// The coordinate of the `i`-th room in the order of creation.
    pub fn room_coords(&self, i: usize) -> (c: Coords)
        requires
            i < self@.len(),
        ensures
            c == self@[i as int].coords,
    {
        self.rooms[i].coords
    }

    /// The index of the room at `c`, if there is one.
    fn find(&self, c: Coords) -> (r: Option<usize>)
        ensures
            match r {
                Some(i) => i < self.rooms@.len() && self.rooms@[i as int].coords == c,
                None => !self.has_room(c),
            },
    {
        let mut i: usize = 0;
        while i < self.rooms.len()
            invariant
                i <= self.rooms.len(),
                forall|j: int| 0 <= j < i ==> (#[trigger] self.rooms@[j]).coords != c,
            decreases self.rooms.len() - i,
        {
            if self.rooms[i].coords.row == c.row && self.rooms[i].coords.col == c.col {
                return Some(i);
            }
            i = i + 1;
        }
        assert forall|j: int| 0 <= j < self@.len() implies (#[trigger] self@[j]).coords != c by {
            assert(self.rooms@[j].coords != c);
        }
        None
    }

    /// The room at the coordinate `c`; `RoomNotFound` if the dungeon has
    /// no room there.
    pub fn get_room(&self, c: Coords) -> (r: Result<&Room, DungeonError>)
        ensures
            r is Ok <==> self.has_room(c),
            r is Ok ==> r->Ok_0.coords == c && self@.contains(r->Ok_0@),
            r is Err ==> r->Err_0 == DungeonError::RoomNotFound,
            self.wf() && r is Ok ==> r->Ok_0.grid.wf(),
    {
        match self.find(c) {
            Some(i) => {
                assert(self@[i as int] == self.rooms@[i as int]@);
                assert(self.wf() ==> is_grid(self@[i as int].grid));
                Ok(&self.rooms[i])
            },
            None => Err(DungeonError::RoomNotFound),
        }
    }

    /// The room at the coordinate `c`, to be changed; `RoomNotFound` if
    /// the dungeon has no room there. Whatever is done to the room, every
    /// room at another coordinate keeps its grid, obstacles, enemies and
    /// projectiles.
    pub fn get_room_mut(&mut self, c: Coords) -> (r: Result<&mut Room, DungeonError>)
        ensures
            r is Ok <==> old(self).has_room(c),
            r is Ok ==> exists|i: int|
                0 <= i < old(self)@.len() && #[trigger] old(self)@[i] == r->Ok_0@ && r->Ok_0.coords
                    == c && final(self)@ == old(self)@.update(i, final(r->Ok_0)@),
            r is Ok ==> final(self)@.len() == old(self)@.len() && forall|j: int|
                0 <= j < old(self)@.len() && (#[trigger] old(self)@[j]).coords != c
                    ==> final(self)@[j] == old(self)@[j],
            r is Err ==> r->Err_0 == DungeonError::RoomNotFound && final(self)@ == old(self)@,
    {
        match self.find(c) {
            Some(i) => {
                assert(old(self)@[i as int] == self.rooms@[i as int]@);
                Ok(&mut self.rooms[i])
            },
            None => Err(DungeonError::RoomNotFound),
        }
    }

    /// Which rooms are reached through one door more than those marked in `marks`.
    fn spread(&self, marks: &Vec<bool>, Ghost(n): Ghost<nat>) -> (next: Vec<bool>)
        requires
            marks@.len() == self@.len(),
            forall|b: int| 0 <= b < self@.len() ==> #[trigger] marks@[b] == reach(self@, b, n),
        ensures
            next@.len() == self@.len(),
            forall|b: int|
                0 <= b < self@.len() ==> #[trigger] next@[b] == reach(self@, b, (n + 1) as nat),
    {
        let mut next: Vec<bool> = Vec::new();
        let mut b: usize = 0;
        while b < self.rooms.len()
            invariant
                b <= self.rooms.len(),
                marks@.len() == self@.len(),
                self@.len() == self.rooms@.len(),
                forall|c: int| 0 <= c < self@.len() ==> #[trigger] marks@[c] == reach(self@, c, n),
                next@.len() == b,
                forall|c: int| 0 <= c < b ==> #[trigger] next@[c] == reach(self@, c, (n + 1) as nat),
            decreases self.rooms.len() - b,
        {
            let mut found: bool = marks[b];
            let target: Coords = self.rooms[b].coords;
            let mut a: usize = 0;
            while a < self.rooms.len() && !found
                invariant
                    a <= self.rooms.len(),
                    b < self.rooms.len(),
                    marks@.len() == self@.len(),
                    self@.len() == self.rooms@.len(),
                    target == self@[b as int].coords,
                    forall|c: int|
                        0 <= c < self@.len() ==> #[trigger] marks@[c] == reach(self@, c, n),
                    found ==> reach(self@, b as int, (n + 1) as nat),
                    !found ==> !reach(self@, b as int, n) && forall|c: int|
                        0 <= c < a ==> !(reach(self@, c, n) && #[trigger] door_leads(
                            self@,
                            c,
                            b as int,
                        )),
                decreases self.rooms.len() - a,
            {
                if marks[a] {
                    assert(self@[a as int] == self.rooms@[a as int]@);
                    if has_door_to(&self.rooms[a], target) {
                        assert(door_leads(self@, a as int, b as int));
                        found = true;
                    }
                }
                a = a + 1;
            }
            next.push(found);
            b = b + 1;
        }
        next
    }

    /// Tests the connectivity invariant: whether every room is
    /// reached from the start room over door edges.
    pub fn is_connected(&self) -> (b: bool)
        ensures
            b == connected(self@),
    {
        let count: usize = self.rooms.len();
        let mut marks: Vec<bool> = Vec::new();
        let mut i: usize = 0;
        while i < count
            invariant
                i <= count,
                count == self@.len(),
                marks@.len() == i,
                forall|b: int| 0 <= b < i ==> #[trigger] marks@[b] == reach(self@, b, 0),
            decreases count - i,
        {
            marks.push(i == 0);
            i = i + 1;
        }
        let mut round: usize = 0;
        while round < count
            invariant
                round <= count,
                count == self@.len(),
                marks@.len() == count,
                forall|b: int|
                    0 <= b < count ==> #[trigger] marks@[b] == reach(self@, b, round as nat),
            decreases count - round,
        {
            marks = self.spread(&marks, Ghost(round as nat));
            round = round + 1;
        }
        let mut b: usize = 0;
        while b < count
            invariant
                b <= count,
                count == self@.len(),
                marks@.len() == count,
                forall|c: int|
                    0 <= c < count ==> #[trigger] marks@[c] == reach(self@, c, count as nat),
                forall|c: int| 0 <= c < b ==> reach(self@, c, count as nat),
            decreases count - b,
        {
            if !marks[b] {
                assert(!reach(self@, b as int, self@.len()));
                return false;
            }
            b = b + 1;
        }
        true
    }

    /// Lays out the dungeon for the given draws and screen: the room graph
    /// is grown by the first draws, and each room of it is laid out with
    /// draws of its own. The same draws and screen give the same dungeon.
    pub fn generate_from(draws: &Vec<usize>, sw: u32, sh: u32) -> (dungeon: Dungeon)
        ensures
            dungeon@ == layout(draws@, sw, sh),
            dungeon.wf(),
            dungeon.has_room(coords_of(START_SLOT as int)),
            connected(dungeon@),
            forall|i: int|
                0 <= i < dungeon@.len() ==> passable(#[trigger] dungeon@[i]) && deserted(
                    dungeon@[i],
                ),
    {
        let plan: Plan = Plan::build(draws);
        let mut rooms: Vec<Room> = Vec::new();
        let mut i: usize = 0;
        while i < plan.slots.len()
            invariant
                i <= plan.slots.len(),
                plan.inv(),
                plan@ == PlanView::after(draws@, GROWTH_DRAWS as int),
                rooms@.len() == i,
                forall|j: int|
                    0 <= j < i ==> (#[trigger] rooms@[j])@ == room_of(
                        plan@.doors,
                        plan@.slots[j] as int,
                        draws@,
                        first_draw(j),
                        sw,
                        sh,
                    ) && rooms@[j].grid.wf() && passable(rooms@[j]@),
            decreases plan.slots.len() - i,
        {
            let slot: usize = plan.slots[i];
            assert(is_slot(plan@.slots[i as int] as int));
            assert forall|k: int| 0 <= k < 4 && #[trigger] plan.doors@[4 * slot + k] implies slot_has_neighbor(
                slot as int,
                k,
            ) by {
                assert(plan@.doors[4 * (slot as int) + k]);
            }
            let room: Room = Room::generate(
                slot,
                &plan.doors,
                draws,
                GROWTH_DRAWS + i * OBSTACLE_TRIES,
                sw,
                sh,
            );
            rooms.push(room);
            i = i + 1;
        }
        let dungeon = Dungeon { rooms };
        proof {
            lemma_layout_connected(draws@, sw, sh);
            assert(dungeon@ =~= layout(draws@, sw, sh));
            assert forall|a: int, b: int| 0 <= a < b < dungeon@.len() implies (
            #[trigger] dungeon@[a]).coords != (#[trigger] dungeon@[b]).coords by {
                assert(dungeon.rooms@[a]@.coords == coords_of(plan@.slots[a] as int));
                assert(dungeon.rooms@[b]@.coords == coords_of(plan@.slots[b] as int));
                assert(plan@.slots[a] != plan@.slots[b]);
                assert(is_slot(plan@.slots[a] as int) && is_slot(plan@.slots[b] as int));
            }
            assert forall|a: int| 0 <= a < dungeon@.len() implies is_grid(
                (#[trigger] dungeon@[a]).grid,
            ) by {
                assert(dungeon.rooms@[a].grid.wf());
            }
            assert(dungeon.rooms@[0]@.coords == coords_of(plan@.slots[0] as int));
            assert(dungeon@[0].coords == coords_of(START_SLOT as int));
        }
        dungeon
    }

    /// Generates a dungeon for a screen of the given width and height,
    /// with draws from the `rand` crate. Whatever is drawn, the dungeon is
    /// the layout for these draws, and it is connected.
    pub fn generate_dungeon(screen: (u32, u32)) -> (dungeon: Dungeon)
        ensures
            exists|draws: Seq<usize>| dungeon@ == #[trigger] layout(draws, screen.0, screen.1),
            dungeon.wf(),
            dungeon.has_room(coords_of(START_SLOT as int)),
            connected(dungeon@),
            forall|i: int|
                0 <= i < dungeon@.len() ==> passable(#[trigger] dungeon@[i]) && deserted(
                    dungeon@[i],
                ),
    {
        let mut draws: Vec<usize> = Vec::new();
        let mut n: usize = 0;
        while n < DRAWS_NEEDED
            invariant
                n <= DRAWS_NEEDED,
            decreases DRAWS_NEEDED - n,
        {
            draws.push(random_below(DRAW_RANGE));
            n = n + 1;
        }
        let dungeon: Dungeon = Dungeon::generate_from(&draws, screen.0, screen.1);
        assert(dungeon@ == layout(draws@, screen.0, screen.1));
        dungeon
    }
}

} // verus!
