//! The room graph of a dungeon: which coordinates hold a room and which
//! neighboring rooms a door pair connects. The graph is grown from the
//! start room, one room at a time, each new room next to an earlier one.

use vstd::prelude::*;

verus! {

/// Number of room columns in the dungeon's coordinate space.
pub const DUNGEON_WIDTH: usize = 7;

/// Number of room rows in the dungeon's coordinate space.
pub const DUNGEON_HEIGHT: usize = 7;

/// Number of room coordinates.
pub const DUNGEON_SLOTS: usize = 49;

/// Number of door flags: one for each side of each coordinate.
pub const DUNGEON_SIDES: usize = 196;

/// The coordinate of the start room, row `3`, column `3`, as a slot.
pub const START_SLOT: usize = 24;

/// Number of rooms at which the growth stops.
pub const TARGET_ROOMS: usize = 10;

/// Number of draws that the growth of the graph consumes.
pub const GROWTH_DRAWS: usize = 64;

/// `s` is a room coordinate: row `s / DUNGEON_WIDTH`, column `s % DUNGEON_WIDTH`.
pub open spec fn is_slot(s: int) -> bool {
    0 <= s < DUNGEON_SLOTS
}

/// The coordinate `s` has a neighbor on side `k`: 0 is west, 1 south, 2
/// east, 3 north.
pub open spec fn slot_has_neighbor(s: int, k: int) -> bool {
    is_slot(s) && if k == 0 {
        s % (DUNGEON_WIDTH as int) > 0
    } else if k == 1 {
        s + DUNGEON_WIDTH < DUNGEON_SLOTS
    } else if k == 2 {
        s % (DUNGEON_WIDTH as int) < DUNGEON_WIDTH - 1
    } else if k == 3 {
        s >= DUNGEON_WIDTH
    } else {
        false
    }
}

/// The neighbor of the coordinate `s` on side `k`.
pub open spec fn slot_neighbor(s: int, k: int) -> int {
    if k == 0 {
        s - 1
    } else if k == 1 {
        s + DUNGEON_WIDTH
    } else if k == 2 {
        s + 1
    } else {
        s - DUNGEON_WIDTH
    }
}

/// The side that faces back: west and east, south and north.
pub open spec fn facing_side(k: int) -> int {
    if k < 2 {
        k + 2
    } else {
        k - 2
    }
}

/// The `n`-th draw; zero where the draws run out.
pub open spec fn draw(draws: Seq<usize>, n: int) -> int {
    if 0 <= n < draws.len() {
        draws[n] as int
    } else {
        0
    }
}

/// A room graph.
pub struct Plan {
    /// The coordinates that hold a room, in the order of creation; the
    /// first is the start room.
    pub slots: Vec<usize>,
    /// For each room, the index in `slots` of the room that it was
    /// attached to; the start room names itself.
    pub parents: Vec<usize>,
    /// For each coordinate, whether it holds a room.
    pub taken: Vec<bool>,
    /// For each side of each coordinate, at `4 * slot + side`, whether
    /// there is a door.
    pub doors: Vec<bool>,
}

/// The mathematical content of a room graph.
pub struct PlanView {
    pub slots: Seq<usize>,
    pub parents: Seq<usize>,
    pub doors: Seq<bool>,
}

impl PlanView {
    /// The graph of the start room alone.
    pub open spec fn initial() -> PlanView {
        PlanView {
            slots: seq![START_SLOT],
            parents: seq![0usize],
            doors: Seq::new(DUNGEON_SIDES as nat, |i: int| false),
        }
    }

    /// The room that a draw picks for expansion.
    pub open spec fn picked(self, d: int) -> int {
        (d / 4) % (self.slots.len() as int)
    }

    /// The draw `d` is accepted: the graph has not reached its size, and
    /// the room that the draw picks has, on the side that the draw picks,
    /// a neighboring coordinate that holds no room yet.
    pub open spec fn accepts(self, d: int) -> bool {
        let from = self.slots[self.picked(d)] as int;
        &&& self.slots.len() < TARGET_ROOMS
        &&& slot_has_neighbor(from, d % 4)
        &&& !self.slots.contains(slot_neighbor(from, d % 4) as usize)
    }

    /// The graph after the draw `d`: an accepted draw adds the room and
    /// the pair of doors between it and the room it is attached to; any
    /// other draw changes nothing.
    pub open spec fn grown(self, d: int) -> PlanView {
        if self.accepts(d) {
            let from = self.slots[self.picked(d)] as int;
            let k = d % 4;
            let to = slot_neighbor(from, k);
            PlanView {
                slots: self.slots.push(to as usize),
                parents: self.parents.push(self.picked(d) as usize),
                doors: self.doors.update(4 * from + k, true).update(4 * to + facing_side(k), true),
            }
        } else {
            self
        }
    }

    /// The graph after the first `n` draws.
    pub open spec fn after(draws: Seq<usize>, n: int) -> PlanView
        decreases n,
    {
        if n <= 0 {
            PlanView::initial()
        } else {
            PlanView::after(draws, n - 1).grown(draw(draws, n - 1))
        }
    }

    /// The graph is a tree rooted in the start room: every room but the
    /// first neighbors an earlier room, its parent, with a door on either
    /// side of the wall between them; no coordinate is used twice; a door
    /// leads from a room to a room, and has its counterpart on the far
    /// side.
    pub open spec fn wf(self) -> bool {
        &&& 1 <= self.slots.len() <= TARGET_ROOMS
        &&& self.parents.len() == self.slots.len()
        &&& self.doors.len() == DUNGEON_SIDES
        &&& self.slots[0] == START_SLOT
        &&& forall|i: int| 0 <= i < self.slots.len() ==> is_slot(#[trigger] self.slots[i] as int)
        &&& forall|i: int, j: int|
            0 <= i < j < self.slots.len() ==> #[trigger] self.slots[i] != #[trigger] self.slots[j]
        &&& forall|i: int| 0 < i < self.slots.len() ==> #[trigger] self.attached(i)
        &&& forall|s: int, k: int|
            is_slot(s) && 0 <= k < 4 && #[trigger] self.doors[4 * s + k] ==> slot_has_neighbor(s, k)
                && self.slots.contains(s as usize) && self.slots.contains(
                slot_neighbor(s, k) as usize,
            ) && self.doors[4 * slot_neighbor(s, k) + facing_side(k)]
    }

    /// The room `i` neighbors its parent, an earlier room, and a door
    /// pair connects the two.
    pub open spec fn attached(self, i: int) -> bool {
        let p = self.parents[i] as int;
        &&& 0 <= p < i
        &&& exists|k: int|
            0 <= k < 4 && #[trigger] slot_has_neighbor(self.slots[p] as int, k) && slot_neighbor(
                self.slots[p] as int,
                k,
            ) == self.slots[i] && self.doors[4 * self.slots[p] + k] && self.doors[4
                * self.slots[i] + facing_side(k)]
    }
}

/// A neighbor is a coordinate, and the facing side leads back.
pub proof fn lemma_slot_neighbor_back(s: int, k: int)
    requires
        slot_has_neighbor(s, k),
    ensures
        is_slot(slot_neighbor(s, k)),
        slot_neighbor(s, k) != s,
        0 <= k < 4,
        0 <= facing_side(k) < 4,
        slot_has_neighbor(slot_neighbor(s, k), facing_side(k)),
        slot_neighbor(slot_neighbor(s, k), facing_side(k)) == s,
{
}

/// Growth keeps the graph a tree.
pub proof fn lemma_grown_wf(v: PlanView, d: int)
    requires
        v.wf(),
        d >= 0,
    ensures
        v.grown(d).wf(),
{
    if v.accepts(d) {
        let w = v.grown(d);
        let pi = v.picked(d);
        let from = v.slots[pi] as int;
        let k = d % 4;
        let to = slot_neighbor(from, k);
        let n = v.slots.len() as int;
        lemma_slot_neighbor_back(from, k);
        assert(0 <= pi < n);
        assert forall|i: int, j: int| 0 <= i < j < w.slots.len() implies #[trigger] w.slots[i]
            != #[trigger] w.slots[j] by {
            if j == n {
                assert(v.slots[i] == w.slots[i]);
                assert(v.slots.contains(v.slots[i]));
            } else {
                assert(v.slots[i] != v.slots[j]);
            }
        }
        assert forall|i: int| 0 < i < w.slots.len() implies #[trigger] w.attached(i) by {
            if i < n {
                assert(v.attached(i));
                let p = v.parents[i] as int;
                let kk = choose|kk: int|
                    0 <= kk < 4 && #[trigger] slot_has_neighbor(v.slots[p] as int, kk)
                        && slot_neighbor(v.slots[p] as int, kk) == v.slots[i] && v.doors[4
                        * v.slots[p] + kk] && v.doors[4 * v.slots[i] + facing_side(kk)];
                assert(slot_has_neighbor(w.slots[p] as int, kk));
                assert(w.doors[4 * w.slots[p] + kk]);
                assert(w.doors[4 * w.slots[i] + facing_side(kk)]);
            } else {
                assert(w.parents[i] == pi);
                assert(slot_has_neighbor(w.slots[pi] as int, k));
                assert(w.doors[4 * from + k]);
                assert(w.doors[4 * to + facing_side(k)]);
            }
        }
        assert forall|s: int, kk: int|
            is_slot(s) && 0 <= kk < 4 && #[trigger] w.doors[4 * s + kk] implies slot_has_neighbor(
            s,
            kk,
        ) && w.slots.contains(s as usize) && w.slots.contains(slot_neighbor(s, kk) as usize)
            && w.doors[4 * slot_neighbor(s, kk) + facing_side(kk)] by {
            if 4 * s + kk == 4 * from + k {
                assert(s == from && kk == k);
                assert(w.slots[pi] == from);
                assert(w.slots[n] == to);
            } else if 4 * s + kk == 4 * to + facing_side(k) {
                assert(s == to && kk == facing_side(k));
                assert(w.slots[pi] == from);
                assert(w.slots[n] == to);
            } else {
                assert(v.doors[4 * s + kk]);
                lemma_slot_neighbor_back(s, kk);
                let a = choose|a: int| 0 <= a < n && v.slots[a] == s as usize;
                let b = choose|b: int| 0 <= b < n && v.slots[b] == slot_neighbor(s, kk) as usize;
                assert(w.slots[a] == s as usize);
                assert(w.slots[b] == slot_neighbor(s, kk) as usize);
                assert(v.doors[4 * slot_neighbor(s, kk) + facing_side(kk)]);
            }
        }
    }
}

/// The graph after any number of draws is a tree.
pub proof fn lemma_after_wf(draws: Seq<usize>, n: int)
    ensures
        PlanView::after(draws, n).wf(),
    decreases n,
{
    if n <= 0 {
        let v = PlanView::initial();
        assert(v.slots[0] == START_SLOT);
    } else {
        lemma_after_wf(draws, n - 1);
        lemma_grown_wf(PlanView::after(draws, n - 1), draw(draws, n - 1));
    }
}

impl Plan {
    /// The mathematical content of the graph.
    pub open spec fn view(&self) -> PlanView {
        PlanView { slots: self.slots@, parents: self.parents@, doors: self.doors@ }
    }

    /// The graph is a tree, and `taken` marks the coordinates that hold a room.
    pub open spec fn inv(&self) -> bool {
        &&& self@.wf()
        &&& self.taken@.len() == DUNGEON_SLOTS
        &&& forall|s: int|
            is_slot(s) ==> #[trigger] self.taken@[s] == self.slots@.contains(s as usize)
    }

    /// The graph of the start room alone.
    pub fn new() -> (plan: Plan)
        ensures
            plan.inv(),
            plan@ == PlanView::initial(),
    {
        let mut taken: Vec<bool> = Vec::new();
        let mut doors: Vec<bool> = Vec::new();
        let mut i: usize = 0;
        while i < DUNGEON_SIDES
            invariant
                i <= DUNGEON_SIDES,
                doors@.len() == i,
                taken@.len() == (if i < DUNGEON_SLOTS { i } else { DUNGEON_SLOTS }),
                forall|j: int| 0 <= j < doors@.len() ==> !#[trigger] doors@[j],
                forall|j: int| 0 <= j < taken@.len() ==> #[trigger] taken@[j] == (j == START_SLOT),
            decreases DUNGEON_SIDES - i,
        {
            doors.push(false);
            if i < DUNGEON_SLOTS {
                taken.push(i == START_SLOT);
            }
            i = i + 1;
        }
        let mut slots: Vec<usize> = Vec::new();
        slots.push(START_SLOT);
        let mut parents: Vec<usize> = Vec::new();
        parents.push(0);
        let plan = Plan { slots, parents, taken, doors };
        proof {
            assert(plan@.slots =~= seq![START_SLOT]);
            assert(plan@.parents =~= seq![0usize]);
            assert(plan@.doors =~= Seq::new(DUNGEON_SIDES as nat, |i: int| false));
            lemma_after_wf(Seq::<usize>::empty(), 0);
            assert forall|s: int| is_slot(s) implies #[trigger] plan.taken@[s]
                == plan.slots@.contains(s as usize) by {
                if s == START_SLOT {
                    assert(plan.slots@[0] == START_SLOT);
                }
            }
        }
        plan
    }

    /// Applies one draw: the room that the draw picks gets a new
    /// neighbor on the side that the draw picks, with a door pair between
    /// the two, unless the graph is complete, the side leads out of the
    /// coordinate space, or the coordinate there is occupied.
    pub fn grow(&mut self, d: usize)
        requires
            old(self).inv(),
        ensures
            final(self).inv(),
            final(self)@ == old(self)@.grown(d as int),
    {
        if self.slots.len() >= TARGET_ROOMS {
            return;
        }
        let pick: usize = (d / 4) % self.slots.len();
        let k: usize = d % 4;
        let from: usize = self.slots[pick];
        let leads_on: bool = if k == 0 {
            from % DUNGEON_WIDTH > 0
        } else if k == 1 {
            from + DUNGEON_WIDTH < DUNGEON_SLOTS
        } else if k == 2 {
            from % DUNGEON_WIDTH < DUNGEON_WIDTH - 1
        } else {
            from >= DUNGEON_WIDTH
        };
        assert(leads_on == slot_has_neighbor(from as int, k as int));
        if !leads_on {
            return;
        }
        let to: usize = if k == 0 {
            from - 1
        } else if k == 1 {
            from + DUNGEON_WIDTH
        } else if k == 2 {
            from + 1
        } else {
            from - DUNGEON_WIDTH
        };
        let back: usize = if k < 2 { k + 2 } else { k - 2 };
        proof {
            lemma_slot_neighbor_back(from as int, k as int);
        }
        if self.taken[to] {
            return;
        }
        proof {
            lemma_grown_wf(self@, d as int);
        }
        let ghost before = self.slots@;
        self.slots.push(to);
        self.parents.push(pick);
        self.taken.set(to, true);
        self.doors.set(4 * from + k, true);
        self.doors.set(4 * to + back, true);
        proof {
            assert(self@.slots =~= old(self)@.grown(d as int).slots);
            assert(self@.parents =~= old(self)@.grown(d as int).parents);
            assert(self@.doors =~= old(self)@.grown(d as int).doors);
            assert forall|s: int| is_slot(s) implies #[trigger] self.taken@[s]
                == self.slots@.contains(s as usize) by {
                if s == to {
                    assert(self.slots@[before.len() as int] == to);
                } else if before.contains(s as usize) {
                    let a = choose|a: int| 0 <= a < before.len() && before[a] == s as usize;
                    assert(self.slots@[a] == s as usize);
                } else if self.slots@.contains(s as usize) {
                    let a = choose|a: int| 0 <= a < self.slots@.len() && self.slots@[a] == s as usize;
                    assert(before[a] == s as usize);
                }
            }
        }
    }

    /// Grows the room graph from the start room by the first
    /// `GROWTH_DRAWS` draws; draws that are missing count as zero.
    pub fn build(draws: &Vec<usize>) -> (plan: Plan)
        ensures
            plan.inv(),
            plan@ == PlanView::after(draws@, GROWTH_DRAWS as int),
    {
        let mut plan: Plan = Plan::new();
        let mut n: usize = 0;
        while n < GROWTH_DRAWS
            invariant
                n <= GROWTH_DRAWS,
                plan.inv(),
                plan@ == PlanView::after(draws@, n as int),
            decreases GROWTH_DRAWS - n,
        {
            let d: usize = if n < draws.len() { draws[n] } else { 0 };
            plan.grow(d);
            n = n + 1;
        }
        plan
    }
}

} // verus!
