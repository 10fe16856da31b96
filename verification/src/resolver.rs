//! The per-tick collision resolver: the sweep of an actor against the
//! room's obstacles, the fate of projectiles, and the line of sight
//! between an enemy and the player.

use vstd::prelude::*;
use crate::entities::{clamp, clamped, mirror, mirrored, Body, Coords, Obstacle, Shot, ShotTag};
use crate::geometry::{
    length, length_of, ray_cast, rect_overlaps, segment_slab_x, segment_slab_y, segment_vs_rect,
    sweep_cast, swept_rect_vs_rect, Contact, Rect, Time, Vector,
};

verus! {

/// A collision candidate: the index of an obstacle and the time at which
/// the actor would touch it.
#[derive(Clone, Copy, Debug, PartialEq, Eq, Structural)]
pub struct Candidate {
    pub index: usize,
    pub time: Time,
}

/// The candidates among the first `n` obstacles, in the order of the
/// obstacles: one for each obstacle that the actor's box `body`, moving
/// by `velocity * delta_time`, touches within the tick.
pub open spec fn candidates(
    body: Rect,
    velocity: Vector,
    obstacles: Seq<Obstacle>,
    delta_time: u32,
    n: int,
) -> Seq<Candidate>
    decreases n,
{
    if n <= 0 {
        Seq::empty()
    } else {
        let before = candidates(body, velocity, obstacles, delta_time, n - 1);
        match sweep_cast(body, velocity, obstacles[n - 1].spec_bbox(), delta_time) {
            Some(c) => before.push(Candidate { index: (n - 1) as usize, time: c.time }),
            None => before,
        }
    }
}

/// Every candidate's time has a positive denominator.
pub open spec fn timed(s: Seq<Candidate>) -> bool {
    forall|i: int| 0 <= i < s.len() ==> (#[trigger] s[i]).time.den > 0
}

/// Sweeps the actor's box against every obstacle and collects the
/// candidates, in the order of the obstacles.
pub fn collect_candidates(body: &Rect, velocity: Vector, obstacles: &Vec<Obstacle>, delta_time: u32) -> (found:
    Vec<Candidate>)
    ensures
        found@ == candidates(*body, velocity, obstacles@, delta_time, obstacles.len() as int),
        timed(found@),
{
    let mut found: Vec<Candidate> = Vec::new();
    let mut i: usize = 0;
    while i < obstacles.len()
        invariant
            i <= obstacles.len(),
            found@ == candidates(*body, velocity, obstacles@, delta_time, i as int),
            timed(found@),
        decreases obstacles.len() - i,
    {
        let target: Rect = obstacles[i].get_bbox();
        match swept_rect_vs_rect(body, velocity, &target, delta_time) {
            Some(c) => {
                found.push(Candidate { index: i, time: c.time });
            },
            None => {},
        }
        i = i + 1;
    }
    found
}

/// `a` is resolved before `b`: it is earlier, or at the same instant with
/// the lower obstacle index.
pub open spec fn precedes(a: Candidate, b: Candidate) -> bool {
    a.time.earlier(b.time) || (a.time.same(b.time) && a.index < b.index)
}

/// The candidates are in the order of resolution: ascending by time,
/// those of one instant ascending by obstacle index.
pub open spec fn in_order(s: Seq<Candidate>) -> bool {
    forall|i: int, j: int| 0 <= i < j < s.len() ==> !precedes(#[trigger] s[j], #[trigger] s[i])
}

/// Whether `a` is resolved before `b`.
pub fn comes_before(a: &Candidate, b: &Candidate) -> (r: bool)
    ensures
        r == precedes(*a, *b),
{
    a.time.is_earlier(&b.time) || (a.time.is_same(&b.time) && a.index < b.index)
}

/// The order of resolution is transitive.
pub proof fn lemma_precedes_transitive(a: Candidate, b: Candidate, c: Candidate)
    requires
        a.time.den > 0,
        b.time.den > 0,
        c.time.den > 0,
        !precedes(b, a),
        !precedes(c, b),
    ensures
        !precedes(c, a),
{
    let (an, ad) = (a.time.num as int, a.time.den as int);
    let (bn, bd) = (b.time.num as int, b.time.den as int);
    let (cn, cd) = (c.time.num as int, c.time.den as int);
    assert(an * bd <= bn * ad);
    assert(bn * cd <= cn * bd);
    lemma_fraction_order(an, ad, bn, bd, cn, cd);
    if cn * ad == an * cd {
        lemma_fraction_squeeze(an, ad, bn, bd, cn, cd);
    }
}

/// If `an / ad <= bn / bd <= cn / cd` then `an / ad <= cn / cd`.
proof fn lemma_fraction_order(an: int, ad: int, bn: int, bd: int, cn: int, cd: int)
    requires
        ad > 0,
        bd > 0,
        cd > 0,
        an * bd <= bn * ad,
        bn * cd <= cn * bd,
    ensures
        an * cd <= cn * ad,
{
    assert((an * bd) * cd <= (bn * ad) * cd) by (nonlinear_arith)
        requires
            an * bd <= bn * ad,
            cd > 0,
    ;
    assert((bn * cd) * ad <= (cn * bd) * ad) by (nonlinear_arith)
        requires
            bn * cd <= cn * bd,
            ad > 0,
    ;
    assert((bn * ad) * cd == (bn * cd) * ad) by (nonlinear_arith);
    assert((an * bd) * cd == (an * cd) * bd && (cn * bd) * ad == (cn * ad) * bd)
        by (nonlinear_arith);
    assert(an * cd <= cn * ad) by (nonlinear_arith)
        requires
            (an * cd) * bd <= (cn * ad) * bd,
            bd > 0,
    ;
}

/// If `an / ad <= bn / bd <= cn / cd` and the outer two are equal, all three are.
proof fn lemma_fraction_squeeze(an: int, ad: int, bn: int, bd: int, cn: int, cd: int)
    requires
        ad > 0,
        bd > 0,
        cd > 0,
        an * bd <= bn * ad,
        bn * cd <= cn * bd,
        cn * ad == an * cd,
    ensures
        an * bd == bn * ad,
        bn * cd == cn * bd,
{
    lemma_fraction_order(bn, bd, cn, cd, an, ad);
    lemma_fraction_order(cn, cd, an, ad, bn, bd);
}

/// Puts the candidates in the order of resolution: ascending by time of
/// impact, candidates of one instant ascending by obstacle index. The
/// result holds the same candidates.
pub fn sort_candidates(found: &Vec<Candidate>) -> (sorted: Vec<Candidate>)
    requires
        timed(found@),
    ensures
        in_order(sorted@),
        timed(sorted@),
        sorted@.to_multiset() == found@.to_multiset(),
{
    let mut sorted: Vec<Candidate> = Vec::new();
    let mut i: usize = 0;
    proof {
        assert(found@.take(0) =~= Seq::<Candidate>::empty());
    }
    while i < found.len()
        invariant
            i <= found.len(),
            timed(found@),
            timed(sorted@),
            in_order(sorted@),
            sorted@.to_multiset() == found@.take(i as int).to_multiset(),
        decreases found.len() - i,
    {
        let c: Candidate = found[i];
        let mut at: usize = sorted.len();
        while at > 0 && comes_before(&c, &sorted[at - 1])
            invariant
                at <= sorted.len(),
                c.time.den > 0,
                timed(sorted@),
                in_order(sorted@),
                forall|j: int| at <= j < sorted.len() ==> precedes(c, #[trigger] sorted@[j]),
            decreases at,
        {
            at = at - 1;
        }
        proof {
            lemma_insert_in_order(sorted@, c, at as int);
            lemma_insert_multiset(sorted@, c, at as int);
            assert(found@.take(i + 1) =~= found@.take(i as int).push(c));
            broadcast use vstd::seq_lib::group_to_multiset_ensures;
        }
        sorted.insert(at, c);
        i = i + 1;
    }
    proof {
        assert(found@.take(found.len() as int) =~= found@);
    }
    sorted
}

/// Inserting a candidate behind all that do not come after it, and before
/// all that it precedes, keeps the order.
proof fn lemma_insert_in_order(s: Seq<Candidate>, c: Candidate, at: int)
    requires
        0 <= at <= s.len(),
        c.time.den > 0,
        timed(s),
        in_order(s),
        forall|j: int| at <= j < s.len() ==> precedes(c, #[trigger] s[j]),
        at > 0 ==> !precedes(c, s[at - 1]),
    ensures
        in_order(s.insert(at, c)),
        timed(s.insert(at, c)),
{
    let t = s.insert(at, c);
    assert forall|i: int, j: int| 0 <= i < j < t.len() implies !precedes(
        #[trigger] t[j],
        #[trigger] t[i],
    ) by {
        if j == at {
            // t[i] is an element before the insertion point
            assert(t[i] == s[i]);
            if i < at - 1 {
                assert(!precedes(s[at - 1], s[i]));
            }
            lemma_precedes_transitive(s[i], s[at - 1], c);
        } else if i == at {
            assert(t[j] == s[j - 1]);
            assert(precedes(c, s[j - 1]));
            lemma_precedes_asymmetric(c, s[j - 1]);
        } else {
            let a = if i < at { i } else { i - 1 };
            let b = if j < at { j } else { j - 1 };
            assert(t[i] == s[a] && t[j] == s[b]);
            assert(!precedes(s[b], s[a]));
        }
    }
}

/// A candidate that precedes another does not come after it.
proof fn lemma_precedes_asymmetric(a: Candidate, b: Candidate)
    requires
        precedes(a, b),
    ensures
        !precedes(b, a),
{
}

/// Inserting a candidate adds it to what the sequence holds.
proof fn lemma_insert_multiset(s: Seq<Candidate>, c: Candidate, at: int)
    requires
        0 <= at <= s.len(),
    ensures
        s.insert(at, c).to_multiset() == s.to_multiset().insert(c),
{
    broadcast use vstd::seq_lib::group_to_multiset_ensures;
    broadcast use vstd::multiset::group_multiset_axioms;

    let t = s.insert(at, c);
    assert(t.remove(at) =~= s);
    assert(t[at] == c);
    assert(t.remove(at).to_multiset() =~= t.to_multiset().remove(c));
    assert(t.contains(c));
    assert(t.to_multiset().count(c) > 0);
    assert(t.to_multiset() =~= s.to_multiset().insert(c));
}

/// Where an actor is after the sweep against the obstacles, and the room
/// that it has entered, if it went through an open door.
#[derive(Clone, Copy, Debug, PartialEq, Eq, Structural)]
pub struct WallOutcome {
    pub pos: Vector,
    pub entered: Option<Coords>,
}

/// How far an actor is pushed back: the magnitude of its velocity, the
/// length of the vector rounded down, scaled by the part of the tick that
/// is left after the contact, rounded down.
pub open spec fn retreat(velocity: Vector, time: Time) -> int {
    (length(velocity) * (time.den - time.num)) / (time.den as int)
}

/// The position after a push out of a solid obstacle: along the contact's
/// normal, by the retreat.
pub open spec fn pushed(pos: Vector, velocity: Vector, c: Contact) -> Vector {
    Vector {
        x: clamped(pos.x + c.normal.x * retreat(velocity, c.time)) as i32,
        y: clamped(pos.y + c.normal.y * retreat(velocity, c.time)) as i32,
    }
}

/// The retreat of an actor of the given velocity after a contact at `time`.
fn retreat_of(velocity: Vector, time: &Time) -> (r: i64)
    requires
        time.wf(),
    ensures
        r == retreat(velocity, *time),
        0 <= r <= 0x1_0000_0000,
{
    let magnitude: i128 = length_of(velocity) as i128;
    let rest: i128 = time.den as i128 - time.num as i128;
    assert(0 <= magnitude * rest <= magnitude * time.den && magnitude * time.den
        <= 0x8000_0000_0000_0000_0000_0000) by (nonlinear_arith)
        requires
            0 <= magnitude <= 0x1_0000_0000,
            0 <= rest <= time.den,
            time.den <= 0x7fff_ffff_ffff_ffff,
    ;
    let scaled: i128 = magnitude * rest;
    let q: i128 = scaled / (time.den as i128);
    proof {
        vstd::arithmetic::div_mod::lemma_fundamental_div_mod(scaled as int, time.den as int);
        let d = time.den as int;
        assert(0 <= q <= magnitude) by (nonlinear_arith)
            requires
                scaled == d * q + (scaled as int % d),
                0 <= scaled as int % d < d,
                0 <= scaled <= magnitude * d,
                d > 0,
        ;
    }
    q as i64
}

/// Pushes an actor at `pos` out of the solid obstacle that it touched:
/// along the contact's normal, by the magnitude of the velocity scaled by
/// the part of the tick that is left.
pub fn push_out(pos: Vector, velocity: Vector, c: &Contact) -> (r: Vector)
    requires
        c.time.wf(),
        c.normal.cardinal(),
    ensures
        r == pushed(pos, velocity, *c),
{
    let back: i64 = retreat_of(velocity, &c.time);
    assert(-0x1_0000_0000 <= c.normal.x * back <= 0x1_0000_0000 && -0x1_0000_0000 <= c.normal.y
        * back <= 0x1_0000_0000) by (nonlinear_arith)
        requires
            -1 <= c.normal.x <= 1,
            -1 <= c.normal.y <= 1,
            0 <= back <= 0x1_0000_0000,
    ;
    Vector {
        x: clamp(pos.x as i64 + (c.normal.x as i64) * back),
        y: clamp(pos.y as i64 + (c.normal.y as i64) * back),
    }
}

/// The outcome after one more candidate's obstacle has been looked at.
/// The sweep is made again, from where the actor is now: an earlier push
/// may have taken it out of reach. A contact with an open door takes the
/// actor to the far side of the connected room, and ends the resolution;
/// any other contact pushes it out.
pub open spec fn resolve_contact(
    state: WallOutcome,
    size: Vector,
    velocity: Vector,
    obstacle: Obstacle,
    delta_time: u32,
) -> WallOutcome {
    if state.entered is Some {
        state
    } else {
        match sweep_cast(
            crate::entities::box_around(state.pos, size),
            velocity,
            obstacle.spec_bbox(),
            delta_time,
        ) {
            None => state,
            Some(c) => match obstacle.leads_to() {
                Some(room) => WallOutcome { pos: mirrored(state.pos), entered: Some(room) },
                None => WallOutcome { pos: pushed(state.pos, velocity, c), entered: None },
            },
        }
    }
}

/// A closed door is resolved as any solid obstacle in its place is, and an
/// open door takes whoever touches it to the room that it connects to.
pub proof fn lemma_doors_resolve(
    state: WallOutcome,
    size: Vector,
    velocity: Vector,
    door: Obstacle,
    solid: Obstacle,
    delta_time: u32,
)
    requires
        state.entered is None,
        door.tag is Door,
        !(solid.tag is Door),
        solid.pos == door.pos,
        solid.size == door.size,
    ensures
        !door.tag->is_open ==> resolve_contact(state, size, velocity, door, delta_time)
            == resolve_contact(state, size, velocity, solid, delta_time),
        door.tag->is_open && sweep_cast(
            crate::entities::box_around(state.pos, size),
            velocity,
            door.spec_bbox(),
            delta_time,
        ) is Some ==> resolve_contact(state, size, velocity, door, delta_time) == (WallOutcome {
            pos: mirrored(state.pos),
            entered: Some(door.tag->connects_to),
        }),
{
}

/// The outcome after the first `n` candidates of `order` have been resolved, in order.
pub open spec fn resolve_in_order(
    body: Body,
    velocity: Vector,
    obstacles: Seq<Obstacle>,
    order: Seq<Candidate>,
    delta_time: u32,
    n: int,
) -> WallOutcome
    decreases n,
{
    if n <= 0 {
        WallOutcome { pos: body.pos, entered: None }
    } else {
        resolve_contact(
            resolve_in_order(body, velocity, obstacles, order, delta_time, n - 1),
            body.size,
            velocity,
            obstacles[order[n - 1].index as int],
            delta_time,
        )
    }
}

/// Every candidate names an obstacle.
pub open spec fn within(order: Seq<Candidate>, count: int) -> bool {
    forall|i: int| 0 <= i < order.len() ==> (#[trigger] order[i]).index < count
}

/// Resolves the candidates in the order given.
pub fn resolve_candidates(
    body: &Body,
    velocity: Vector,
    obstacles: &Vec<Obstacle>,
    order: &Vec<Candidate>,
    delta_time: u32,
) -> (out: WallOutcome)
    requires
        within(order@, obstacles.len() as int),
    ensures
        out == resolve_in_order(
            *body,
            velocity,
            obstacles@,
            order@,
            delta_time,
            order.len() as int,
        ),
{
    let mut state: WallOutcome = WallOutcome { pos: body.pos, entered: None };
    let mut i: usize = 0;
    while i < order.len()
        invariant
            i <= order.len(),
            within(order@, obstacles.len() as int),
            state == resolve_in_order(*body, velocity, obstacles@, order@, delta_time, i as int),
        decreases order.len() - i,
    {
        let obstacle: Obstacle = obstacles[order[i].index];
        if state.entered.is_none() {
            let now: Rect = crate::entities::bounding_box(state.pos, body.size);
            let target: Rect = obstacle.get_bbox();
            match swept_rect_vs_rect(&now, velocity, &target, delta_time) {
                None => {},
                Some(c) => {
                    match obstacle.passage() {
                        Some(room) => {
                            state = WallOutcome { pos: mirror(state.pos), entered: Some(room) };
                        },
                        None => {
                            state = WallOutcome {
                                pos: push_out(state.pos, velocity, &c),
                                entered: None,
                            };
                        },
                    }
                },
            }
        }
        i = i + 1;
    }
    state
}

/// `order` is the order in which the candidates of the actor's sweep are resolved.
pub open spec fn is_resolution_order(
    order: Seq<Candidate>,
    body: Body,
    velocity: Vector,
    obstacles: Seq<Obstacle>,
    delta_time: u32,
) -> bool {
    &&& in_order(order)
    &&& order.to_multiset() == candidates(
        body.spec_bbox(),
        velocity,
        obstacles,
        delta_time,
        obstacles.len() as int,
    ).to_multiset()
}

/// The actor-against-obstacle phase of a tick for one actor, the player
/// or an enemy alike: the actor is swept against every obstacle of the
/// room, the candidates are put in order, ascending by time and, at one
/// instant, by obstacle index, and resolved in that order.
pub fn handle_wall_collisions(
    body: &Body,
    velocity: Vector,
    obstacles: &Vec<Obstacle>,
    delta_time: u32,
) -> (out: WallOutcome)
    ensures
        exists|order: Seq<Candidate>|
            #[trigger] is_resolution_order(order, *body, velocity, obstacles@, delta_time) && out
                == resolve_in_order(
                *body,
                velocity,
                obstacles@,
                order,
                delta_time,
                order.len() as int,
            ),
{
    let start: Rect = body.get_bbox();
    let found: Vec<Candidate> = collect_candidates(&start, velocity, obstacles, delta_time);
    let order: Vec<Candidate> = sort_candidates(&found);
    proof {
        lemma_candidates_within(start, velocity, obstacles@, delta_time, obstacles.len() as int);
        lemma_same_members_within(found@, order@, obstacles.len() as int);
    }
    let out: WallOutcome = resolve_candidates(body, velocity, obstacles, &order, delta_time);
    assert(is_resolution_order(order@, *body, velocity, obstacles@, delta_time));
    out
}

/// The candidates among the first `n` obstacles name obstacles below `n`.
proof fn lemma_candidates_within(
    body: Rect,
    velocity: Vector,
    obstacles: Seq<Obstacle>,
    delta_time: u32,
    n: int,
)
    requires
        0 <= n,
    ensures
        within(candidates(body, velocity, obstacles, delta_time, n), n),
    decreases n,
{
    if n > 0 {
        lemma_candidates_within(body, velocity, obstacles, delta_time, n - 1);
    }
}

/// Two sequences that hold the same candidates name the same obstacles.
proof fn lemma_same_members_within(a: Seq<Candidate>, b: Seq<Candidate>, count: int)
    requires
        within(a, count),
        a.to_multiset() == b.to_multiset(),
    ensures
        within(b, count),
{
    broadcast use vstd::seq_lib::group_to_multiset_ensures;

    assert forall|i: int| 0 <= i < b.len() implies (#[trigger] b[i]).index < count by {
        assert(b.contains(b[i]));
        assert(b.to_multiset().count(b[i]) > 0);
        assert(a.contains(b[i]));
        let j = choose|j: int| 0 <= j < a.len() && a[j] == b[i];
        assert(a[j].index < count);
    }
}

/// What becomes of a projectile in a tick.
#[derive(Clone, Copy, Debug, PartialEq, Eq, Structural)]
pub enum ShotFate {
    /// It strikes the enemy with this index, and is removed.
    HitsEnemy(usize),
    /// It strikes the player, and is removed.
    HitsPlayer,
    /// It runs into an obstacle, and is removed.
    HitsObstacle,
    /// It flies on.
    Flies,
}

/// The first enemy, from index `from` on, whose box the rectangle touches.
pub open spec fn first_enemy(r: Rect, enemies: Seq<Body>, from: int) -> Option<int>
    decreases enemies.len() - from,
{
    if from < 0 || from >= enemies.len() {
        None
    } else if r.touches(enemies[from].spec_bbox()) {
        Some(from)
    } else {
        first_enemy(r, enemies, from + 1)
    }
}

/// The rectangle touches the box of an obstacle from index `from` on.
pub open spec fn any_obstacle(r: Rect, obstacles: Seq<Obstacle>, from: int) -> bool
    decreases obstacles.len() - from,
{
    if from < 0 || from >= obstacles.len() {
        false
    } else {
        r.touches(obstacles[from].spec_bbox()) || any_obstacle(r, obstacles, from + 1)
    }
}

/// The fate of a projectile: it is tested against the actors of the other
/// side first, the player's against the enemies in their order, an
/// enemy's against the player; only a projectile that strikes no actor is
/// tested against the obstacles.
pub open spec fn fate_of(shot: Shot, enemies: Seq<Body>, player: Body, obstacles: Seq<Obstacle>) -> ShotFate {
    let r = shot.spec_bbox();
    if shot.tag == ShotTag::Player && first_enemy(r, enemies, 0) is Some {
        ShotFate::HitsEnemy(first_enemy(r, enemies, 0)->0 as usize)
    } else if shot.tag == ShotTag::Enemy && r.touches(player.spec_bbox()) {
        ShotFate::HitsPlayer
    } else if any_obstacle(r, obstacles, 0) {
        ShotFate::HitsObstacle
    } else {
        ShotFate::Flies
    }
}

/// `first_enemy` gives the least index of an enemy that the rectangle
/// touches, and nothing only if it touches none.
pub proof fn lemma_first_enemy_is_least(r: Rect, enemies: Seq<Body>, from: int)
    requires
        0 <= from,
    ensures
        match first_enemy(r, enemies, from) {
            Some(i) => from <= i < enemies.len() && r.touches(enemies[i].spec_bbox())
                && forall|j: int| from <= j < i ==> !r.touches(#[trigger] enemies[j].spec_bbox()),
            None => forall|j: int|
                from <= j < enemies.len() ==> !r.touches(#[trigger] enemies[j].spec_bbox()),
        },
    decreases enemies.len() - from,
{
    if from < enemies.len() && !r.touches(enemies[from].spec_bbox()) {
        lemma_first_enemy_is_least(r, enemies, from + 1);
    }
}

/// `any_obstacle` holds exactly if the rectangle touches some obstacle's box.
pub proof fn lemma_any_obstacle_is_some(r: Rect, obstacles: Seq<Obstacle>, from: int)
    requires
        0 <= from,
    ensures
        any_obstacle(r, obstacles, from) <==> exists|j: int|
            from <= j < obstacles.len() && r.touches(#[trigger] obstacles[j].spec_bbox()),
    decreases obstacles.len() - from,
{
    if from < obstacles.len() {
        lemma_any_obstacle_is_some(r, obstacles, from + 1);
        if r.touches(obstacles[from].spec_bbox()) {
            assert(from <= from < obstacles.len() && r.touches(obstacles[from].spec_bbox()));
        }
    }
}

/// The first enemy that the rectangle touches.
fn find_enemy(r: &Rect, enemies: &Vec<Body>) -> (hit: Option<usize>)
    ensures
        hit is Some <==> first_enemy(*r, enemies@, 0) is Some,
        hit is Some ==> hit->0 == first_enemy(*r, enemies@, 0)->0,
{
    let mut i: usize = 0;
    while i < enemies.len()
        invariant
            i <= enemies.len(),
            first_enemy(*r, enemies@, 0) == first_enemy(*r, enemies@, i as int),
        decreases enemies.len() - i,
    {
        let b: Rect = enemies[i].get_bbox();
        if rect_overlaps(r, &b) {
            return Some(i);
        }
        i = i + 1;
    }
    None
}

/// Whether the rectangle touches an obstacle.
fn touches_obstacle(r: &Rect, obstacles: &Vec<Obstacle>) -> (hit: bool)
    ensures
        hit == any_obstacle(*r, obstacles@, 0),
{
    let mut i: usize = 0;
    while i < obstacles.len()
        invariant
            i <= obstacles.len(),
            any_obstacle(*r, obstacles@, 0) == any_obstacle(*r, obstacles@, i as int),
        decreases obstacles.len() - i,
    {
        let b: Rect = obstacles[i].get_bbox();
        if rect_overlaps(r, &b) {
            return true;
        }
        i = i + 1;
    }
    false
}

/// The fate of one projectile.
pub fn shot_fate(shot: &Shot, enemies: &Vec<Body>, player: &Body, obstacles: &Vec<Obstacle>) -> (fate:
    ShotFate)
    ensures
        fate == fate_of(*shot, enemies@, *player, obstacles@),
{
    let r: Rect = shot.get_bbox();
    match shot.tag {
        ShotTag::Player => {
            match find_enemy(&r, enemies) {
                Some(i) => {
                    return ShotFate::HitsEnemy(i);
                },
                None => {},
            }
        },
        ShotTag::Enemy => {
            let p: Rect = player.get_bbox();
            if rect_overlaps(&r, &p) {
                return ShotFate::HitsPlayer;
            }
        },
    }
    if touches_obstacle(&r, obstacles) {
        ShotFate::HitsObstacle
    } else {
        ShotFate::Flies
    }
}

/// The projectile phase of a tick: the fate of each projectile, in the
/// order of the projectiles. The test is one of overlap at the
/// projectile's position, not a sweep.
pub fn handle_shot_collisions(
    shots: &Vec<Shot>,
    enemies: &Vec<Body>,
    player: &Body,
    obstacles: &Vec<Obstacle>,
) -> (fates: Vec<ShotFate>)
    ensures
        fates.len() == shots.len(),
        forall|i: int|
            0 <= i < shots.len() ==> #[trigger] fates@[i] == fate_of(
                shots@[i],
                enemies@,
                *player,
                obstacles@,
            ),
{
    let mut fates: Vec<ShotFate> = Vec::new();
    let mut i: usize = 0;
    while i < shots.len()
        invariant
            i <= shots.len(),
            fates.len() == i,
            forall|j: int|
                0 <= j < i ==> #[trigger] fates@[j] == fate_of(
                    shots@[j],
                    enemies@,
                    *player,
                    obstacles@,
                ),
        decreases shots.len() - i,
    {
        let fate: ShotFate = shot_fate(&shots[i], enemies, player, obstacles);
        fates.push(fate);
        i = i + 1;
    }
    fates
}

/// The projectiles among the first `n` that fly on, in their order.
pub open spec fn flying(shots: Seq<Shot>, fates: Seq<ShotFate>, n: int) -> Seq<Shot>
    decreases n,
{
    if n <= 0 {
        Seq::empty()
    } else if fates[n - 1] == ShotFate::Flies {
        flying(shots, fates, n - 1).push(shots[n - 1])
    } else {
        flying(shots, fates, n - 1)
    }
}

/// The projectiles that persist to the next tick: those that fly on, in
/// their order.
pub fn surviving_shots(shots: &Vec<Shot>, fates: &Vec<ShotFate>) -> (kept: Vec<Shot>)
    requires
        fates.len() == shots.len(),
    ensures
        kept@ == flying(shots@, fates@, shots.len() as int),
{
    let mut kept: Vec<Shot> = Vec::new();
    let mut i: usize = 0;
    while i < shots.len()
        invariant
            i <= shots.len(),
            fates.len() == shots.len(),
            kept@ == flying(shots@, fates@, i as int),
        decreases shots.len() - i,
    {
        if fates[i] == ShotFate::Flies {
            kept.push(shots[i]);
        }
        i = i + 1;
    }
    kept
}

/// The distance between the two points is at most `radius`.
pub open spec fn within_radius(a: Vector, b: Vector, radius: u32) -> bool {
    (b.x - a.x) * (b.x - a.x) + (b.y - a.y) * (b.y - a.y) <= radius * radius
}

/// The rectangle stands between the two points: the segment from `from`
/// to `to` makes contact with it before it reaches `to`.
pub open spec fn blocks_sight(from: Vector, to: Vector, rect: Rect) -> bool {
    let hit = ray_cast(segment_slab_x(from, to, rect), segment_slab_y(from, to, rect));
    hit is Some && hit->0.time.num < hit->0.time.den
}

/// No obstacle stands between the two points.
pub open spec fn clear_sight(from: Vector, to: Vector, obstacles: Seq<Obstacle>) -> bool {
    forall|i: int|
        0 <= i < obstacles.len() ==> !blocks_sight(from, to, #[trigger] obstacles[i].spec_bbox())
}

/// Whether the point `to` is at most `radius` away from `from`.
pub fn in_detection_radius(from: Vector, to: Vector, radius: u32) -> (b: bool)
    ensures
        b == within_radius(from, to, radius),
{
    let dx: i128 = to.x as i128 - from.x as i128;
    let dy: i128 = to.y as i128 - from.y as i128;
    let r: i128 = radius as i128;
    assert(0 <= dx * dx <= 0x1_0000_0000_0000_0000 && 0 <= dy * dy <= 0x1_0000_0000_0000_0000
        && 0 <= r * r <= 0x1_0000_0000_0000_0000) by (nonlinear_arith)
        requires
            -0x1_0000_0000 <= dx <= 0x1_0000_0000,
            -0x1_0000_0000 <= dy <= 0x1_0000_0000,
            0 <= r <= 0x1_0000_0000,
    ;
    dx * dx + dy * dy <= r * r
}

/// Whether no obstacle stands between the two points.
pub fn has_line_of_sight(from: Vector, to: Vector, obstacles: &Vec<Obstacle>) -> (b: bool)
    ensures
        b == clear_sight(from, to, obstacles@),
{
    let mut i: usize = 0;
    while i < obstacles.len()
        invariant
            i <= obstacles.len(),
            forall|j: int|
                0 <= j < i ==> !blocks_sight(from, to, #[trigger] obstacles@[j].spec_bbox()),
        decreases obstacles.len() - i,
    {
        let rect: Rect = obstacles[i].get_bbox();
        match segment_vs_rect(from, to, &rect) {
            Some(c) => {
                if c.time.num < c.time.den {
                    assert(blocks_sight(from, to, obstacles@[i as int].spec_bbox()));
                    return false;
                }
            },
            None => {},
        }
        i = i + 1;
    }
    true
}

/// The detection phase of a tick for one enemy: the enemy may fire if
/// the player is within the detection radius and no obstacle stands
/// between the two.
pub fn handle_player_detection(
    enemy: Vector,
    player: Vector,
    obstacles: &Vec<Obstacle>,
    radius: u32,
) -> (may_fire: bool)
    ensures
        may_fire == (within_radius(enemy, player, radius) && clear_sight(
            enemy,
            player,
            obstacles@,
        )),
{
    in_detection_radius(enemy, player, radius) && has_line_of_sight(enemy, player, obstacles)
}

} // verus!
