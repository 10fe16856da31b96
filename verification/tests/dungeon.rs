use arena_core::dungeon::{Dungeon, DungeonError};
use arena_core::entities::{BlockTag, Body, Coords, Obstacle};
use arena_core::geometry::Vector;
use arena_core::grid::{BLOCKED, ROOM_HEIGHT, ROOM_WIDTH, UNREACHED};
use arena_core::items::CollectableState;
use arena_core::plan::Plan;
use arena_core::room::{blank_grid, try_obstacle, Room};

fn c(row: usize, col: usize) -> Coords {
    Coords { row, col }
}

fn no_doors() -> Vec<bool> {
    vec![false; 196]
}

#[test]
fn collectable_states_differ() {
    assert_eq!(CollectableState::Base, CollectableState::Base);
    assert_ne!(CollectableState::Base, CollectableState::Consumed);
}

#[test]
fn plan_starts_with_the_start_room() {
    let plan = Plan::new();
    assert_eq!(plan.slots, vec![24]);
    assert_eq!(plan.parents, vec![0]);
    assert!(plan.taken[24]);
    assert_eq!(plan.taken.iter().filter(|t| **t).count(), 1);
    assert!(plan.doors.iter().all(|d| !*d));
    assert_eq!(plan.doors.len(), 196);
}

#[test]
fn plan_grows_by_accepted_draws() {
    let mut plan = Plan::new();
    // the draw 2 picks room 0 and the east side
    plan.grow(2);
    assert_eq!(plan.slots, vec![24, 25]);
    assert_eq!(plan.parents, vec![0, 0]);
    assert!(plan.doors[4 * 24 + 2]);
    assert!(plan.doors[4 * 25 + 0]);
    // the draw 4 + 0 picks room 1 and the west side, which is occupied
    plan.grow(4);
    assert_eq!(plan.slots, vec![24, 25]);
    // the draw 4 + 3 picks room 1 and the north side
    plan.grow(7);
    assert_eq!(plan.slots, vec![24, 25, 18]);
    assert_eq!(plan.parents, vec![0, 0, 1]);
    assert!(plan.doors[4 * 25 + 3]);
    assert!(plan.doors[4 * 18 + 1]);
    // the draw 1 picks room 0 and the south side
    plan.grow(1);
    assert_eq!(plan.slots, vec![24, 25, 18, 31]);
    assert!(plan.doors[4 * 24 + 1]);
    assert!(plan.doors[4 * 31 + 3]);
    assert_eq!(plan.doors.iter().filter(|d| **d).count(), 6);
    assert_eq!(plan.taken.iter().filter(|t| **t).count(), 4);
}

#[test]
fn plan_rejects_steps_out_of_the_coordinate_space() {
    let mut plan = Plan::new();
    // west three times from the newest room: 24 -> 23 -> 22 -> 21
    plan.grow(0);
    plan.grow(4);
    plan.grow(8);
    assert_eq!(plan.slots, vec![24, 23, 22, 21]);
    // room 3 stands in column 0: no step to the west
    plan.grow(12);
    assert_eq!(plan.slots, vec![24, 23, 22, 21]);
    assert_eq!(plan.doors.iter().filter(|d| **d).count(), 6);
}

#[test]
fn plan_stops_at_the_target_room_count() {
    let draws: Vec<usize> = (0..64).map(|n| n * 4 + 2 + (n % 2)).collect();
    let plan = Plan::build(&draws);
    assert!(plan.slots.len() <= 10);
    let mut plan = Plan::new();
    // a staircase from the newest room, east and south in turn, down to
    // the corner 48; from there on the draws pick older rooms, of which
    // 24 and 31 have a free coordinate to the south
    for n in 0..20 {
        plan.grow(n * 4 + 2 - (n % 2));
    }
    assert_eq!(plan.slots.len(), 10);
    assert_eq!(plan.slots, vec![24, 25, 32, 33, 40, 41, 48, 31, 38, 45]);
    assert_eq!(plan.parents, vec![0, 0, 1, 2, 3, 4, 5, 0, 7, 8]);
    // a complete graph takes no more rooms
    plan.grow(0);
    assert_eq!(plan.slots.len(), 10);
    assert!(!plan.taken[23]);
}

#[test]
fn plan_without_draws_is_grown_by_zeros() {
    let plan = Plan::build(&Vec::new());
    // each draw of zero picks room 0 and the west side
    assert_eq!(plan.slots, vec![24, 23]);
}

#[test]
fn blank_room_has_walls_on_the_border_only() {
    let g = blank_grid();
    for row in 0..ROOM_HEIGHT {
        for col in 0..ROOM_WIDTH {
            let border = row == 0 || col == 0 || row == ROOM_HEIGHT - 1 || col == ROOM_WIDTH - 1;
            assert_eq!(g.get(row, col), if border { BLOCKED } else { 0 });
        }
    }
}

#[test]
fn obstacle_is_placed_on_the_cell_that_the_draw_picks() {
    let mut g = blank_grid();
    // the draw 0 picks row 1, column 1; the draw 14 row 2, column 2
    try_obstacle(&mut g, 0);
    assert!(g.is_blocked(1, 1));
    try_obstacle(&mut g, 91 + 14);
    assert!(g.is_blocked(2, 2));
    try_obstacle(&mut g, 90);
    assert!(g.is_blocked(7, 13));
    let blocked = (1..8)
        .flat_map(|row| (1..14).map(move |col| (row, col)))
        .filter(|(row, col)| g.is_blocked(*row, *col))
        .count();
    assert_eq!(blocked, 3);
}

#[test]
fn obstacle_is_refused_where_cells_must_stay_open() {
    let mut g = blank_grid();
    // the centre (4, 7) and the cells before the doors
    for (row, col) in [(4usize, 7usize), (4, 1), (7, 7), (4, 13), (1, 7)] {
        try_obstacle(&mut g, (row - 1) * 13 + (col - 1));
        assert!(!g.is_blocked(row, col));
    }
}

#[test]
fn obstacle_is_refused_where_it_cuts_a_cell_off() {
    let mut g = blank_grid();
    // (1, 2) goes in; (2, 1) would enclose the corner cell (1, 1)
    try_obstacle(&mut g, 1);
    assert!(g.is_blocked(1, 2));
    try_obstacle(&mut g, 13);
    assert!(!g.is_blocked(2, 1));
    assert!(!g.is_blocked(1, 1));
    // the corner cell itself can go
    try_obstacle(&mut g, 0);
    assert!(g.is_blocked(1, 1));
    // and now its neighbor too
    try_obstacle(&mut g, 13);
    assert!(g.is_blocked(2, 1));
}

#[test]
fn room_without_doors_is_walled_in() {
    let room = Room::generate(24, &no_doors(), &Vec::new(), 64, 1500, 900);
    assert_eq!(room.coords, c(3, 3));
    assert!(room.enemies.is_empty());
    assert!(room.shots.is_empty());
    // zero draws place one stone, on (1, 1)
    assert_eq!(room.obstacles.len(), 44 + 1);
    assert_eq!(
        room.obstacles[0],
        Obstacle { pos: Vector { x: -700, y: -400 }, size: Vector { x: 100, y: 100 }, tag: BlockTag::Wall }
    );
    assert_eq!(
        room.obstacles[16],
        Obstacle { pos: Vector { x: -600, y: -300 }, size: Vector { x: 100, y: 100 }, tag: BlockTag::Stone }
    );
    assert!(room.obstacles.iter().all(|o| !matches!(o.tag, BlockTag::Door { .. })));
    // the grid is the field for the centre
    assert_eq!(room.grid.get(4, 7), 0);
    assert_eq!(room.grid.get(4, 1), 6);
    assert_eq!(room.grid.get(1, 1), BLOCKED);
    assert_eq!(room.grid.get(1, 2), 3 + 5);
    assert_eq!(room.grid.get(0, 7), BLOCKED);
    assert!(room.grid.all_reached());
}

#[test]
fn room_has_a_door_for_each_door_flag() {
    let mut doors = no_doors();
    doors[4 * 24 + 0] = true;
    doors[4 * 24 + 3] = true;
    let room = Room::generate(24, &doors, &Vec::new(), 64, 1500, 900);
    let found: Vec<&Obstacle> =
        room.obstacles.iter().filter(|o| matches!(o.tag, BlockTag::Door { .. })).collect();
    assert_eq!(found.len(), 2);
    // north door: row 0, column 7, to the room above
    assert_eq!(
        *found[0],
        Obstacle {
            pos: Vector { x: 0, y: -400 },
            size: Vector { x: 100, y: 100 },
            tag: BlockTag::Door { is_open: false, connects_to: c(2, 3) },
        }
    );
    // west door: row 4, column 0, to the room on the left
    assert_eq!(
        *found[1],
        Obstacle {
            pos: Vector { x: -700, y: 0 },
            size: Vector { x: 100, y: 100 },
            tag: BlockTag::Door { is_open: false, connects_to: c(3, 2) },
        }
    );
    assert_eq!(room.obstacles.len(), 45);
    assert_eq!(room.grid.get(0, 7), BLOCKED);
    assert_eq!(room.grid.get(1, 7), 3);
}

#[test]
fn room_obstacles_follow_the_draws() {
    let draws: Vec<usize> = vec![0, 0, 0, 14, 90, 45, 45, 1, 13];
    let room = Room::generate(0, &no_doors(), &draws, 3, 1500, 900);
    // tries: 14 -> (2, 2); 90 -> (7, 13); 45 -> (4, 7), the centre, refused;
    // 45 again; 1 -> (1, 2); 13 -> (2, 1) would cut (1, 1) off, refused
    assert!(room.grid.is_blocked(2, 2));
    assert!(room.grid.is_blocked(7, 13));
    assert!(room.grid.is_blocked(1, 2));
    assert!(!room.grid.is_blocked(2, 1));
    assert!(!room.grid.is_blocked(4, 7));
    assert_eq!(room.obstacles.len(), 44 + 3);
    assert!(room.grid.all_reached());
    // from (1, 1) down the first column and along the centre's row
    assert_eq!(room.grid.get(1, 1), 3 + 6);
    // from (1, 3) the way down leads around the stone on (2, 2)
    assert_eq!(room.grid.get(1, 3), 3 + 4);
}

#[test]
fn doors_open_and_close() {
    let mut doors = no_doors();
    doors[4 * 24 + 2] = true;
    let mut room = Room::generate(24, &doors, &Vec::new(), 64, 1500, 900);
    let before = room.obstacles.clone();
    room.set_doors(true);
    assert_eq!(room.obstacles.len(), before.len());
    for (now, was) in room.obstacles.iter().zip(before.iter()) {
        match was.tag {
            BlockTag::Door { connects_to, .. } => {
                assert_eq!(now.tag, BlockTag::Door { is_open: true, connects_to });
                assert_eq!(connects_to, c(3, 4));
                assert_eq!(now.passage(), Some(c(3, 4)));
            }
            _ => assert_eq!(now, was),
        }
        assert_eq!(now.pos, was.pos);
        assert_eq!(now.size, was.size);
    }
    room.set_doors(false);
    assert_eq!(room.obstacles, before);
}

#[test]
fn start_room_is_in_the_middle() {
    assert_eq!(Dungeon::get_start_room_coords(), c(3, 3));
    let d = Dungeon::generate_from(&Vec::new(), 1500, 900);
    assert_eq!(d.room_coords(0), c(3, 3));
    assert!(d.get_room(c(3, 3)).is_ok());
}

#[test]
fn dungeon_follows_the_draws() {
    let mut draws: Vec<usize> = vec![2, 7, 1];
    draws.resize(64, 4 * 3 + 4);
    let d = Dungeon::generate_from(&draws, 1500, 900);
    // rooms 24, 25, 18, 31, then the draw 16 picks room 4 % 4 = 0 and the
    // west side: 23; after that room 4 % 5 = 4 and west: 22; from then on
    // room 4 % 6 = 4 again, whose west side is taken
    let coords: Vec<Coords> = (0..d.room_count()).map(|i| d.room_coords(i)).collect();
    assert_eq!(d.room_count(), 6);
    assert_eq!(coords, vec![c(3, 3), c(3, 4), c(2, 4), c(4, 3), c(3, 2), c(3, 1)]);
    let start = d.get_room(c(3, 3)).unwrap();
    let mut leads: Vec<Coords> = start
        .obstacles
        .iter()
        .filter_map(|o| match o.tag {
            BlockTag::Door { connects_to, .. } => Some(connects_to),
            _ => None,
        })
        .collect();
    leads.sort_by_key(|k| (k.row, k.col));
    assert_eq!(leads, vec![c(3, 2), c(3, 4), c(4, 3)]);
    assert!(d.is_connected());
}

#[test]
fn missing_room_is_not_found() {
    let d = Dungeon::generate_from(&vec![2, 7, 1], 1500, 900);
    assert_eq!(d.get_room(c(0, 0)).err(), Some(DungeonError::RoomNotFound));
    assert_eq!(d.get_room(c(7, 7)).err(), Some(DungeonError::RoomNotFound));
    assert_eq!(d.get_room(c(usize::MAX, 3)).err(), Some(DungeonError::RoomNotFound));
    let mut d = d;
    assert_eq!(d.get_room_mut(c(0, 0)).err(), Some(DungeonError::RoomNotFound));
    assert!(d.get_room_mut(c(3, 4)).is_ok());
}

#[test]
fn generated_dungeon_is_connected() {
    for _ in 0..20 {
        let d = Dungeon::generate_dungeon((1500, 900));
        assert!(d.room_count() >= 1 && d.room_count() <= 10);
        assert_eq!(d.room_coords(0), Dungeon::get_start_room_coords());
        assert!(d.is_connected());
        // a traversal over door edges from the start visits every room
        let mut visited = vec![Dungeon::get_start_room_coords()];
        let mut next = 0;
        while next < visited.len() {
            let room = d.get_room(visited[next]).unwrap();
            for o in room.obstacles.iter() {
                if let BlockTag::Door { connects_to, .. } = o.tag {
                    // every door leads to a room, and that room has a door back
                    let other = d.get_room(connects_to).unwrap();
                    assert!(other.obstacles.iter().any(|b| matches!(
                        b.tag,
                        BlockTag::Door { connects_to: back, .. } if back == room.coords
                    )));
                    if !visited.contains(&connects_to) {
                        visited.push(connects_to);
                    }
                }
            }
            next += 1;
        }
        assert_eq!(visited.len(), d.room_count());
        for i in 0..d.room_count() {
            assert!(visited.contains(&d.room_coords(i)));
        }
    }
}

#[test]
fn generated_rooms_keep_their_open_cells_connected() {
    let d = Dungeon::generate_dungeon((1000, 700));
    for i in 0..d.room_count() {
        let room = d.get_room(d.room_coords(i)).unwrap();
        assert_eq!(room.coords, d.room_coords(i));
        assert!(room.grid.all_reached());
        for row in 0..ROOM_HEIGHT {
            for col in 0..ROOM_WIDTH {
                let border = row == 0 || col == 0 || row == ROOM_HEIGHT - 1 || col == ROOM_WIDTH - 1;
                let value = room.grid.get(row, col);
                if border {
                    assert_eq!(value, BLOCKED);
                } else {
                    assert!(value == BLOCKED || (value >= 0 && value != UNREACHED));
                }
            }
        }
        for (row, col) in [(4usize, 7usize), (4, 1), (7, 7), (4, 13), (1, 7)] {
            assert!(!room.grid.is_blocked(row, col));
        }
        let blocked = (0..ROOM_HEIGHT)
            .flat_map(|row| (0..ROOM_WIDTH).map(move |col| (row, col)))
            .filter(|(row, col)| room.grid.is_blocked(*row, *col))
            .count();
        assert_eq!(room.obstacles.len(), blocked);
        assert!(blocked >= 44 && blocked <= 44 + 6);
    }
}

#[test]
fn same_draws_give_the_same_dungeon() {
    let draws: Vec<usize> = (0..124).map(|n| (n * 7919 + 13) % 1_048_576).collect();
    let a = Dungeon::generate_from(&draws, 1500, 900);
    let b = Dungeon::generate_from(&draws, 1500, 900);
    assert_eq!(a.room_count(), b.room_count());
    assert!(a.room_count() > 1);
    for i in 0..a.room_count() {
        assert_eq!(a.room_coords(i), b.room_coords(i));
        let ra = a.get_room(a.room_coords(i)).unwrap();
        let rb = b.get_room(b.room_coords(i)).unwrap();
        assert_eq!(ra.obstacles, rb.obstacles);
        for row in 0..ROOM_HEIGHT {
            for col in 0..ROOM_WIDTH {
                assert_eq!(ra.grid.get(row, col), rb.grid.get(row, col));
            }
        }
    }
}

#[test]
fn tampered_dungeon_fails_the_connectivity_check() {
    let mut d = Dungeon::generate_from(&vec![2, 7, 1], 1500, 900);
    assert_eq!(d.room_count(), 5);
    assert!(d.is_connected());
    // wall up the start room
    let start = d.get_room_mut(c(3, 3)).unwrap();
    for o in start.obstacles.iter_mut() {
        o.tag = BlockTag::Wall;
    }
    assert!(!d.is_connected());
    let one = Dungeon::generate_from(&vec![3; 64], 1500, 900);
    assert!(one.is_connected());
}

#[test]
fn field_of_a_room_can_be_recomputed_for_the_player() {
    let mut d = Dungeon::generate_from(&vec![2, 7, 1], 1500, 900);
    let room = d.get_room_mut(c(3, 4)).unwrap();
    room.grid.flood_fill(7, 13);
    assert_eq!(room.grid.get(7, 13), 0);
    assert_eq!(d.get_room(c(3, 4)).unwrap().grid.get(7, 13), 0);
    assert_eq!(d.get_room(c(3, 3)).unwrap().grid.get(4, 7), 0);
}

#[test]
fn generated_rooms_hold_no_enemies_and_no_shots() {
    let d = Dungeon::generate_dungeon((1500, 900));
    for i in 0..d.room_count() {
        let room = d.get_room(d.room_coords(i)).unwrap();
        assert!(room.enemies.is_empty());
        assert!(room.shots.is_empty());
    }
}

#[test]
fn enemy_is_put_in_the_middle_of_the_cell_that_the_draw_picks() {
    let size = Vector { x: 80, y: 80 };
    let mut room = Room::generate(24, &no_doors(), &Vec::new(), 64, 1500, 900);
    // zero draws have put a stone on (1, 1), the cell of the draw 0
    assert!(!room.spawn_enemy(0, size, 1500, 900));
    assert!(room.enemies.is_empty());
    // the draw 14 picks (2, 2)
    assert!(room.spawn_enemy(14, size, 1500, 900));
    assert_eq!(room.enemies, vec![Body { pos: Vector { x: -500, y: -200 }, size }]);
    // the centre and the cells before the doors stay free
    for (row, col) in [(4usize, 7usize), (4, 1), (7, 7), (4, 13), (1, 7)] {
        assert!(!room.spawn_enemy((row - 1) * 13 + (col - 1), size, 1500, 900));
    }
    // the draw 91 + 90 picks (7, 13); a cell can hold more than one
    assert!(room.spawn_enemy(181, size, 1500, 900));
    assert!(room.spawn_enemy(90, size, 1500, 900));
    assert_eq!(room.enemies.len(), 3);
    assert_eq!(room.enemies[1], Body { pos: Vector { x: 600, y: 300 }, size });
    assert_eq!(room.enemies[2], room.enemies[1]);
    assert_eq!(room.obstacles.len(), 45);
    assert!(room.shots.is_empty());
}

#[test]
fn populated_room_has_its_enemies_on_open_cells() {
    let size = Vector { x: 80, y: 80 };
    let mut d = Dungeon::generate_dungeon((1500, 900));
    let coords = d.room_coords(d.room_count() - 1);
    let before = d.get_room(coords).unwrap().obstacles.clone();
    let room = d.get_room_mut(coords).unwrap();
    room.populate(40, size, 1500, 900);
    assert!(room.enemies.len() <= 40);
    assert!(!room.enemies.is_empty());
    assert_eq!(room.obstacles, before);
    for e in room.enemies.iter() {
        assert_eq!(e.size, size);
        assert_eq!((e.pos.x + 700) % 100, 0);
        assert_eq!((e.pos.y + 400) % 100, 0);
        let (row, col) = (((e.pos.y + 400) / 100) as usize, ((e.pos.x + 700) / 100) as usize);
        assert!(!room.grid.is_blocked(row, col));
        assert!(![(4usize, 7usize), (4, 1), (7, 7), (4, 13), (1, 7)].contains(&(row, col)));
    }
    room.populate(0, size, 1500, 900);
    // the other rooms are as they were
    for i in 0..d.room_count() {
        if d.room_coords(i) != coords {
            assert!(d.get_room(d.room_coords(i)).unwrap().enemies.is_empty());
        }
    }
}
