use arena_core::behavior::{
    decide_wander, find_path, track_target, viable_headings, wander, FieldTarget, Heading,
    WanderStep,
};
use arena_core::geometry::Vector;
use arena_core::grid::{Grid, BLOCKED, ROOM_HEIGHT, ROOM_WIDTH, UNREACHED};
use arena_core::layout::{cell_size, is_in_room, pos_to_room_coords, room_coords_to_pos};

fn walled_grid() -> Grid {
    let mut g = Grid::new();
    for row in 0..ROOM_HEIGHT {
        for col in 0..ROOM_WIDTH {
            if row == 0 || col == 0 || row == ROOM_HEIGHT - 1 || col == ROOM_WIDTH - 1 {
                g.block(row, col);
            }
        }
    }
    g
}

#[test]
fn new_grid_is_open() {
    let g = Grid::new();
    for row in 0..ROOM_HEIGHT {
        for col in 0..ROOM_WIDTH {
            assert_eq!(g.get(row, col), 0);
            assert!(!g.is_blocked(row, col));
        }
    }
}

#[test]
fn block_and_clear_change_one_cell() {
    let mut g = Grid::new();
    g.block(2, 3);
    assert_eq!(g.get(2, 3), BLOCKED);
    assert!(g.is_blocked(2, 3));
    assert_eq!(g.get(3, 2), 0);
    assert_eq!(g.get(2, 4), 0);
    g.clear(2, 3);
    assert_eq!(g.get(2, 3), 0);
}

#[test]
fn flood_fill_counts_steps_on_an_open_grid() {
    let mut g = Grid::new();
    g.flood_fill(4, 7);
    for row in 0..ROOM_HEIGHT {
        for col in 0..ROOM_WIDTH {
            let steps = (row as i32 - 4).abs() + (col as i32 - 7).abs();
            assert_eq!(g.get(row, col), steps);
        }
    }
}

#[test]
fn flood_fill_goes_around_walls() {
    let mut g = walled_grid();
    // a wall across the room with a gap at the bottom
    for row in 1..7 {
        g.block(row, 5);
    }
    g.flood_fill(1, 1);
    assert_eq!(g.get(1, 1), 0);
    assert_eq!(g.get(1, 4), 3);
    assert_eq!(g.get(7, 4), 9);
    assert_eq!(g.get(7, 5), 10);
    assert_eq!(g.get(7, 6), 11);
    // up again on the far side
    assert_eq!(g.get(1, 6), 17);
    assert_eq!(g.get(1, 5), BLOCKED);
    assert_eq!(g.get(0, 0), BLOCKED);
}

#[test]
fn flood_fill_marks_cut_off_cells() {
    let mut g = walled_grid();
    for row in 1..8 {
        g.block(row, 5);
    }
    g.flood_fill(1, 1);
    assert_eq!(g.get(3, 3), 4);
    assert_eq!(g.get(1, 6), UNREACHED);
    assert_eq!(g.get(7, 13), UNREACHED);
    assert!(!g.all_reached());
    g.clear(4, 5);
    g.flood_fill(1, 1);
    assert_eq!(g.get(4, 6), 3 + 4 + 1);
    assert!(g.all_reached());
}

#[test]
fn flood_fill_is_recomputed_for_a_new_target() {
    let mut g = walled_grid();
    g.flood_fill(1, 1);
    assert_eq!(g.get(7, 13), 18);
    g.flood_fill(7, 13);
    assert_eq!(g.get(7, 13), 0);
    assert_eq!(g.get(1, 1), 18);
    assert_eq!(g.get(0, 5), BLOCKED);
}

#[test]
fn flood_fill_from_a_blocked_target_reaches_nothing() {
    let mut g = walled_grid();
    g.flood_fill(0, 0);
    assert_eq!(g.get(0, 0), BLOCKED);
    assert_eq!(g.get(1, 1), UNREACHED);
    assert_eq!(g.get(4, 7), UNREACHED);
}

#[test]
fn pursuit_descends_to_the_target() {
    let mut g = walled_grid();
    for row in 1..7 {
        g.block(row, 5);
    }
    g.flood_fill(1, 1);
    let (mut row, mut col) = (1usize, 6usize);
    let mut value = g.get(row, col);
    assert_eq!(value, 17);
    let mut steps = 0;
    while value > 0 {
        let (next_row, next_col) = g.next_cell(row, col);
        let next_value = g.get(next_row, next_col);
        assert_eq!(next_value, value - 1);
        assert!(next_value >= 0);
        assert_eq!(
            (next_row as i32 - row as i32).abs() + (next_col as i32 - col as i32).abs(),
            1
        );
        row = next_row;
        col = next_col;
        value = next_value;
        steps += 1;
    }
    assert_eq!(steps, 17);
    assert_eq!((row, col), (1, 1));
    assert_eq!(g.next_cell(1, 1), (1, 1));
}

#[test]
fn pursuit_prefers_west_then_south_then_east_then_north() {
    let mut g = Grid::new();
    g.flood_fill(4, 7);
    // from the south-east of the target, west and north both descend: west wins
    assert_eq!(g.next_cell(6, 9), (6, 8));
    // from the north-east, west and south descend: west wins
    assert_eq!(g.next_cell(2, 9), (2, 8));
    // from the north-west, south and east descend: south wins
    assert_eq!(g.next_cell(2, 5), (3, 5));
    // from the south-west, east and north descend: east wins
    assert_eq!(g.next_cell(6, 5), (6, 6));
    // straight below the target only north descends
    assert_eq!(g.next_cell(6, 7), (5, 7));
}

#[test]
fn pursuit_holds_where_the_field_leads_nowhere() {
    let mut g = walled_grid();
    for row in 1..8 {
        g.block(row, 5);
    }
    g.flood_fill(1, 1);
    assert_eq!(g.next_cell(3, 8), (3, 8));
    assert_eq!(g.next_cell(0, 0), (0, 0));
    assert_eq!(g.next_cell(1, 5), (1, 5));
}

#[test]
fn cells_and_positions_map_to_each_other() {
    let (sw, sh) = (1500u32, 900u32);
    assert_eq!(cell_size(sw, sh), Vector { x: 100, y: 100 });
    assert_eq!(room_coords_to_pos(0, 0, sw, sh), Vector { x: -700, y: -400 });
    assert_eq!(room_coords_to_pos(4, 7, sw, sh), Vector { x: 0, y: 0 });
    assert_eq!(room_coords_to_pos(8, 14, sw, sh), Vector { x: 700, y: 400 });
    for row in 0..ROOM_HEIGHT {
        for col in 0..ROOM_WIDTH {
            let pos = room_coords_to_pos(row, col, sw, sh);
            assert_eq!(pos_to_room_coords(pos, sw, sh), (row, col));
        }
    }
    assert_eq!(pos_to_room_coords(Vector { x: -750, y: -450 }, sw, sh), (0, 0));
    assert_eq!(pos_to_room_coords(Vector { x: -651, y: -351 }, sw, sh), (0, 0));
    assert_eq!(pos_to_room_coords(Vector { x: -650, y: -350 }, sw, sh), (1, 1));
    assert_eq!(pos_to_room_coords(Vector { x: 749, y: 449 }, sw, sh), (8, 14));
}

#[test]
fn cells_of_a_screen_that_does_not_divide_evenly() {
    let (sw, sh) = (1000u32, 700u32);
    // 66 by 77 units per cell: the room spans 990 by 693 units
    assert_eq!(cell_size(sw, sh), Vector { x: 66, y: 77 });
    assert_eq!(room_coords_to_pos(0, 0, sw, sh), Vector { x: -495 + 33, y: -346 + 38 });
    for row in 0..ROOM_HEIGHT {
        for col in 0..ROOM_WIDTH {
            let pos = room_coords_to_pos(row, col, sw, sh);
            assert_eq!(pos_to_room_coords(pos, sw, sh), (row, col));
        }
    }
    let (sw, sh) = (u32::MAX, u32::MAX);
    for row in 0..ROOM_HEIGHT {
        for col in 0..ROOM_WIDTH {
            let pos = room_coords_to_pos(row, col, sw, sh);
            assert_eq!(pos_to_room_coords(pos, sw, sh), (row, col));
        }
    }
}

#[test]
fn find_path_heads_for_the_next_cell_centre() {
    let (sw, sh) = (1500u32, 900u32);
    let mut g = Grid::new();
    g.flood_fill(4, 7);
    // an actor somewhere in cell (6, 9) heads for the centre of (6, 8)
    let goal = find_path(&g, Vector { x: 213, y: 187 }, sw, sh);
    assert_eq!(goal, Vector { x: 100, y: 200 });
    // an actor in the target cell holds its position
    let here = Vector { x: 13, y: -27 };
    assert_eq!(find_path(&g, here, sw, sh), here);
}

#[test]
fn headings_are_listed_west_south_east_north() {
    let g = Grid::new();
    assert_eq!(
        viable_headings(&g, 4, 7),
        vec![Heading::West, Heading::South, Heading::East, Heading::North]
    );
    assert_eq!(viable_headings(&g, 0, 0), vec![Heading::South, Heading::East]);
    assert_eq!(viable_headings(&g, 8, 14), vec![Heading::West, Heading::North]);
    let mut g = walled_grid();
    g.block(1, 2);
    assert_eq!(viable_headings(&g, 1, 1), vec![Heading::South]);
    g.block(2, 1);
    assert_eq!(viable_headings(&g, 1, 1), vec![]);
}

#[test]
fn heading_vectors() {
    assert_eq!(Heading::West.to_vector(), Vector { x: -1, y: 0 });
    assert_eq!(Heading::South.to_vector(), Vector { x: 0, y: 1 });
    assert_eq!(Heading::East.to_vector(), Vector { x: 1, y: 0 });
    assert_eq!(Heading::North.to_vector(), Vector { x: 0, y: -1 });
    for h in [Heading::West, Heading::South, Heading::East, Heading::North] {
        assert_eq!(Heading::from_vector(h.to_vector()), Some(h));
    }
    assert_eq!(Heading::from_vector(Vector { x: 0, y: 0 }), None);
    assert_eq!(Heading::from_vector(Vector { x: 1, y: 1 }), None);
    assert_eq!(Heading::from_vector(Vector { x: 2, y: 0 }), None);
}

#[test]
fn wanderer_keeps_a_viable_heading_during_cooldown() {
    let options = vec![Heading::West, Heading::East];
    let step = decide_wander(&options, Some(Heading::East), false, true, 0);
    assert_eq!(step, WanderStep { heading: Heading::East, rerolled: false });
}

#[test]
fn wanderer_rerolls_after_cooldown_only_by_chance() {
    let options = vec![Heading::West, Heading::East];
    let step = decide_wander(&options, Some(Heading::East), true, true, 0);
    assert_eq!(step, WanderStep { heading: Heading::West, rerolled: true });
    let step = decide_wander(&options, Some(Heading::East), true, false, 0);
    assert_eq!(step, WanderStep { heading: Heading::East, rerolled: false });
}

#[test]
fn wanderer_rerolls_at_once_when_blocked() {
    let options = vec![Heading::West, Heading::East];
    let step = decide_wander(&options, Some(Heading::North), false, false, 1);
    assert_eq!(step, WanderStep { heading: Heading::East, rerolled: true });
    let step = decide_wander(&options, None, false, false, 0);
    assert_eq!(step, WanderStep { heading: Heading::West, rerolled: true });
    let step = decide_wander(&options, None, true, false, 1);
    assert_eq!(step, WanderStep { heading: Heading::East, rerolled: true });
}

#[test]
fn walled_in_cell_has_no_heading_to_wander_to() {
    let mut g = walled_grid();
    g.block(1, 2);
    g.block(2, 1);
    // the wander query is for cells with an open neighbor: this is how to tell
    assert!(viable_headings(&g, 1, 1).is_empty());
    assert!(!viable_headings(&g, 1, 3).is_empty());
}

#[test]
fn wander_picks_among_the_open_headings() {
    let mut g = walled_grid();
    g.block(1, 2);
    // only south is open from (1, 1)
    for _ in 0..50 {
        let step = wander(&g, 1, 1, None, false);
        assert_eq!(step, WanderStep { heading: Heading::South, rerolled: true });
    }
    // in the corner (7, 13) west and north are open
    let mut seen_west = false;
    let mut seen_north = false;
    for _ in 0..200 {
        let step = wander(&g, 7, 13, Some(Heading::East), false);
        assert!(step.rerolled);
        match step.heading {
            Heading::West => seen_west = true,
            Heading::North => seen_north = true,
            other => panic!("not an open heading: {:?}", other),
        }
    }
    assert!(seen_west && seen_north);
}

#[test]
fn wander_keeps_course_while_the_cooldown_runs() {
    let g = walled_grid();
    for _ in 0..50 {
        let step = wander(&g, 4, 7, Some(Heading::North), false);
        assert_eq!(step, WanderStep { heading: Heading::North, rerolled: false });
    }
}

#[test]
fn wander_after_cooldown_rerolls_most_of_the_time() {
    let g = walled_grid();
    let mut rerolled = 0;
    for _ in 0..1000 {
        let step = wander(&g, 4, 7, Some(Heading::North), true);
        if step.rerolled {
            rerolled += 1;
        } else {
            assert_eq!(step.heading, Heading::North);
        }
    }
    // four in five on average
    assert!(rerolled > 600 && rerolled < 950);
}

#[test]
fn room_bounds() {
    let (sw, sh) = (1500u32, 900u32);
    assert!(is_in_room(Vector { x: 0, y: 0 }, sw, sh));
    assert!(is_in_room(Vector { x: -750, y: -450 }, sw, sh));
    assert!(is_in_room(Vector { x: 749, y: 449 }, sw, sh));
    assert!(!is_in_room(Vector { x: 750, y: 0 }, sw, sh));
    assert!(!is_in_room(Vector { x: 0, y: 450 }, sw, sh));
    assert!(!is_in_room(Vector { x: -751, y: 0 }, sw, sh));
    assert!(!is_in_room(Vector { x: 0, y: -451 }, sw, sh));
    // a screen with less than a unit per cell has no room
    assert!(!is_in_room(Vector { x: 0, y: 0 }, 14, 900));
    assert!(!is_in_room(Vector { x: 0, y: 0 }, 1500, 8));
    // the widest room spans -2147483647 ..= 2147483647 by -2147483646 ..= 2147483645
    assert!(!is_in_room(Vector { x: i32::MIN, y: 0 }, u32::MAX, u32::MAX));
    assert!(is_in_room(Vector { x: i32::MIN + 1, y: i32::MIN + 2 }, u32::MAX, u32::MAX));
    assert!(is_in_room(Vector { x: i32::MAX, y: i32::MAX - 2 }, u32::MAX, u32::MAX));
    assert!(!is_in_room(Vector { x: 0, y: i32::MAX - 1 }, u32::MAX, u32::MAX));
}

#[test]
fn field_is_recomputed_only_when_the_target_changes_cell() {
    let mut g = walled_grid();
    assert!(track_target(&mut g, FieldTarget::Unset, 1, 1));
    assert_eq!(g.get(1, 1), 0);
    assert_eq!(g.get(1, 3), 2);
    // a change of the walls goes unnoticed while the target stays
    g.block(1, 2);
    assert!(!track_target(&mut g, FieldTarget::Cell { row: 1, col: 1 }, 1, 1));
    assert_eq!(g.get(1, 3), 2);
    assert!(track_target(&mut g, FieldTarget::Cell { row: 1, col: 1 }, 1, 3));
    assert_eq!(g.get(1, 3), 0);
    assert_eq!(g.get(1, 1), 4);
    assert_eq!(g.get(1, 2), BLOCKED);
    assert!(track_target(&mut g, FieldTarget::Cell { row: 1, col: 3 }, 3, 1));
    assert_eq!(g.get(3, 1), 0);
}
