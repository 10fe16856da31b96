//! Grid addressing: the mapping between world positions and the cells of
//! a room. The room is centred on the world's origin, and a cell is
//! `screen width / ROOM_WIDTH` by `screen height / ROOM_HEIGHT` units.

use vstd::prelude::*;
use vstd::arithmetic::div_mod::lemma_fundamental_div_mod;
use vstd::arithmetic::div_mod::lemma_fundamental_div_mod_converse;
use crate::geometry::Vector;
use crate::grid::{ROOM_HEIGHT, ROOM_WIDTH};

verus! {

/// Extent of a cell along an axis of `screen` units that holds `count` cells.
pub open spec fn cell_extent(screen: u32, count: int) -> int {
    screen as int / count
}

/// The least coordinate of the room along an axis.
pub open spec fn room_start(screen: u32, count: int) -> int {
    -((count * cell_extent(screen, count)) / 2)
}

/// The coordinate `v` lies in the room along an axis.
pub open spec fn in_span(v: int, screen: u32, count: int) -> bool {
    room_start(screen, count) <= v < room_start(screen, count) + count * cell_extent(screen, count)
}

/// The index of the cell that holds the coordinate `v`.
pub open spec fn cell_index(v: int, screen: u32, count: int) -> int {
    (v - room_start(screen, count)) / cell_extent(screen, count)
}

/// The coordinate of the centre of the cell `index`.
pub open spec fn cell_centre(index: int, screen: u32, count: int) -> int {
    room_start(screen, count) + index * cell_extent(screen, count) + cell_extent(screen, count) / 2
}

/// The position lies in the room.
pub open spec fn in_room(pos: Vector, sw: u32, sh: u32) -> bool {
    in_span(pos.x as int, sw, ROOM_WIDTH as int) && in_span(pos.y as int, sh, ROOM_HEIGHT as int)
}

/// Along an axis with at least one unit per cell, the centre of a cell
/// lies in the room, in that cell; and a coordinate in the room lies in
/// the span of the cell that it is mapped to. So the mapping between cells
/// and their spans is one to one.
pub proof fn lemma_axis_round_trip(index: int, v: int, screen: u32, count: int)
    requires
        0 < count <= screen,
    ensures
        0 <= index < count ==> in_span(cell_centre(index, screen, count), screen, count)
            && cell_index(cell_centre(index, screen, count), screen, count) == index,
        in_span(v, screen, count) ==> {
            let i = cell_index(v, screen, count);
            let e = cell_extent(screen, count);
            0 <= i < count && room_start(screen, count) + i * e <= v < room_start(screen, count)
                + (i + 1) * e
        },
{
    let e = cell_extent(screen, count);
    let s = room_start(screen, count);
    lemma_fundamental_div_mod(screen as int, count);
    assert(e >= 1) by (nonlinear_arith)
        requires
            screen == count * e + (screen as int % count),
            0 <= screen as int % count < count,
            count <= screen,
    ;
    if 0 <= index < count {
        let c = cell_centre(index, screen, count);
        assert(0 <= e / 2 < e);
        lemma_fundamental_div_mod_converse(c - s, e, index, e / 2);
        assert(index * e + e / 2 < count * e) by (nonlinear_arith)
            requires
                0 <= index < count,
                0 <= e / 2 < e,
        ;
        assert(0 <= index * e) by (nonlinear_arith)
            requires
                0 <= index,
                0 <= e,
        ;
    }
    if in_span(v, screen, count) {
        let i = cell_index(v, screen, count);
        lemma_fundamental_div_mod(v - s, e);
        assert(0 <= i < count && i * e <= v - s < (i + 1) * e) by (nonlinear_arith)
            requires
                v - s == e * i + ((v - s) % e),
                0 <= (v - s) % e < e,
                0 <= v - s < count * e,
                e >= 1,
        ;
    }
}

/// Extent of a cell and start of the room along an axis.
fn axis(screen: u32, count: u32) -> (r: (i64, i64))
    requires
        0 < count <= 64,
    ensures
        r.0 == cell_extent(screen, count as int),
        r.1 == room_start(screen, count as int),
        0 <= r.0 <= 0xffff_ffff,
        0 <= count * r.0 <= 0xffff_ffff,
        -0x8000_0000 <= r.1 <= 0,
{
    let e: u32 = screen / count;
    proof {
        lemma_fundamental_div_mod(screen as int, count as int);
        assert(0 <= count * e <= screen) by (nonlinear_arith)
            requires
                screen == count * e + (screen as int % count as int),
                0 <= screen as int % count as int,
                e >= 0,
                count > 0,
        ;
    }
    let span: i64 = (count as i64) * (e as i64);
    (e as i64, -(span / 2))
}

/// The cell, as row and column, that holds the position `pos` of the room.
pub fn pos_to_room_coords(pos: Vector, sw: u32, sh: u32) -> (r: (usize, usize))
    requires
        in_room(pos, sw, sh),
    ensures
        r.0 < ROOM_HEIGHT,
        r.1 < ROOM_WIDTH,
        r.0 == cell_index(pos.y as int, sh, ROOM_HEIGHT as int),
        r.1 == cell_index(pos.x as int, sw, ROOM_WIDTH as int),
{
    let (ew, left): (i64, i64) = axis(sw, ROOM_WIDTH as u32);
    let (eh, top): (i64, i64) = axis(sh, ROOM_HEIGHT as u32);
    proof {
        lemma_index_in_range(pos.x as int, sw, ROOM_WIDTH as int);
        lemma_index_in_range(pos.y as int, sh, ROOM_HEIGHT as int);
    }
    let col: i64 = (pos.x as i64 - left) / ew;
    let row: i64 = (pos.y as i64 - top) / eh;
    (row as usize, col as usize)
}

/// A coordinate in the room is mapped to one of the axis's cells.
proof fn lemma_index_in_range(v: int, screen: u32, count: int)
    requires
        0 < count,
        in_span(v, screen, count),
    ensures
        cell_extent(screen, count) > 0,
        0 <= cell_index(v, screen, count) < count,
{
    let e = cell_extent(screen, count);
    let s = room_start(screen, count);
    assert(e > 0) by (nonlinear_arith)
        requires
            0 <= v - s < count * e,
            count > 0,
    ;
    lemma_fundamental_div_mod(v - s, e);
    let i = (v - s) / e;
    assert(0 <= i < count) by (nonlinear_arith)
        requires
            v - s == e * i + ((v - s) % e),
            0 <= (v - s) % e < e,
            0 <= v - s < count * e,
            e > 0,
    ;
}

/// The position of the centre of the cell at `row`, `col`.
pub fn room_coords_to_pos(row: usize, col: usize, sw: u32, sh: u32) -> (pos: Vector)
    requires
        row < ROOM_HEIGHT,
        col < ROOM_WIDTH,
    ensures
        pos.x == cell_centre(col as int, sw, ROOM_WIDTH as int),
        pos.y == cell_centre(row as int, sh, ROOM_HEIGHT as int),
{
    let (ew, left): (i64, i64) = axis(sw, ROOM_WIDTH as u32);
    let (eh, top): (i64, i64) = axis(sh, ROOM_HEIGHT as u32);
    proof {
        lemma_centre_fits(col as int, sw, ROOM_WIDTH as int);
        lemma_centre_fits(row as int, sh, ROOM_HEIGHT as int);
    }
    assert(0 <= col * ew <= 0xffff_ffff) by (nonlinear_arith)
        requires
            0 <= col < ROOM_WIDTH,
            0 <= ew,
            ROOM_WIDTH * ew <= 0xffff_ffff,
    ;
    assert(0 <= row * eh <= 0xffff_ffff) by (nonlinear_arith)
        requires
            0 <= row < ROOM_HEIGHT,
            0 <= eh,
            ROOM_HEIGHT * eh <= 0xffff_ffff,
    ;
    let x: i64 = left + (col as i64) * ew + ew / 2;
    let y: i64 = top + (row as i64) * eh + eh / 2;
    Vector { x: x as i32, y: y as i32 }
}

/// The centre of a cell is a 32-bit coordinate.
proof fn lemma_centre_fits(index: int, screen: u32, count: int)
    requires
        0 <= index < count,
    ensures
        -0x8000_0000 <= cell_centre(index, screen, count) <= 0x7fff_ffff,
{
    let e = cell_extent(screen, count);
    let s = room_start(screen, count);
    lemma_fundamental_div_mod(screen as int, count);
    assert(0 <= e && 0 <= count * e <= screen) by (nonlinear_arith)
        requires
            screen == count * e + (screen as int % count),
            0 <= screen as int % count < count,
            count > 0,
            screen >= 0,
    ;
    assert(0 <= index * e && index * e + e <= count * e) by (nonlinear_arith)
        requires
            0 <= index < count,
            0 <= e,
    ;
    let n = count * e;
    let m = index * e;
    assert(s == -(n / 2));
    assert(0 <= n <= 0xffff_ffff);
    assert(cell_centre(index, screen, count) == s + m + e / 2);
    if e == 0 {
        assert(n == 0 && m == 0) by (nonlinear_arith)
            requires
                n == count * e,
                m == index * e,
                e == 0,
        ;
    }
}

/// The extents of a cell.
pub fn cell_size(sw: u32, sh: u32) -> (size: Vector)
    ensures
        size.x == cell_extent(sw, ROOM_WIDTH as int),
        size.y == cell_extent(sh, ROOM_HEIGHT as int),
{
    Vector { x: (sw / (ROOM_WIDTH as u32)) as i32, y: (sh / (ROOM_HEIGHT as u32)) as i32 }
}

/// Whether the position lies in the room.
pub fn is_in_room(pos: Vector, sw: u32, sh: u32) -> (b: bool)
    ensures
        b == in_room(pos, sw, sh),
{
    let (ew, left): (i64, i64) = axis(sw, ROOM_WIDTH as u32);
    let (eh, top): (i64, i64) = axis(sh, ROOM_HEIGHT as u32);
    let x: i64 = pos.x as i64;
    let y: i64 = pos.y as i64;
    left <= x && x < left + (ROOM_WIDTH as i64) * ew && top <= y && y < top + (ROOM_HEIGHT as i64)
        * eh
}

} // verus!
