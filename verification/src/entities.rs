//! What stands and moves in a room, as far as the spatial core reads it:
//! positions, extents and the tags that decide how a contact is resolved.

use vstd::prelude::*;
use crate::geometry::{Rect, Vector};

verus! {

/// Coordinate of a room in the dungeon.
#[derive(Clone, Copy, Debug, PartialEq, Eq, Structural)]
pub struct Coords {
    pub row: usize,
    pub col: usize,
}

/// The kind of a stationary obstacle.
#[derive(Clone, Copy, Debug, PartialEq, Eq, Structural)]
pub enum BlockTag {
    Wall,
    Stone,
    Spikes,
    /// A door to the room at `connects_to`. A closed door is as solid as a wall.
    Door { is_open: bool, connects_to: Coords },
}

/// A stationary obstacle: the centre of its box, the box's extents, its kind.
#[derive(Clone, Copy, Debug, PartialEq, Eq, Structural)]
pub struct Obstacle {
    pub pos: Vector,
    pub size: Vector,
    pub tag: BlockTag,
}

/// Who fired a projectile.
#[derive(Clone, Copy, Debug, PartialEq, Eq, Structural)]
pub enum ShotTag {
    Player,
    Enemy,
}

/// A projectile in flight.
#[derive(Clone, Copy, Debug, PartialEq, Eq, Structural)]
pub struct Shot {
    pub pos: Vector,
    pub size: Vector,
    pub tag: ShotTag,
}

/// A moving actor: the centre of its box and the box's extents.
#[derive(Clone, Copy, Debug, PartialEq, Eq, Structural)]
pub struct Body {
    pub pos: Vector,
    pub size: Vector,
}

/// The nearest 32-bit value.
pub open spec fn clamped(v: int) -> int {
    if v < i32::MIN {
        i32::MIN as int
    } else if v > i32::MAX {
        i32::MAX as int
    } else {
        v
    }
}

/// The nearest 32-bit value.
pub fn clamp(v: i64) -> (r: i32)
    ensures
        r == clamped(v as int),
{
    if v < i32::MIN as i64 {
        i32::MIN
    } else if v > i32::MAX as i64 {
        i32::MAX
    } else {
        v as i32
    }
}

/// Half of a positive extent, rounded down; zero for any other.
pub open spec fn half(extent: int) -> int {
    if extent > 0 {
        extent / 2
    } else {
        0
    }
}

/// The box of the given extents around `pos`, its corner clamped to the
/// coordinates that exist.
pub open spec fn box_around(pos: Vector, size: Vector) -> Rect {
    Rect {
        x: clamped(pos.x - half(size.x as int)) as i32,
        y: clamped(pos.y - half(size.y as int)) as i32,
        w: size.x,
        h: size.y,
    }
}

/// The bounding box of extents `size` centred on `pos`.
pub fn bounding_box(pos: Vector, size: Vector) -> (r: Rect)
    ensures
        r == box_around(pos, size),
{
    let hx: i64 = if size.x > 0 { (size.x / 2) as i64 } else { 0 };
    let hy: i64 = if size.y > 0 { (size.y / 2) as i64 } else { 0 };
    Rect { x: clamp(pos.x as i64 - hx), y: clamp(pos.y as i64 - hy), w: size.x, h: size.y }
}

/// The bounding circle of a box of extents `size` centred on `pos`: the
/// centre, and as radius half of the smaller extent, zero for a box
/// without extent.
pub fn bounding_circle(pos: Vector, size: Vector) -> (r: (Vector, i32))
    ensures
        r.0 == pos,
        r.1 == half(if size.x <= size.y { size.x as int } else { size.y as int }),
{
    let smaller: i32 = if size.x <= size.y { size.x } else { size.y };
    (pos, if smaller > 0 { smaller / 2 } else { 0 })
}

/// The position mirrored through the room's centre, the world's origin.
pub open spec fn mirrored(pos: Vector) -> Vector {
    Vector { x: clamped(-(pos.x as int)) as i32, y: clamped(-(pos.y as int)) as i32 }
}

/// The position on the far side of the room: `pos` mirrored through the
/// room's centre.
pub fn mirror(pos: Vector) -> (r: Vector)
    ensures
        r == mirrored(pos),
{
    Vector { x: clamp(-(pos.x as i64)), y: clamp(-(pos.y as i64)) }
}

impl Obstacle {
    /// The obstacle's bounding box.
    pub open spec fn spec_bbox(self) -> Rect {
        box_around(self.pos, self.size)
    }

    /// The obstacle's bounding box.
    pub fn get_bbox(&self) -> (r: Rect)
        ensures
            r == self.spec_bbox(),
    {
        bounding_box(self.pos, self.size)
    }

    /// The room that an actor enters by touching this obstacle: that of an open door.
    pub open spec fn leads_to(self) -> Option<Coords> {
        match self.tag {
            BlockTag::Door { is_open, connects_to } => if is_open {
                Some(connects_to)
            } else {
                None
            },
            _ => None,
        }
    }

    /// The room behind this obstacle, if it is an open door.
    pub fn passage(&self) -> (r: Option<Coords>)
        ensures
            r == self.leads_to(),
    {
        match self.tag {
            BlockTag::Door { is_open, connects_to } => if is_open {
                Some(connects_to)
            } else {
                None
            },
            _ => None,
        }
    }
}

impl Shot {
    pub open spec fn spec_bbox(self) -> Rect {
        box_around(self.pos, self.size)
    }

    /// The projectile's bounding box.
    pub fn get_bbox(&self) -> (r: Rect)
        ensures
            r == self.spec_bbox(),
    {
        bounding_box(self.pos, self.size)
    }
}

impl Body {
    pub open spec fn spec_bbox(self) -> Rect {
        box_around(self.pos, self.size)
    }

    /// The actor's bounding box.
    pub fn get_bbox(&self) -> (r: Rect)
        ensures
            r == self.spec_bbox(),
    {
        bounding_box(self.pos, self.size)
    }
}

} // verus!
