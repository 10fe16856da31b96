//! Geometry kernel: rectangle overlap, ray against rectangle, and swept
//! rectangle against rectangle, all on integer coordinates with exact
//! fractional times of impact.

use vstd::prelude::*;
use vstd::arithmetic::div_mod::lemma_fundamental_div_mod;
use vstd::arithmetic::div_mod::lemma_fundamental_div_mod_converse;

verus! {

/// A position or displacement in world units.
#[derive(Clone, Copy, Debug, PartialEq, Eq, Structural)]
pub struct Vector {
    pub x: i32,
    pub y: i32,
}

/// An axis-aligned rectangle: top-left corner and extents.
/// A rectangle with a non-positive extent is degenerate and collides with nothing.
#[derive(Clone, Copy, Debug, PartialEq, Eq, Structural)]
pub struct Rect {
    pub x: i32,
    pub y: i32,
    pub w: i32,
    pub h: i32,
}

/// A fraction of a tick, `num / den`.
#[derive(Clone, Copy, Debug, PartialEq, Eq, Structural)]
pub struct Time {
    pub num: i64,
    pub den: i64,
}

/// First contact of a ray or a moving rectangle with a rectangle.
#[derive(Clone, Copy, Debug, PartialEq, Eq, Structural)]
pub struct Contact {
    /// Where the ray's point (the moving rectangle's corner) is at contact,
    /// each coordinate rounded down.
    pub x: i64,
    pub y: i64,
    /// The cardinal unit vector that points away from the face that was hit.
    pub normal: Vector,
    /// The time of impact, within `[0, 1]`.
    pub time: Time,
}

/// One axis of a ray cast: the origin `o`, the direction `d`, and the
/// closed interval `[lo, hi]` that the rectangle covers on this axis.
pub struct Slab {
    pub o: int,
    pub d: int,
    pub lo: int,
    pub hi: int,
}

impl Vector {
    /// One of the four unit vectors along the axes.
    pub open spec fn cardinal(self) -> bool {
        (self.x == 0 && (self.y == 1 || self.y == -1)) || (self.y == 0 && (self.x == 1 || self.x
            == -1))
    }
}

impl Rect {
    pub open spec fn left(self) -> int {
        self.x as int
    }

    pub open spec fn right(self) -> int {
        self.x + self.w
    }

    pub open spec fn top(self) -> int {
        self.y as int
    }

    pub open spec fn bottom(self) -> int {
        self.y + self.h
    }

    /// Both extents are positive.
    pub open spec fn solid(self) -> bool {
        self.w > 0 && self.h > 0
    }

    /// The two rectangles are solid and share at least one point, edges included.
    pub open spec fn touches(self, other: Rect) -> bool {
        &&& self.solid()
        &&& other.solid()
        &&& self.left() <= other.right()
        &&& other.left() <= self.right()
        &&& self.top() <= other.bottom()
        &&& other.top() <= self.bottom()
    }

    /// The point `(px, py)` lies in the rectangle, edges included.
    pub open spec fn holds(self, px: int, py: int) -> bool {
        self.left() <= px <= self.right() && self.top() <= py <= self.bottom()
    }
}

impl Time {
    /// A time within one tick: `0 <= num / den <= 1`.
    pub open spec fn wf(self) -> bool {
        self.den > 0 && 0 <= self.num <= self.den
    }

    /// `self` is strictly earlier than `other` (both denominators positive).
    pub open spec fn earlier(self, other: Time) -> bool {
        self.num * other.den < other.num * self.den
    }

    /// `self` and `other` are the same instant (both denominators positive).
    pub open spec fn same(self, other: Time) -> bool {
        self.num * other.den == other.num * self.den
    }

    /// Whether `self` is strictly earlier than `other`.
    pub fn is_earlier(&self, other: &Time) -> (r: bool)
        ensures
            r == self.earlier(*other),
    {
        let a: i128 = wide_product(self.num, other.den);
        let b: i128 = wide_product(other.num, self.den);
        a < b
    }

    /// Whether `self` and `other` are the same instant.
    pub fn is_same(&self, other: &Time) -> (r: bool)
        ensures
            r == self.same(*other),
    {
        let a: i128 = wide_product(self.num, other.den);
        let b: i128 = wide_product(other.num, self.den);
        a == b
    }
}

/// The product of two 64-bit integers, which always fits in 128 bits.
fn wide_product(a: i64, b: i64) -> (p: i128)
    ensures
        p == a * b,
{
    assert(-0x4000_0000_0000_0000_0000_0000_0000_0000 <= a * b
        <= 0x4000_0000_0000_0000_0000_0000_0000_0000) by (nonlinear_arith)
        requires
            -0x8000_0000_0000_0000 <= a <= 0x7fff_ffff_ffff_ffff,
            -0x8000_0000_0000_0000 <= b <= 0x7fff_ffff_ffff_ffff,
    ;
    let wa: i128 = a as i128;
    let wb: i128 = b as i128;
    wa * wb
}

/// True iff both rectangles are solid and intersect, edges included.
pub fn rect_overlaps(a: &Rect, b: &Rect) -> (hit: bool)
    ensures
        hit == a.touches(*b),
{
    if a.w <= 0 || a.h <= 0 || b.w <= 0 || b.h <= 0 {
        return false;
    }
    let al: i64 = a.x as i64;
    let ar: i64 = a.x as i64 + a.w as i64;
    let at: i64 = a.y as i64;
    let ab: i64 = a.y as i64 + a.h as i64;
    let bl: i64 = b.x as i64;
    let br: i64 = b.x as i64 + b.w as i64;
    let bt: i64 = b.y as i64;
    let bb: i64 = b.y as i64 + b.h as i64;
    al <= br && bl <= ar && at <= bb && bt <= ab
}

impl Slab {
    /// The ray moves along this axis.
    pub open spec fn moving(self) -> bool {
        self.d != 0
    }

    /// The magnitude of the direction: the denominator of this axis's times.
    pub open spec fn speed(self) -> int {
        if self.d < 0 {
            -self.d
        } else {
            self.d
        }
    }

    /// Numerator of the time at which the ray enters the interval.
    pub open spec fn entry(self) -> int {
        if self.d > 0 {
            self.lo - self.o
        } else {
            self.o - self.hi
        }
    }

    /// Numerator of the time at which the ray leaves the interval.
    pub open spec fn exit(self) -> int {
        if self.d > 0 {
            self.hi - self.o
        } else {
            self.o - self.lo
        }
    }

    /// The origin lies within the interval, ends included.
    pub open spec fn covers_origin(self) -> bool {
        self.lo <= self.o <= self.hi
    }

    /// The origin lies strictly within the interval.
    pub open spec fn strictly_covers_origin(self) -> bool {
        self.lo < self.o < self.hi
    }

    /// At time `num / den` (`den > 0`) the ray's coordinate lies within the
    /// interval, ends included.
    pub open spec fn inside_at(self, num: int, den: int) -> bool {
        self.lo * den <= self.o * den + self.d * num <= self.hi * den
    }

    /// At time `num / den` (`den > 0`) the ray's coordinate lies strictly
    /// within the interval.
    pub open spec fn strictly_inside_at(self, num: int, den: int) -> bool {
        self.lo * den < self.o * den + self.d * num < self.hi * den
    }

    /// The ray's coordinate at time `num / den`, rounded down.
    pub open spec fn position_at(self, num: int, den: int) -> int {
        self.o + (self.d * num) / den
    }

    /// The component of the unit normal of the face that a ray moving along
    /// this axis hits first: it points against the direction.
    pub open spec fn facing(self) -> int {
        if self.d > 0 {
            -1
        } else {
            1
        }
    }
}

/// The horizontal axis decides the time of first contact: it is the axis
/// that the ray enters last. When both axes are entered at the same
/// instant the horizontal axis is taken.
pub open spec fn horizontal_blocks(sx: Slab, sy: Slab) -> bool {
    sx.moving() && (!sy.moving() || sx.entry() * sy.speed() >= sy.entry() * sx.speed())
}

/// Numerator of the time of first contact.
pub open spec fn contact_num(sx: Slab, sy: Slab) -> int {
    if horizontal_blocks(sx, sy) {
        sx.entry()
    } else {
        sy.entry()
    }
}

/// Denominator of the time of first contact.
pub open spec fn contact_den(sx: Slab, sy: Slab) -> int {
    if horizontal_blocks(sx, sy) {
        sx.speed()
    } else {
        sy.speed()
    }
}

/// The ray given by the two axes meets the rectangle within its length:
/// the rectangle has positive extents, the ray moves, an axis along which
/// it does not move covers the origin, no axis is left before the other is
/// entered, and the time of first contact lies in `[0, 1]`.
pub open spec fn ray_hits(sx: Slab, sy: Slab) -> bool {
    &&& sx.lo < sx.hi
    &&& sy.lo < sy.hi
    &&& sx.moving() || sy.moving()
    &&& !sx.moving() ==> sx.covers_origin()
    &&& !sy.moving() ==> sy.covers_origin()
    &&& sx.moving() && sy.moving() ==> sx.entry() * sy.speed() <= sy.exit() * sx.speed()
    &&& sx.moving() && sy.moving() ==> sy.entry() * sx.speed() <= sx.exit() * sy.speed()
    &&& 0 <= contact_num(sx, sy) <= contact_den(sx, sy)
}

/// The contact that a hitting ray makes.
pub open spec fn ray_contact(sx: Slab, sy: Slab) -> Contact {
    let num = contact_num(sx, sy);
    let den = contact_den(sx, sy);
    Contact {
        x: sx.position_at(num, den) as i64,
        y: sy.position_at(num, den) as i64,
        normal: if horizontal_blocks(sx, sy) {
            Vector { x: sx.facing() as i32, y: 0 }
        } else {
            Vector { x: 0, y: sy.facing() as i32 }
        },
        time: Time { num: num as i64, den: den as i64 },
    }
}

/// The contact holds the time and the position of the cast without loss:
/// the time is the fraction `contact_num / contact_den`, within `[0, 1]`;
/// the position is that of the ray at this time, rounded down, and it
/// lies in the rectangle; the normal is a unit vector along an axis.
pub open spec fn faithful(c: Contact, sx: Slab, sy: Slab) -> bool {
    &&& c.time.num == contact_num(sx, sy)
    &&& c.time.den == contact_den(sx, sy)
    &&& c.time.wf()
    &&& c.x == sx.position_at(contact_num(sx, sy), contact_den(sx, sy))
    &&& c.y == sy.position_at(contact_num(sx, sy), contact_den(sx, sy))
    &&& sx.lo <= c.x <= sx.hi
    &&& sy.lo <= c.y <= sy.hi
    &&& c.normal.cardinal()
}

/// What a ray cast returns: the contact if the ray hits, nothing otherwise.
pub open spec fn ray_cast(sx: Slab, sy: Slab) -> Option<Contact> {
    if ray_hits(sx, sy) {
        Some(ray_contact(sx, sy))
    } else {
        None
    }
}

/// Bound on the coordinates that the ray core works on: large enough for
/// sums and differences of two 32-bit values.
pub open spec fn in_reach(v: int) -> bool {
    -0x2_0000_0000 <= v <= 0x2_0000_0000
}

proof fn lemma_product_fits(a: int, b: int)
    requires
        -0x8_0000_0000 <= a <= 0x8_0000_0000,
        -0x8000_0000_0000_0000 <= b <= 0x8000_0000_0000_0000,
    ensures
        -0x4_0000_0000_0000_0000_0000_0000 <= a * b <= 0x4_0000_0000_0000_0000_0000_0000,
{
    assert(-0x4_0000_0000_0000_0000_0000_0000 <= a * b <= 0x4_0000_0000_0000_0000_0000_0000)
        by (nonlinear_arith)
        requires
            -0x8_0000_0000 <= a <= 0x8_0000_0000,
            -0x8000_0000_0000_0000 <= b <= 0x8000_0000_0000_0000,
    ;
}

/// Product of a coordinate difference and a direction component.
fn scaled(a: i128, b: i128) -> (p: i128)
    requires
        -0x8_0000_0000 <= a <= 0x8_0000_0000,
        -0x8000_0000_0000_0000 <= b <= 0x8000_0000_0000_0000,
    ensures
        p == a * b,
        -0x4_0000_0000_0000_0000_0000_0000 <= p <= 0x4_0000_0000_0000_0000_0000_0000,
{
    proof {
        lemma_product_fits(a as int, b as int);
    }
    a * b
}

/// Quotient rounded down, for a positive divisor.
fn floor_div(a: i128, b: i128) -> (q: i128)
    requires
        b > 0,
        -0x4_0000_0000_0000_0000_0000_0000 <= a <= 0x4_0000_0000_0000_0000_0000_0000,
    ensures
        q == a / b,
{
    if a >= 0 {
        a / b
    } else {
        let m: i128 = -a;
        let q0: i128 = m / b;
        let r0: i128 = m % b;
        proof {
            lemma_fundamental_div_mod(m as int, b as int);
            assert(q0 * b == b * q0) by (nonlinear_arith);
            assert(0 <= q0 <= m) by (nonlinear_arith)
                requires
                    m == b * q0 + r0,
                    0 <= r0 < b,
                    m >= 0,
                    b > 0,
            ;
        }
        if r0 == 0 {
            proof {
                assert(a == (-q0) * b + 0) by (nonlinear_arith)
                    requires
                        m == b * q0 + r0,
                        r0 == 0,
                        a == -m,
                ;
                lemma_fundamental_div_mod_converse(a as int, b as int, -(q0 as int), 0);
            }
            -q0
        } else {
            proof {
                assert(a == (-q0 - 1) * b + (b - r0)) by (nonlinear_arith)
                    requires
                        m == b * q0 + r0,
                        a == -m,
                ;
                lemma_fundamental_div_mod_converse(
                    a as int,
                    b as int,
                    -(q0 as int) - 1,
                    b - r0,
                );
            }
            -q0 - 1
        }
    }
}

/// A quotient rounded down stays between two integers that bound the exact quotient.
proof fn lemma_floor_between(m: int, d: int, lo: int, hi: int)
    requires
        d > 0,
        lo * d <= m <= hi * d,
    ensures
        lo <= m / d <= hi,
{
    lemma_fundamental_div_mod(m, d);
    let q = m / d;
    let r = m % d;
    assert(lo <= q <= hi) by (nonlinear_arith)
        requires
            m == d * q + r,
            0 <= r < d,
            d > 0,
            lo * d <= m <= hi * d,
    ;
}

/// At the time of first contact the ray's point lies in the rectangle,
/// edges included.
pub proof fn lemma_contact_inside(sx: Slab, sy: Slab)
    requires
        ray_hits(sx, sy),
    ensures
        contact_den(sx, sy) > 0,
        sx.inside_at(contact_num(sx, sy), contact_den(sx, sy)),
        sy.inside_at(contact_num(sx, sy), contact_den(sx, sy)),
{
    let num = contact_num(sx, sy);
    let den = contact_den(sx, sy);
    if horizontal_blocks(sx, sy) {
        lemma_axis_inside(sx, sy);
    } else {
        lemma_axis_inside(sy, sx);
    }
}

/// `a` is the axis whose entry gives the time of contact, `b` the other one.
proof fn lemma_axis_inside(a: Slab, b: Slab)
    requires
        a.lo < a.hi,
        b.lo < b.hi,
        a.moving(),
        !b.moving() ==> b.covers_origin(),
        b.moving() ==> a.entry() * b.speed() >= b.entry() * a.speed(),
        b.moving() ==> a.entry() * b.speed() <= b.exit() * a.speed(),
        0 <= a.entry() <= a.speed(),
    ensures
        a.speed() > 0,
        a.inside_at(a.entry(), a.speed()),
        b.inside_at(a.entry(), a.speed()),
{
    let num = a.entry();
    let den = a.speed();
    assert(a.inside_at(num, den)) by (nonlinear_arith)
        requires
            a.lo < a.hi,
            a.d != 0,
            num == (if a.d > 0 { a.lo - a.o } else { a.o - a.hi }),
            den == (if a.d < 0 { -a.d } else { a.d }),
            a.inside_at(num, den) == (a.lo * den <= a.o * den + a.d * num <= a.hi * den),
    ;
    if b.moving() {
        let bn = b.entry();
        let bf = b.exit();
        let bs = b.speed();
        assert(b.inside_at(num, den)) by (nonlinear_arith)
            requires
                b.d != 0,
                den > 0,
                bn == (if b.d > 0 { b.lo - b.o } else { b.o - b.hi }),
                bf == (if b.d > 0 { b.hi - b.o } else { b.o - b.lo }),
                bs == (if b.d < 0 { -b.d } else { b.d }),
                num * bs >= bn * den,
                num * bs <= bf * den,
                b.inside_at(num, den) == (b.lo * den <= b.o * den + b.d * num <= b.hi * den),
        ;
    } else {
        assert(b.inside_at(num, den)) by (nonlinear_arith)
            requires
                b.d == 0,
                den > 0,
                b.lo <= b.o <= b.hi,
                b.inside_at(num, den) == (b.lo * den <= b.o * den + b.d * num <= b.hi * den),
        ;
    }
}

/// A coordinate that lies in the interval at some time is still in it
/// after rounding down.
proof fn lemma_position_in_interval(s: Slab, num: int, den: int)
    requires
        den > 0,
        s.inside_at(num, den),
    ensures
        s.lo <= s.position_at(num, den) <= s.hi,
{
    let m = s.d * num;
    assert((s.lo - s.o) * den <= m <= (s.hi - s.o) * den) by (nonlinear_arith)
        requires
            s.lo * den <= s.o * den + m <= s.hi * den,
    ;
    lemma_floor_between(m, den, s.lo - s.o, s.hi - s.o);
}

/// Casts the ray from `(ox, oy)` along `(dx, dy)` against the rectangle
/// `[x0, x1] x [y0, y1]`.
fn ray_core(ox: i64, oy: i64, dx: i64, dy: i64, x0: i64, y0: i64, x1: i64, y1: i64) -> (r: Option<
    Contact,
>)
    requires
        in_reach(ox as int),
        in_reach(oy as int),
        in_reach(x0 as int),
        in_reach(y0 as int),
        in_reach(x1 as int),
        in_reach(y1 as int),
        dx > i64::MIN,
        dy > i64::MIN,
    ensures
        r == ray_cast(
            Slab { o: ox as int, d: dx as int, lo: x0 as int, hi: x1 as int },
            Slab { o: oy as int, d: dy as int, lo: y0 as int, hi: y1 as int },
        ),
        r is Some ==> faithful(
            r->0,
            Slab { o: ox as int, d: dx as int, lo: x0 as int, hi: x1 as int },
            Slab { o: oy as int, d: dy as int, lo: y0 as int, hi: y1 as int },
        ),
{
    let ghost sx = Slab { o: ox as int, d: dx as int, lo: x0 as int, hi: x1 as int };
    let ghost sy = Slab { o: oy as int, d: dy as int, lo: y0 as int, hi: y1 as int };
    if x0 >= x1 || y0 >= y1 || (dx == 0 && dy == 0) {
        return None;
    }
    if dx == 0 && (ox < x0 || ox > x1) {
        return None;
    }
    if dy == 0 && (oy < y0 || oy > y1) {
        return None;
    }
    let ax: i128 = if dx < 0 { -(dx as i128) } else { dx as i128 };
    let ay: i128 = if dy < 0 { -(dy as i128) } else { dy as i128 };
    let nx: i128 = if dx > 0 { x0 as i128 - ox as i128 } else { ox as i128 - x1 as i128 };
    let fx: i128 = if dx > 0 { x1 as i128 - ox as i128 } else { ox as i128 - x0 as i128 };
    let ny: i128 = if dy > 0 { y0 as i128 - oy as i128 } else { oy as i128 - y1 as i128 };
    let fy: i128 = if dy > 0 { y1 as i128 - oy as i128 } else { oy as i128 - y0 as i128 };
    let nx_ay: i128 = scaled(nx, ay);
    let ny_ax: i128 = scaled(ny, ax);
    if dx != 0 && dy != 0 {
        let fy_ax: i128 = scaled(fy, ax);
        let fx_ay: i128 = scaled(fx, ay);
        if nx_ay > fy_ax || ny_ax > fx_ay {
            return None;
        }
    }
    let horizontal: bool = dx != 0 && (dy == 0 || nx_ay >= ny_ax);
    let num: i128 = if horizontal { nx } else { ny };
    let den: i128 = if horizontal { ax } else { ay };
    assert(horizontal == horizontal_blocks(sx, sy));
    assert(num == contact_num(sx, sy));
    assert(den == contact_den(sx, sy));
    if num < 0 || num > den {
        return None;
    }
    assert(ray_hits(sx, sy));
    proof {
        lemma_contact_inside(sx, sy);
        lemma_position_in_interval(sx, num as int, den as int);
        lemma_position_in_interval(sy, num as int, den as int);
    }
    let qx: i128 = floor_div(scaled(num, dx as i128), den);
    let qy: i128 = floor_div(scaled(num, dy as i128), den);
    assert(num * dx == dx * num && num * dy == dy * num) by (nonlinear_arith);
    let px: i128 = ox as i128 + qx;
    let py: i128 = oy as i128 + qy;
    let normal: Vector = if horizontal {
        Vector { x: if dx > 0 { -1 } else { 1 }, y: 0 }
    } else {
        Vector { x: 0, y: if dy > 0 { -1 } else { 1 } }
    };
    Some(Contact { x: px as i64, y: py as i64, normal, time: Time { num: num as i64, den: den as i64 } })
}

/// Casts the ray from `origin` along `direction` against `rect`.
///
/// The result is the first contact of the segment from `origin` to
/// `origin + direction` with the rectangle, if the segment enters it:
/// `time` is the ray parameter of that contact, within `[0, 1]`. There is
/// no contact when the rectangle is degenerate, when the direction is zero,
/// when the ray passes beside the rectangle, when the rectangle lies beyond
/// the segment's end, and when the entry lies behind the origin.
pub fn ray_vs_rect(origin: Vector, direction: Vector, rect: &Rect) -> (r: Option<Contact>)
    ensures
        r == ray_cast(ray_slab_x(origin, direction, *rect), ray_slab_y(origin, direction, *rect)),
        r is Some ==> faithful(
            r->0,
            ray_slab_x(origin, direction, *rect),
            ray_slab_y(origin, direction, *rect),
        ) && rect.holds(r->0.x as int, r->0.y as int),
{
    ray_core(
        origin.x as i64,
        origin.y as i64,
        direction.x as i64,
        direction.y as i64,
        rect.x as i64,
        rect.y as i64,
        rect.x as i64 + rect.w as i64,
        rect.y as i64 + rect.h as i64,
    )
}

/// The horizontal axis of a ray cast against `rect`.
pub open spec fn ray_slab_x(origin: Vector, direction: Vector, rect: Rect) -> Slab {
    Slab { o: origin.x as int, d: direction.x as int, lo: rect.left(), hi: rect.right() }
}

/// The vertical axis of a ray cast against `rect`.
pub open spec fn ray_slab_y(origin: Vector, direction: Vector, rect: Rect) -> Slab {
    Slab { o: origin.y as int, d: direction.y as int, lo: rect.top(), hi: rect.bottom() }
}

/// The horizontal axis of a sweep: the moving rectangle's corner is cast
/// against the target widened by the moving rectangle's extents.
pub open spec fn sweep_slab_x(moving: Rect, velocity: Vector, target: Rect, delta_time: u32) -> Slab {
    Slab {
        o: moving.left(),
        d: velocity.x * delta_time,
        lo: target.left() - moving.w,
        hi: target.right(),
    }
}

/// The vertical axis of a sweep.
pub open spec fn sweep_slab_y(moving: Rect, velocity: Vector, target: Rect, delta_time: u32) -> Slab {
    Slab {
        o: moving.top(),
        d: velocity.y * delta_time,
        lo: target.top() - moving.h,
        hi: target.bottom(),
    }
}

/// What a sweep returns: degenerate rectangles never collide; otherwise the
/// moving rectangle's corner is cast along `velocity * delta_time`.
pub open spec fn sweep_cast(moving: Rect, velocity: Vector, target: Rect, delta_time: u32) -> Option<
    Contact,
> {
    if moving.solid() && target.solid() {
        ray_cast(
            sweep_slab_x(moving, velocity, target, delta_time),
            sweep_slab_y(moving, velocity, target, delta_time),
        )
    } else {
        None
    }
}

/// Displacement over a tick along one axis.
fn displacement(v: i32, delta_time: u32) -> (d: i64)
    ensures
        d == v * delta_time,
        d > i64::MIN,
{
    assert(-0x7fff_ffff_ffff_ffff <= v * delta_time <= 0x7fff_ffff_ffff_ffff) by (nonlinear_arith)
        requires
            -0x8000_0000 <= v <= 0x7fff_ffff,
            0 <= delta_time <= 0xffff_ffff,
    ;
    (v as i64) * (delta_time as i64)
}

/// Time of impact of `moving`, displaced by `velocity * delta_time` over the
/// tick, with the stationary `target`.
///
/// The contact's `time` is the fraction of the tick at which the two
/// rectangles first touch, its `normal` the unit vector of the axis that is
/// entered last, against the motion, and its position the moving
/// rectangle's corner at that instant. There is no contact when either
/// rectangle is degenerate, when the displacement is zero, when the
/// rectangles do not meet within the tick, and when they already
/// interpenetrate at its start.
pub fn swept_rect_vs_rect(moving: &Rect, velocity: Vector, target: &Rect, delta_time: u32) -> (r:
    Option<Contact>)
    ensures
        r == sweep_cast(*moving, velocity, *target, delta_time),
        r is Some ==> faithful(
            r->0,
            sweep_slab_x(*moving, velocity, *target, delta_time),
            sweep_slab_y(*moving, velocity, *target, delta_time),
        ),
{
    if moving.w <= 0 || moving.h <= 0 || target.w <= 0 || target.h <= 0 {
        return None;
    }
    let dx: i64 = displacement(velocity.x, delta_time);
    let dy: i64 = displacement(velocity.y, delta_time);
    ray_core(
        moving.x as i64,
        moving.y as i64,
        dx,
        dy,
        target.x as i64 - moving.w as i64,
        target.y as i64 - moving.h as i64,
        target.x as i64 + target.w as i64,
        target.y as i64 + target.h as i64,
    )
}

/// The contact is the first one: at no time before it does the ray's point
/// lie in the rectangle.
pub proof fn lemma_contact_first(sx: Slab, sy: Slab, num: int, den: int)
    requires
        ray_hits(sx, sy),
        den > 0,
        sx.inside_at(num, den),
        sy.inside_at(num, den),
    ensures
        contact_num(sx, sy) * den <= num * contact_den(sx, sy),
{
    if horizontal_blocks(sx, sy) {
        lemma_entry_before(sx, num, den);
    } else {
        lemma_entry_before(sy, num, den);
    }
}

proof fn lemma_entry_before(a: Slab, num: int, den: int)
    requires
        a.moving(),
        a.inside_at(num, den),
    ensures
        a.entry() * den <= num * a.speed(),
        num * a.speed() <= a.exit() * den,
{
    let e = a.entry();
    let f = a.exit();
    let s = a.speed();
    assert(e * den <= num * s && num * s <= f * den) by (nonlinear_arith)
        requires
            a.d != 0,
            e == (if a.d > 0 { a.lo - a.o } else { a.o - a.hi }),
            f == (if a.d > 0 { a.hi - a.o } else { a.o - a.lo }),
            s == (if a.d < 0 { -a.d } else { a.d }),
            a.lo * den <= a.o * den + a.d * num <= a.hi * den,
    ;
}

proof fn lemma_entry_strictly_before(a: Slab, num: int, den: int)
    requires
        a.moving(),
        a.strictly_inside_at(num, den),
    ensures
        a.entry() * den < num * a.speed(),
        num * a.speed() < a.exit() * den,
{
    let e = a.entry();
    let f = a.exit();
    let s = a.speed();
    assert(e * den < num * s && num * s < f * den) by (nonlinear_arith)
        requires
            a.d != 0,
            e == (if a.d > 0 { a.lo - a.o } else { a.o - a.hi }),
            f == (if a.d > 0 { a.hi - a.o } else { a.o - a.lo }),
            s == (if a.d < 0 { -a.d } else { a.d }),
            a.lo * den < a.o * den + a.d * num < a.hi * den,
    ;
}

/// If `e / s < n / d < f / t` with positive denominators, then `e / s < f / t`.
proof fn lemma_fraction_chain(e: int, s: int, n: int, d: int, f: int, t: int)
    requires
        s > 0,
        d > 0,
        t > 0,
        e * d < n * s,
        n * t < f * d,
    ensures
        e * t < f * s,
{
    assert(e * d * t < n * s * t) by (nonlinear_arith)
        requires
            e * d < n * s,
            t > 0,
    ;
    assert(n * t * s < f * d * s) by (nonlinear_arith)
        requires
            n * t < f * d,
            s > 0,
    ;
    assert(n * s * t == n * t * s) by (nonlinear_arith);
    assert(e * d * t == (e * t) * d && f * d * s == (f * s) * d) by (nonlinear_arith);
    assert(e * t < f * s) by (nonlinear_arith)
        requires
            (e * t) * d < (f * s) * d,
            d > 0,
    ;
}

/// A ray that starts outside the rectangle's interior and at some time
/// within its length lies strictly inside the rectangle hits it, and the
/// contact comes before that time.
pub proof fn lemma_ray_cannot_pass(sx: Slab, sy: Slab, num: int, den: int)
    requires
        den > 0,
        0 <= num <= den,
        sx.strictly_inside_at(num, den),
        sy.strictly_inside_at(num, den),
        !(sx.strictly_covers_origin() && sy.strictly_covers_origin()),
    ensures
        ray_hits(sx, sy),
        contact_num(sx, sy) * den < num * contact_den(sx, sy),
{
    lemma_strictly_inside_shape(sx, num, den);
    lemma_strictly_inside_shape(sy, num, den);
    if sx.moving() {
        lemma_entry_strictly_before(sx, num, den);
    }
    if sy.moving() {
        lemma_entry_strictly_before(sy, num, den);
    }
    if sx.moving() && sy.moving() {
        lemma_fraction_chain(sx.entry(), sx.speed(), num, den, sy.exit(), sy.speed());
        lemma_fraction_chain(sy.entry(), sy.speed(), num, den, sx.exit(), sx.speed());
    }
    let cn = contact_num(sx, sy);
    let cd = contact_den(sx, sy);
    if horizontal_blocks(sx, sy) {
        lemma_blocking_axis_in_tick(sx, sy, num, den);
    } else {
        if sx.moving() {
            assert(sy.entry() * sx.speed() >= sx.entry() * sy.speed());
        }
        lemma_blocking_axis_in_tick(sy, sx, num, den);
    }
}

/// An axis on which the ray is strictly inside at some time `>= 0` has a
/// proper interval, and covers the origin strictly unless the ray moves.
proof fn lemma_strictly_inside_shape(a: Slab, num: int, den: int)
    requires
        den > 0,
        a.strictly_inside_at(num, den),
    ensures
        a.lo < a.hi,
        !a.moving() ==> a.strictly_covers_origin(),
{
    assert(a.lo < a.hi) by (nonlinear_arith)
        requires
            den > 0,
            a.lo * den < a.hi * den,
    ;
    if !a.moving() {
        assert(a.lo < a.o < a.hi) by (nonlinear_arith)
            requires
                den > 0,
                a.d == 0,
                a.lo * den < a.o * den + a.d * num < a.hi * den,
        ;
    }
}

/// `a` is the axis that is entered last, `b` the other one.
proof fn lemma_blocking_axis_in_tick(a: Slab, b: Slab, num: int, den: int)
    requires
        den > 0,
        0 <= num <= den,
        a.moving(),
        a.entry() * den < num * a.speed(),
        num * a.speed() < a.exit() * den,
        !b.moving() ==> b.strictly_covers_origin(),
        b.moving() ==> a.entry() * b.speed() >= b.entry() * a.speed(),
        b.moving() ==> num * b.speed() < b.exit() * den,
        !(a.strictly_covers_origin() && b.strictly_covers_origin()),
    ensures
        0 <= a.entry() <= a.speed(),
{
    let e = a.entry();
    let s = a.speed();
    assert(s > 0);
    assert(e <= s) by (nonlinear_arith)
        requires
            e * den < num * s,
            0 <= num <= den,
            s > 0,
            den > 0,
    ;
    if e < 0 {
        assert(a.exit() > 0) by (nonlinear_arith)
            requires
                num * s < a.exit() * den,
                num >= 0,
                s > 0,
                den > 0,
        ;
        assert(a.strictly_covers_origin());
        if b.moving() {
            let be = b.entry();
            let bs = b.speed();
            assert(be < 0) by (nonlinear_arith)
                requires
                    e * bs >= be * s,
                    e < 0,
                    bs > 0,
                    s > 0,
            ;
            assert(b.exit() > 0) by (nonlinear_arith)
                requires
                    num * bs < b.exit() * den,
                    num >= 0,
                    bs > 0,
                    den > 0,
            ;
            assert(b.strictly_covers_origin());
        }
    }
}

/// At time `num / den` of the tick the moving rectangle, displaced by that
/// fraction of `velocity * delta_time`, overlaps the target in more than
/// an edge.
pub open spec fn interpenetrates_at(
    moving: Rect,
    velocity: Vector,
    target: Rect,
    delta_time: u32,
    num: int,
    den: int,
) -> bool {
    let shift_x = velocity.x * delta_time * num;
    let shift_y = velocity.y * delta_time * num;
    &&& target.left() * den < moving.right() * den + shift_x
    &&& moving.left() * den + shift_x < target.right() * den
    &&& target.top() * den < moving.bottom() * den + shift_y
    &&& moving.top() * den + shift_y < target.bottom() * den
}

/// No tunneling: whatever the speed, a moving rectangle that does not
/// interpenetrate the target at the start of the tick, and would do so at
/// some time within the tick on its straight path, is reported a contact,
/// at a time in `[0, 1]` before that time.
pub proof fn lemma_sweep_never_tunnels(
    moving: Rect,
    velocity: Vector,
    target: Rect,
    delta_time: u32,
    num: int,
    den: int,
)
    requires
        moving.solid(),
        target.solid(),
        den > 0,
        0 <= num <= den,
        interpenetrates_at(moving, velocity, target, delta_time, num, den),
        !interpenetrates_at(moving, velocity, target, delta_time, 0, 1),
    ensures
        sweep_cast(moving, velocity, target, delta_time) is Some,
        sweep_cast(moving, velocity, target, delta_time)->0.time.wf(),
        sweep_cast(moving, velocity, target, delta_time)->0.time.num * den
            < num * sweep_cast(moving, velocity, target, delta_time)->0.time.den,
{
    let sx = sweep_slab_x(moving, velocity, target, delta_time);
    let sy = sweep_slab_y(moving, velocity, target, delta_time);
    assert(sx.strictly_inside_at(num, den)) by (nonlinear_arith)
        requires
            target.left() * den < moving.right() * den + velocity.x * delta_time * num,
            moving.left() * den + velocity.x * delta_time * num < target.right() * den,
            moving.right() == moving.left() + moving.w,
            sx.o == moving.left(),
            sx.d == velocity.x * delta_time,
            sx.lo == target.left() - moving.w,
            sx.hi == target.right(),
            sx.strictly_inside_at(num, den) == (sx.lo * den < sx.o * den + sx.d * num < sx.hi
                * den),
    ;
    assert(sy.strictly_inside_at(num, den)) by (nonlinear_arith)
        requires
            target.top() * den < moving.bottom() * den + velocity.y * delta_time * num,
            moving.top() * den + velocity.y * delta_time * num < target.bottom() * den,
            moving.bottom() == moving.top() + moving.h,
            sy.o == moving.top(),
            sy.d == velocity.y * delta_time,
            sy.lo == target.top() - moving.h,
            sy.hi == target.bottom(),
            sy.strictly_inside_at(num, den) == (sy.lo * den < sy.o * den + sy.d * num < sy.hi
                * den),
    ;
    assert(velocity.x * delta_time * 0 == 0 && velocity.y * delta_time * 0 == 0) by (nonlinear_arith);
    assert(!(sx.strictly_covers_origin() && sy.strictly_covers_origin()));
    lemma_ray_cannot_pass(sx, sy, num, den);
    lemma_sweep_time_fits(moving, velocity, target, delta_time);
}

/// The time of a sweep's contact is stored without loss.
proof fn lemma_sweep_time_fits(moving: Rect, velocity: Vector, target: Rect, delta_time: u32)
    requires
        ray_hits(
            sweep_slab_x(moving, velocity, target, delta_time),
            sweep_slab_y(moving, velocity, target, delta_time),
        ),
    ensures
        ({
            let sx = sweep_slab_x(moving, velocity, target, delta_time);
            let sy = sweep_slab_y(moving, velocity, target, delta_time);
            let c = ray_contact(sx, sy);
            c.time.num == contact_num(sx, sy) && c.time.den == contact_den(sx, sy)
        }),
{
    let sx = sweep_slab_x(moving, velocity, target, delta_time);
    let sy = sweep_slab_y(moving, velocity, target, delta_time);
    assert(-0x7fff_ffff_ffff_ffff <= velocity.x * delta_time <= 0x7fff_ffff_ffff_ffff
        && -0x7fff_ffff_ffff_ffff <= velocity.y * delta_time <= 0x7fff_ffff_ffff_ffff)
        by (nonlinear_arith)
        requires
            -0x8000_0000 <= velocity.x <= 0x7fff_ffff,
            -0x8000_0000 <= velocity.y <= 0x7fff_ffff,
            0 <= delta_time <= 0xffff_ffff,
    ;
}

/// On this axis the ray starts in the interval and heads into it: the
/// origin lies strictly inside, or on an end with the direction pointing
/// to the other end.
pub open spec fn heads_inward(a: Slab) -> bool {
    ||| a.strictly_covers_origin()
    ||| (a.o == a.lo && a.d > 0)
    ||| (a.o == a.hi && a.d < 0)
}

/// A ray whose origin lies on the rectangle's boundary and whose direction
/// points into the rectangle makes contact at time zero.
pub proof fn lemma_ray_from_boundary(origin: Vector, direction: Vector, rect: Rect)
    requires
        rect.solid(),
        heads_inward(ray_slab_x(origin, direction, rect)),
        heads_inward(ray_slab_y(origin, direction, rect)),
        !(ray_slab_x(origin, direction, rect).strictly_covers_origin() && ray_slab_y(
            origin,
            direction,
            rect,
        ).strictly_covers_origin()),
    ensures
        ray_cast(ray_slab_x(origin, direction, rect), ray_slab_y(origin, direction, rect)) is Some,
        ray_cast(
            ray_slab_x(origin, direction, rect),
            ray_slab_y(origin, direction, rect),
        )->0.time.num == 0,
        ray_cast(
            ray_slab_x(origin, direction, rect),
            ray_slab_y(origin, direction, rect),
        )->0.time.den > 0,
{
    let sx = ray_slab_x(origin, direction, rect);
    let sy = ray_slab_y(origin, direction, rect);
    if sx.moving() && sy.moving() {
        assert(sx.entry() <= 0 && sy.entry() <= 0);
        assert(sx.exit() > 0 && sy.exit() > 0);
        assert(sx.entry() * sy.speed() <= 0 && sy.entry() * sx.speed() <= 0
            && sy.exit() * sx.speed() > 0 && sx.exit() * sy.speed() > 0) by (nonlinear_arith)
            requires
                sx.entry() <= 0,
                sy.entry() <= 0,
                sx.exit() > 0,
                sy.exit() > 0,
                sx.speed() > 0,
                sy.speed() > 0,
        ;
        if sx.entry() < 0 {
            assert(sy.entry() == 0);
            assert(sx.entry() * sy.speed() < 0) by (nonlinear_arith)
                requires
                    sx.entry() < 0,
                    sy.speed() > 0,
            ;
            assert(sy.entry() * sx.speed() == 0) by (nonlinear_arith)
                requires
                    sy.entry() == 0,
            ;
        } else {
            assert(sx.entry() * sy.speed() == 0) by (nonlinear_arith)
                requires
                    sx.entry() == 0,
            ;
        }
    }
}

/// A ray that does not move along an axis and starts outside the
/// rectangle's interval on that axis makes no contact.
pub proof fn lemma_parallel_ray_beside(origin: Vector, direction: Vector, rect: Rect)
    requires
        (direction.x == 0 && !(rect.left() <= origin.x <= rect.right())) || (direction.y == 0 && !(
        rect.top() <= origin.y <= rect.bottom())),
    ensures
        ray_cast(ray_slab_x(origin, direction, rect), ray_slab_y(origin, direction, rect)) is None,
{
}

/// The horizontal axis of a cast along the segment from `from` to `to`.
pub open spec fn segment_slab_x(from: Vector, to: Vector, rect: Rect) -> Slab {
    Slab { o: from.x as int, d: to.x - from.x, lo: rect.left(), hi: rect.right() }
}

/// The vertical axis of a cast along the segment from `from` to `to`.
pub open spec fn segment_slab_y(from: Vector, to: Vector, rect: Rect) -> Slab {
    Slab { o: from.y as int, d: to.y - from.y, lo: rect.top(), hi: rect.bottom() }
}

/// Casts the ray from `from` along `to - from` against `rect`: the first
/// contact of the segment between the two points with the rectangle, as
/// `ray_vs_rect` gives it for that direction.
pub fn segment_vs_rect(from: Vector, to: Vector, rect: &Rect) -> (r: Option<Contact>)
    ensures
        r == ray_cast(segment_slab_x(from, to, *rect), segment_slab_y(from, to, *rect)),
        r is Some ==> faithful(
            r->0,
            segment_slab_x(from, to, *rect),
            segment_slab_y(from, to, *rect),
        ) && rect.holds(r->0.x as int, r->0.y as int),
{
    ray_core(
        from.x as i64,
        from.y as i64,
        to.x as i64 - from.x as i64,
        to.y as i64 - from.y as i64,
        rect.x as i64,
        rect.y as i64,
        rect.x as i64 + rect.w as i64,
        rect.y as i64 + rect.h as i64,
    )
}

/// `s` is the length of the vector, rounded down.
pub open spec fn is_length(s: int, v: Vector) -> bool {
    s >= 0 && s * s <= v.x * v.x + v.y * v.y < (s + 1) * (s + 1)
}

/// The length of the vector, its magnitude, rounded down.
pub open spec fn length(v: Vector) -> int {
    choose|s: int| is_length(s, v)
}

/// Every number that is not negative has a square root rounded down.
proof fn lemma_root_exists(n: int)
    requires
        n >= 0,
    ensures
        exists|s: int| s >= 0 && #[trigger] (s * s) <= n < (s + 1) * (s + 1),
    decreases n,
{
    if n == 0 {
        let z: int = 0;
        assert(z * z == 0 && (z + 1) * (z + 1) == 1) by (nonlinear_arith)
            requires
                z == 0,
        ;
        assert(z >= 0 && z * z <= n < (z + 1) * (z + 1));
    } else {
        lemma_root_exists(n - 1);
        let s = choose|s: int| s >= 0 && #[trigger] (s * s) <= n - 1 < (s + 1) * (s + 1);
        if (s + 1) * (s + 1) <= n {
            let t = s + 1;
            assert(n < (t + 1) * (t + 1)) by (nonlinear_arith)
                requires
                    n - 1 < t * t,
                    t >= 1,
            ;
            assert(t >= 0 && t * t <= n < (t + 1) * (t + 1));
        } else {
            assert(s >= 0 && s * s <= n < (s + 1) * (s + 1));
        }
    }
}

/// Every vector has a length, and only one.
pub proof fn lemma_length(v: Vector, s: int)
    ensures
        is_length(length(v), v),
        is_length(s, v) ==> s == length(v),
{
    let n = v.x * v.x + v.y * v.y;
    assert(n >= 0) by (nonlinear_arith)
        requires
            n == v.x * v.x + v.y * v.y,
    ;
    lemma_root_exists(n);
    let w = choose|w: int| w >= 0 && #[trigger] (w * w) <= n < (w + 1) * (w + 1);
    assert(is_length(w, v));
    let l = length(v);
    assert(is_length(l, v));
    if is_length(s, v) {
        lemma_root_unique(n, s, l);
    }
}

/// A number has one square root rounded down.
proof fn lemma_root_unique(n: int, s: int, t: int)
    requires
        s >= 0,
        t >= 0,
        s * s <= n < (s + 1) * (s + 1),
        t * t <= n < (t + 1) * (t + 1),
    ensures
        s == t,
{
    if s < t {
        assert((s + 1) * (s + 1) <= t * t) by (nonlinear_arith)
            requires
                0 <= s + 1 <= t,
        ;
    }
    if t < s {
        assert((t + 1) * (t + 1) <= s * s) by (nonlinear_arith)
            requires
                0 <= t + 1 <= s,
        ;
    }
}

/// The length of the vector, rounded down.
pub fn length_of(v: Vector) -> (s: i64)
    ensures
        s == length(v),
        0 <= s <= 0x1_0000_0000,
{
    let x: i128 = v.x as i128;
    let y: i128 = v.y as i128;
    assert(0 <= x * x <= 0x4000_0000_0000_0000 && 0 <= y * y <= 0x4000_0000_0000_0000)
        by (nonlinear_arith)
        requires
            -0x8000_0000 <= x <= 0x8000_0000,
            -0x8000_0000 <= y <= 0x8000_0000,
    ;
    let n: i128 = x * x + y * y;
    let mut lo: i128 = 0;
    let mut hi: i128 = 0x1_0000_0000;
    assert(lo * lo == 0 && hi * hi == 0x1_0000_0000_0000_0000) by (nonlinear_arith)
        requires
            lo == 0,
            hi == 0x1_0000_0000,
    ;
    while hi - lo > 1
        invariant
            0 <= lo < hi <= 0x1_0000_0000,
            0 <= n,
            lo * lo <= n < hi * hi,
        decreases hi - lo,
    {
        let mid: i128 = lo + (hi - lo) / 2;
        assert(0 <= mid * mid <= 0x1_0000_0000_0000_0000) by (nonlinear_arith)
            requires
                0 <= mid <= 0x1_0000_0000,
        ;
        if mid * mid <= n {
            lo = mid;
        } else {
            hi = mid;
        }
    }
    proof {
        assert(hi == lo + 1);
        assert(is_length(lo as int, v));
        lemma_length(v, lo as int);
    }
    lo as i64
}

} // verus!
