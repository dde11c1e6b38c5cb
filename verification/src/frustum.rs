//! The view volume in fixed point: five planes, and the running plane
//! distances that the walk over the tree keeps.
//!
//! A plane holds its normal with 28 fractional bits and its distance at the
//! origin of the world. A cell is taken to be inside a plane when the corner
//! of the cell that lies farthest along the normal is not behind the plane, so
//! that a cell is inside as soon as any part of it is.

use crate::coords::{lemma_pow16_add, lemma_pow16_pos, lemma_pow16_values, pow16};
use vstd::prelude::*;

verus! {

/// Number of fractional bits of a plane's normal and distance.
pub const PLANE_FRACTION_BITS: u8 = 28;

/// A plane in fixed point: the value at the point `(x, y, z)` is
/// `dist + self.x * x + self.y * y + self.z * z`, and a point is in front of
/// the plane when the value is not negative.
#[derive(Copy, Clone, PartialEq, Eq, Structural, Debug)]
pub struct Plane {
    pub x: i64,
    pub y: i64,
    pub z: i64,
    pub dist: i64,
}

/// A view volume: four side planes that meet at the eye, and the far plane.
#[derive(Copy, Clone, Debug)]
pub struct Frustum {
    pub planes: [Plane; 5],
}

/// `a` where it is positive, else 0.
pub open spec fn pos_part(a: int) -> int {
    if a > 0 {
        a
    } else {
        0
    }
}

/// What one axis adds to the value of a plane at the far corner of a cell of
/// level `l`: `16^l * (a * x + pos_part(a))`, for the component `a` of the
/// normal and the cell coordinate `x`.
pub open spec fn axis_term(a: int, l: int, x: int) -> int {
    (a * pow16(l)) * x + pos_part(a * pow16(l))
}

/// The value of the plane at the corner, farthest along the normal, of the
/// cell of level `l` with the cell coordinates `(x, y, z)`. A cell of level
/// `l` has `16^l` boxes along each side; a cell of level 0 is one box.
pub open spec fn plane_value(p: Plane, l: int, x: int, y: int, z: int) -> int {
    p.dist + axis_term(p.x as int, l, x) + axis_term(p.y as int, l, y) + axis_term(p.z as int, l, z)
}

impl Frustum {
    /// Whether the cell of level `l` at `(x, y, z)` reaches into the volume:
    /// no plane has it wholly behind.
    pub open spec fn inside(&self, l: int, x: int, y: int, z: int) -> bool {
        forall|i: int| 0 <= i < 5 ==> plane_value(#[trigger] self.planes@[i], l, x, y, z) >= 0
    }

    /// Whether the box at `(x, y, z)` reaches into the volume.
    pub open spec fn holds(&self, x: int, y: int, z: int) -> bool {
        self.inside(0, x, y, z)
    }
}

/// The running state of one plane while the walk stands at some cell: the
/// change of the plane's value with one step of the cursor along each axis,
/// and the value at the cursor.
#[derive(Copy, Clone)]
pub struct Gauge {
    pub dx: i128,
    pub dy: i128,
    pub dz: i128,
    pub value: i128,
}

/// The gauge of plane `p` for a cursor at the cell `(x, y, z)` of level `l`.
pub open spec fn gauge_at(g: Gauge, p: Plane, l: int, x: int, y: int, z: int) -> bool {
    &&& g.dx == p.x * pow16(l)
    &&& g.dy == p.y * pow16(l)
    &&& g.dz == p.z * pow16(l)
    &&& g.value == plane_value(p, l, x, y, z)
}

/// The gauges of all planes of `f` for a cursor at the cell `(x, y, z)` of level `l`.
pub open spec fn gauges_at(g: [Gauge; 5], f: Frustum, l: int, x: int, y: int, z: int) -> bool {
    forall|i: int| 0 <= i < 5 ==> gauge_at(#[trigger] g@[i], f.planes@[i], l, x, y, z)
}

/// Cell coordinates that the walk can reach at level `l`: within the
/// widest world, or one chunk's side past its end.
pub open spec fn reachable(l: int, x: int, y: int, z: int) -> bool {
    &&& 0 <= l < 8
    &&& 0 <= x <= pow16(8 - l)
    &&& 0 <= y <= pow16(8 - l)
    &&& 0 <= z <= pow16(8 - l)
}

/// Plane values at reachable cells are far from the limits of 128 bits.
pub proof fn lemma_plane_value_bound(p: Plane, l: int, x: int, y: int, z: int)
    requires
        reachable(l, x, y, z),
    ensures
        -0x4_0000_0000_0000_0000_0000_0000 < plane_value(p, l, x, y, z)
            < 0x4_0000_0000_0000_0000_0000_0000,
        -0x8000_0000_0000_0000_0000_000 <= p.x * pow16(l) <= 0x8000_0000_0000_0000_0000_000,
        -0x8000_0000_0000_0000_0000_000 <= p.y * pow16(l) <= 0x8000_0000_0000_0000_0000_000,
        -0x8000_0000_0000_0000_0000_000 <= p.z * pow16(l) <= 0x8000_0000_0000_0000_0000_000,
        1 <= pow16(l) <= 0x1000_0000,
{
    let s = pow16(l);
    let n = pow16(8 - l);
    lemma_pow16_pos(l);
    lemma_pow16_pos(8 - l);
    lemma_pow16_add(l, 8 - l);
    lemma_pow16_values();
    assert(n == 16 * pow16(8 - l - 1));
    lemma_pow16_pos(8 - l - 1);
    assert(1 <= s <= 0x1000_0000) by (nonlinear_arith)
        requires
            s * n == 0x1_0000_0000,
            s >= 1,
            n >= 16,
    ;
    lemma_term_bound(p.x as int, s, x, n);
    lemma_term_bound(p.y as int, s, y, n);
    lemma_term_bound(p.z as int, s, z, n);
}

/// What one axis adds to a plane value at a reachable cell is below `2^95` in size.
proof fn lemma_term_bound(a: int, s: int, x: int, n: int)
    requires
        -0x8000_0000_0000_0000 <= a < 0x8000_0000_0000_0000,
        1 <= s <= 0x1000_0000,
        0 <= x <= n,
        s * n == 0x1_0000_0000,
    ensures
        -0x8000_0000_0000_0000_0000_0000 <= (a * s) * x <= 0x8000_0000_0000_0000_0000_0000,
        -0x8000_0000_0000_0000_0000_000 <= a * s <= 0x8000_0000_0000_0000_0000_000,
{
    assert(0 <= s * x <= 0x1_0000_0000) by (nonlinear_arith)
        requires
            1 <= s,
            0 <= x <= n,
            s * n == 0x1_0000_0000,
    ;
    let t = s * x;
    assert((a * s) * x == a * t) by (nonlinear_arith)
        requires
            t == s * x,
    ;
    assert(-0x8000_0000_0000_0000_0000_0000 <= a * t <= 0x8000_0000_0000_0000_0000_0000)
        by (nonlinear_arith)
        requires
            -0x8000_0000_0000_0000 <= a < 0x8000_0000_0000_0000,
            0 <= t <= 0x1_0000_0000,
    ;
    assert(-0x8000_0000_0000_0000_0000_000 <= a * s <= 0x8000_0000_0000_0000_0000_000)
        by (nonlinear_arith)
        requires
            -0x8000_0000_0000_0000 <= a < 0x8000_0000_0000_0000,
            1 <= s <= 0x1000_0000,
    ;
}

/// One step of the cursor changes an axis's term by the scaled component.
proof fn lemma_term_move(a: int, l: int, x: int, k: int)
    ensures
        axis_term(a, l, x + k) == axis_term(a, l, x) + (a * pow16(l)) * k,
        k == 0 ==> axis_term(a, l, x + k) == axis_term(a, l, x),
        k == 1 ==> axis_term(a, l, x + k) == axis_term(a, l, x) + a * pow16(l),
        k == -16 ==> axis_term(a, l, x + k) == axis_term(a, l, x) - (a * pow16(l)) * 16,
{
    let d = a * pow16(l);
    assert(d * (x + k) == d * x + d * k) by (nonlinear_arith);
    assert(d * 0 == 0 && d * 1 == d && d * (-16) == -(d * 16)) by (nonlinear_arith);
}

/// Cells of two levels with the same first box have the same term, but for
/// the offset to the far corner.
proof fn lemma_term_rescale(a: int, l: int, x: int, l2: int, x2: int)
    requires
        pow16(l) * x == pow16(l2) * x2,
    ensures
        axis_term(a, l, x) - pos_part(a * pow16(l)) == axis_term(a, l2, x2) - pos_part(
            a * pow16(l2),
        ),
{
    let s = pow16(l);
    let s2 = pow16(l2);
    assert((a * s) * x == a * (s * x)) by (nonlinear_arith);
    assert((a * s2) * x2 == a * (s2 * x2)) by (nonlinear_arith);
}

/// `16^level`.
fn side(level: u8) -> (r: i128)
    requires
        level <= 8,
    ensures
        r == pow16(level as int),
{
    let mut r: i128 = 1;
    let mut i: u8 = 0;
    proof {
        lemma_pow16_values();
    }
    while i < level
        invariant
            i <= level <= 8,
            r == pow16(i as int),
            1 <= r <= 0x1_0000_0000,
        decreases level - i,
    {
        proof {
            lemma_pow16_values();
            assert(pow16(i + 1) == 16 * pow16(i as int));
            assert(pow16(i + 1) <= pow16(8)) by {
                lemma_pow16_add(i + 1, 8 - (i + 1));
                lemma_pow16_pos(8 - (i + 1));
                assert(pow16(i + 1) * 1 <= pow16(i + 1) * pow16(8 - (i + 1))) by (nonlinear_arith)
                    requires
                        pow16(i + 1) >= 0,
                        pow16(8 - (i + 1)) >= 1,
                ;
            }
        }
        r = r * 16;
        i = i + 1;
    }
    r
}

/// `a` where it is positive, else 0.
fn positive(a: i128) -> (r: i128)
    ensures
        r == pos_part(a as int),
{
    if a > 0 {
        a
    } else {
        0
    }
}

/// The displacement of the cursor that `gauges_move` accounts for: one cell
/// forward along `axis` (0, 1, 2 for x, y, z), or a chunk's side back.
pub open spec fn move_by(axis: int, back: bool, n: int) -> int {
    if n != axis {
        0
    } else if back {
        -16
    } else {
        1
    }
}

impl Gauge {
    /// The gauge of `p` for a cursor at the first cell of level `level`.
    fn start(p: &Plane, level: u8) -> (g: Gauge)
        requires
            level < 8,
        ensures
            gauge_at(g, *p, level as int, 0, 0, 0),
    {
        let s = side(level);
        proof {
            lemma_pow16_pos(8 - level);
            lemma_plane_value_bound(*p, level as int, 0, 0, 0);
        }
        let dx = (p.x as i128) * s;
        let dy = (p.y as i128) * s;
        let dz = (p.z as i128) * s;
        Gauge { dx: dx, dy: dy, dz: dz, value: (p.dist as i128) + positive(dx) + positive(dy) + positive(dz) }
    }

    /// Follows the cursor one cell forward along an axis, or a chunk's side back.
    fn moved(
        self,
        axis: u8,
        back: bool,
        Ghost(p): Ghost<Plane>,
        Ghost(l): Ghost<int>,
        Ghost(x): Ghost<int>,
        Ghost(y): Ghost<int>,
        Ghost(z): Ghost<int>,
    ) -> (g: Gauge)
        requires
            axis < 3,
            gauge_at(self, p, l, x, y, z),
            reachable(l, x, y, z),
            reachable(
                l,
                x + move_by(axis as int, back, 0),
                y + move_by(axis as int, back, 1),
                z + move_by(axis as int, back, 2),
            ),
        ensures
            gauge_at(
                g,
                p,
                l,
                x + move_by(axis as int, back, 0),
                y + move_by(axis as int, back, 1),
                z + move_by(axis as int, back, 2),
            ),
    {
        let d = if axis == 0 {
            self.dx
        } else if axis == 1 {
            self.dy
        } else {
            self.dz
        };
        proof {
            lemma_plane_value_bound(p, l, x, y, z);
            lemma_plane_value_bound(
                p,
                l,
                x + move_by(axis as int, back, 0),
                y + move_by(axis as int, back, 1),
                z + move_by(axis as int, back, 2),
            );
            lemma_term_move(p.x as int, l, x, move_by(axis as int, back, 0));
            lemma_term_move(p.y as int, l, y, move_by(axis as int, back, 1));
            lemma_term_move(p.z as int, l, z, move_by(axis as int, back, 2));
        }
        let value = if back {
            self.value - d * 16
        } else {
            self.value + d
        };
        Gauge { dx: self.dx, dy: self.dy, dz: self.dz, value: value }
    }

    /// Follows the cursor to another level: from the cell `(x, y, z)` of level `l`
    /// to a cell of level `level` with the same first box.
    fn rescaled(
        self,
        p: &Plane,
        level: u8,
        Ghost(l): Ghost<int>,
        Ghost(x): Ghost<int>,
        Ghost(y): Ghost<int>,
        Ghost(z): Ghost<int>,
        Ghost(x2): Ghost<int>,
        Ghost(y2): Ghost<int>,
        Ghost(z2): Ghost<int>,
    ) -> (g: Gauge)
        requires
            gauge_at(self, *p, l, x, y, z),
            reachable(l, x, y, z),
            reachable(level as int, x2, y2, z2),
            pow16(l) * x == pow16(level as int) * x2,
            pow16(l) * y == pow16(level as int) * y2,
            pow16(l) * z == pow16(level as int) * z2,
        ensures
            gauge_at(g, *p, level as int, x2, y2, z2),
    {
        let s = side(level);
        proof {
            lemma_plane_value_bound(*p, l, x, y, z);
            lemma_plane_value_bound(*p, level as int, x2, y2, z2);
            lemma_term_rescale(p.x as int, l, x, level as int, x2);
            lemma_term_rescale(p.y as int, l, y, level as int, y2);
            lemma_term_rescale(p.z as int, l, z, level as int, z2);
        }
        let dx = (p.x as i128) * s;
        let dy = (p.y as i128) * s;
        let dz = (p.z as i128) * s;
        let bare = self.value - positive(self.dx) - positive(self.dy) - positive(self.dz);
        Gauge { dx: dx, dy: dy, dz: dz, value: bare + positive(dx) + positive(dy) + positive(dz) }
    }
}

/// A cell lies no farther along a component of a normal than the cell of a
/// higher level that holds it.
proof fn lemma_term_cull(a: int, l: int, x: int)
    requires
        0 <= l,
        0 <= x,
    ensures
        axis_term(a, 0, x) <= axis_term(a, l, x / pow16(l)),
{
    let s = pow16(l);
    lemma_pow16_pos(l);
    lemma_pow16_values();
    let q = x / s;
    let r = x % s;
    vstd::arithmetic::div_mod::lemma_fundamental_div_mod(x, s);
    assert(0 <= r < s);
    assert(a * 1 == a) by (nonlinear_arith);
    assert((a * s) * q == a * (s * q)) by (nonlinear_arith);
    if a >= 0 {
        assert(a * x + a <= a * (s * q) + a * s) by (nonlinear_arith)
            requires
                a >= 0,
                x == s * q + r,
                0 <= r < s,
        ;
        assert(a * s >= 0) by (nonlinear_arith)
            requires
                a >= 0,
                s >= 1,
        ;
    } else {
        assert(a * x <= a * (s * q)) by (nonlinear_arith)
            requires
                a < 0,
                x == s * q + r,
                0 <= r < s,
        ;
        assert(a * s < 0) by (nonlinear_arith)
            requires
                a < 0,
                s >= 1,
        ;
    }
}

/// Culling loses nothing: a box reaches no farther into a plane than any
/// cell that holds it. So where a cell is outside the volume, each of its
/// boxes is.
pub proof fn lemma_cull(f: Frustum, l: int, x: int, y: int, z: int)
    requires
        0 <= l,
        0 <= x,
        0 <= y,
        0 <= z,
        f.holds(x, y, z),
    ensures
        f.inside(l, x / pow16(l), y / pow16(l), z / pow16(l)),
{
    assert forall|i: int| 0 <= i < 5 implies plane_value(
        #[trigger] f.planes@[i],
        l,
        x / pow16(l),
        y / pow16(l),
        z / pow16(l),
    ) >= 0 by {
        let p = f.planes@[i];
        lemma_term_cull(p.x as int, l, x);
        lemma_term_cull(p.y as int, l, y);
        lemma_term_cull(p.z as int, l, z);
        assert(plane_value(p, 0, x, y, z) >= 0);
    }
}

/// The gauges of `f` for a cursor at the first cell of level `level`.
pub(crate) fn gauges_start(f: &Frustum, level: u8) -> (g: [Gauge; 5])
    requires
        level < 8,
    ensures
        gauges_at(g, *f, level as int, 0, 0, 0),
{
    [
        Gauge::start(&f.planes[0], level),
        Gauge::start(&f.planes[1], level),
        Gauge::start(&f.planes[2], level),
        Gauge::start(&f.planes[3], level),
        Gauge::start(&f.planes[4], level),
    ]
}

/// Whether the cell at the cursor reaches into the volume.
pub(crate) fn gauges_inside(
    g: &[Gauge; 5],
    Ghost(f): Ghost<Frustum>,
    Ghost(l): Ghost<int>,
    Ghost(x): Ghost<int>,
    Ghost(y): Ghost<int>,
    Ghost(z): Ghost<int>,
) -> (r: bool)
    requires
        gauges_at(*g, f, l, x, y, z),
    ensures
        r == f.inside(l, x, y, z),
{
    proof {
        assert(gauge_at(g@[0], f.planes@[0], l, x, y, z));
        assert(gauge_at(g@[1], f.planes@[1], l, x, y, z));
        assert(gauge_at(g@[2], f.planes@[2], l, x, y, z));
        assert(gauge_at(g@[3], f.planes@[3], l, x, y, z));
        assert(gauge_at(g@[4], f.planes@[4], l, x, y, z));
    }
    g[0].value >= 0 && g[1].value >= 0 && g[2].value >= 0 && g[3].value >= 0 && g[4].value >= 0
}

/// Follows the cursor one cell forward along an axis, or a chunk's side back.
pub(crate) fn gauges_moved(
    g: &[Gauge; 5],
    axis: u8,
    back: bool,
    Ghost(f): Ghost<Frustum>,
    Ghost(l): Ghost<int>,
    Ghost(x): Ghost<int>,
    Ghost(y): Ghost<int>,
    Ghost(z): Ghost<int>,
) -> (r: [Gauge; 5])
    requires
        axis < 3,
        gauges_at(*g, f, l, x, y, z),
        reachable(l, x, y, z),
        reachable(
            l,
            x + move_by(axis as int, back, 0),
            y + move_by(axis as int, back, 1),
            z + move_by(axis as int, back, 2),
        ),
    ensures
        gauges_at(
            r,
            f,
            l,
            x + move_by(axis as int, back, 0),
            y + move_by(axis as int, back, 1),
            z + move_by(axis as int, back, 2),
        ),
{
    proof {
        assert(gauge_at(g@[0], f.planes@[0], l, x, y, z));
        assert(gauge_at(g@[1], f.planes@[1], l, x, y, z));
        assert(gauge_at(g@[2], f.planes@[2], l, x, y, z));
        assert(gauge_at(g@[3], f.planes@[3], l, x, y, z));
        assert(gauge_at(g@[4], f.planes@[4], l, x, y, z));
    }
    [
        g[0].moved(axis, back, Ghost(f.planes@[0]), Ghost(l), Ghost(x), Ghost(y), Ghost(z)),
        g[1].moved(axis, back, Ghost(f.planes@[1]), Ghost(l), Ghost(x), Ghost(y), Ghost(z)),
        g[2].moved(axis, back, Ghost(f.planes@[2]), Ghost(l), Ghost(x), Ghost(y), Ghost(z)),
        g[3].moved(axis, back, Ghost(f.planes@[3]), Ghost(l), Ghost(x), Ghost(y), Ghost(z)),
        g[4].moved(axis, back, Ghost(f.planes@[4]), Ghost(l), Ghost(x), Ghost(y), Ghost(z)),
    ]
}

/// Follows the cursor from the cell `(x, y, z)` of level `l` to the cell
/// `(x2, y2, z2)` of level `level`, which has the same first box.
pub(crate) fn gauges_rescaled(
    g: &[Gauge; 5],
    f: &Frustum,
    level: u8,
    Ghost(l): Ghost<int>,
    Ghost(x): Ghost<int>,
    Ghost(y): Ghost<int>,
    Ghost(z): Ghost<int>,
    Ghost(x2): Ghost<int>,
    Ghost(y2): Ghost<int>,
    Ghost(z2): Ghost<int>,
) -> (r: [Gauge; 5])
    requires
        gauges_at(*g, *f, l, x, y, z),
        reachable(l, x, y, z),
        reachable(level as int, x2, y2, z2),
        pow16(l) * x == pow16(level as int) * x2,
        pow16(l) * y == pow16(level as int) * y2,
        pow16(l) * z == pow16(level as int) * z2,
    ensures
        gauges_at(r, *f, level as int, x2, y2, z2),
{
    proof {
        assert(gauge_at(g@[0], f.planes@[0], l, x, y, z));
        assert(gauge_at(g@[1], f.planes@[1], l, x, y, z));
        assert(gauge_at(g@[2], f.planes@[2], l, x, y, z));
        assert(gauge_at(g@[3], f.planes@[3], l, x, y, z));
        assert(gauge_at(g@[4], f.planes@[4], l, x, y, z));
    }
    [
        g[0].rescaled(&f.planes[0], level, Ghost(l), Ghost(x), Ghost(y), Ghost(z), Ghost(x2), Ghost(y2), Ghost(z2)),
        g[1].rescaled(&f.planes[1], level, Ghost(l), Ghost(x), Ghost(y), Ghost(z), Ghost(x2), Ghost(y2), Ghost(z2)),
        g[2].rescaled(&f.planes[2], level, Ghost(l), Ghost(x), Ghost(y), Ghost(z), Ghost(x2), Ghost(y2), Ghost(z2)),
        g[3].rescaled(&f.planes[3], level, Ghost(l), Ghost(x), Ghost(y), Ghost(z), Ghost(x2), Ghost(y2), Ghost(z2)),
        g[4].rescaled(&f.planes[4], level, Ghost(l), Ghost(x), Ghost(y), Ghost(z), Ghost(x2), Ghost(y2), Ghost(z2)),
    ]
}

} // verus!
