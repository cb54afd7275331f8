//! Fixed-point world geometry: vectors, axis-aligned bounding boxes, and the
//! transform that carries a local-space box into world space.
//!
//! Coordinates count thousandths of a world unit (`FX_ONE`). A transform is
//! an affine map `[ M | t ]` whose 3x3 part `M` (rotation times scale) is held
//! column-wise, its entries in the same fixed point. Applying `M` therefore
//! multiplies two fixed-point numbers; the product is brought back to scale by
//! a floor division, and the transformed half-extents are rounded up so the
//! resulting box never undercovers — `lemma_world_aabb_contains` proves that.

use vstd::prelude::*;
use crate::FX_ONE;

verus! {

/// Largest magnitude a world coordinate may have (about a thousand units).
pub const COORD_LIMIT: i64 = 1048576;

/// Largest magnitude a matrix entry may have (a scale of a thousand).
pub const MAT_LIMIT: i64 = 1000000;

/// A point or extent in world space, in thousandths of a unit.
#[derive(Clone, Copy, PartialEq, Eq, Structural, Debug)]
pub struct Vec3Fx {
    pub x: i64,
    pub y: i64,
    pub z: i64,
}

/// An axis-aligned box: a center and nonnegative half-extents.
#[derive(Clone, Copy, PartialEq, Eq, Structural, Debug)]
pub struct Aabb {
    pub center: Vec3Fx,
    pub half: Vec3Fx,
}

/// The 3x3 part of an affine transform (rotation times scale), held as three
/// columns, entries in fixed point.
#[derive(Clone, Copy, PartialEq, Eq, Structural, Debug)]
pub struct Mat3Fx {
    pub col_x: Vec3Fx,
    pub col_y: Vec3Fx,
    pub col_z: Vec3Fx,
}

/// Magnitude of an integer.
pub open spec fn abs_i(a: int) -> int {
    if a < 0 {
        -a
    } else {
        a
    }
}

impl Vec3Fx {
    /// Every component within `limit` either way.
    pub open spec fn bounded(self, limit: int) -> bool {
        &&& -limit <= self.x <= limit
        &&& -limit <= self.y <= limit
        &&& -limit <= self.z <= limit
    }
}

impl Aabb {
    /// Half-extents never point backwards.
    pub open spec fn well_formed(self) -> bool {
        self.half.x >= 0 && self.half.y >= 0 && self.half.z >= 0
    }

    /// The box's least corner.
    pub fn min_corner(&self) -> (r: Vec3Fx)
        requires
            self.center.bounded(COORD_LIMIT as int),
            self.half.bounded(COORD_LIMIT as int),
        ensures
            r.x == self.center.x - self.half.x,
            r.y == self.center.y - self.half.y,
            r.z == self.center.z - self.half.z,
    {
        Vec3Fx { x: self.center.x - self.half.x, y: self.center.y - self.half.y, z: self.center.z
            - self.half.z }
    }

    /// The box's greatest corner.
    pub fn max_corner(&self) -> (r: Vec3Fx)
        requires
            self.center.bounded(COORD_LIMIT as int),
            self.half.bounded(COORD_LIMIT as int),
        ensures
            r.x == self.center.x + self.half.x,
            r.y == self.center.y + self.half.y,
            r.z == self.center.z + self.half.z,
    {
        Vec3Fx { x: self.center.x + self.half.x, y: self.center.y + self.half.y, z: self.center.z
            + self.half.z }
    }
}

impl Mat3Fx {
    /// Every entry within `MAT_LIMIT` either way.
    pub open spec fn bounded(self) -> bool {
        &&& self.col_x.bounded(MAT_LIMIT as int)
        &&& self.col_y.bounded(MAT_LIMIT as int)
        &&& self.col_z.bounded(MAT_LIMIT as int)
    }
}

/// One row of `M` applied to a vector: the raw (unscaled) dot product.
pub open spec fn row_dot(cx: int, cy: int, cz: int, vx: int, vy: int, vz: int) -> int {
    cx * vx + cy * vy + cz * vz
}

/// Component `i` of the transformed center: the row's dot product brought
/// back to scale by a floor division, plus the translation.
pub open spec fn world_center_part(cx: int, cy: int, cz: int, c: Vec3Fx, t: int) -> int {
    row_dot(cx, cy, cz, c.x as int, c.y as int, c.z as int) / 1000 + t
}

/// Component `i` of the transformed half-extents: the absolute row against
/// the local half-extents, rounded up to scale.
pub open spec fn world_half_part(cx: int, cy: int, cz: int, h: Vec3Fx) -> int {
    (row_dot(abs_i(cx), abs_i(cy), abs_i(cz), h.x as int, h.y as int, h.z as int) + 999) / 1000
}

/// The world-space box of `local` under the affine map `[ m | t ]`.
pub open spec fn world_aabb(m: Mat3Fx, t: Vec3Fx, local: Aabb) -> Aabb {
    Aabb {
        center: Vec3Fx {
            x: world_center_part(
                m.col_x.x as int,
                m.col_y.x as int,
                m.col_z.x as int,
                local.center,
                t.x as int,
            ) as i64,
            y: world_center_part(
                m.col_x.y as int,
                m.col_y.y as int,
                m.col_z.y as int,
                local.center,
                t.y as int,
            ) as i64,
            z: world_center_part(
                m.col_x.z as int,
                m.col_y.z as int,
                m.col_z.z as int,
                local.center,
                t.z as int,
            ) as i64,
        },
        half: Vec3Fx {
            x: world_half_part(
                m.col_x.x as int,
                m.col_y.x as int,
                m.col_z.x as int,
                local.half,
            ) as i64,
            y: world_half_part(
                m.col_x.y as int,
                m.col_y.y as int,
                m.col_z.y as int,
                local.half,
            ) as i64,
            z: world_half_part(
                m.col_x.z as int,
                m.col_y.z as int,
                m.col_z.z as int,
                local.half,
            ) as i64,
        },
    }
}

/// The image of the point `(px, py, pz)` under the same fixed-point pipeline:
/// each row's dot product floor-divided back to scale, plus the translation.
pub open spec fn world_point(m: Mat3Fx, t: Vec3Fx, px: int, py: int, pz: int) -> (int, int, int) {
    (
        row_dot(m.col_x.x as int, m.col_y.x as int, m.col_z.x as int, px, py, pz) / 1000
            + t.x as int,
        row_dot(m.col_x.y as int, m.col_y.y as int, m.col_z.y as int, px, py, pz) / 1000
            + t.y as int,
        row_dot(m.col_x.z as int, m.col_y.z as int, m.col_z.z as int, px, py, pz) / 1000
            + t.z as int,
    )
}

/// A product of two bounded factors is bounded by the product of the bounds.
proof fn lemma_mul_bound(a: int, b: int, ma: int, mb: int)
    by (nonlinear_arith)
    requires
        -ma <= a <= ma,
        -mb <= b <= mb,
        0 <= ma,
        0 <= mb,
    ensures
        -(ma * mb) <= a * b <= ma * mb,
{
}

/// One row's raw dot product, with overflow ruled out by the coordinate and
/// entry limits.
fn row_dot_fx(cx: i64, cy: i64, cz: i64, vx: i64, vy: i64, vz: i64) -> (r: i64)
    requires
        -MAT_LIMIT <= cx <= MAT_LIMIT,
        -MAT_LIMIT <= cy <= MAT_LIMIT,
        -MAT_LIMIT <= cz <= MAT_LIMIT,
        -COORD_LIMIT <= vx <= COORD_LIMIT,
        -COORD_LIMIT <= vy <= COORD_LIMIT,
        -COORD_LIMIT <= vz <= COORD_LIMIT,
    ensures
        r == row_dot(cx as int, cy as int, cz as int, vx as int, vy as int, vz as int),
        -3145728000000 <= r <= 3145728000000,
{
    proof {
        lemma_mul_bound(cx as int, vx as int, MAT_LIMIT as int, COORD_LIMIT as int);
        lemma_mul_bound(cy as int, vy as int, MAT_LIMIT as int, COORD_LIMIT as int);
        lemma_mul_bound(cz as int, vz as int, MAT_LIMIT as int, COORD_LIMIT as int);
    }
    cx * vx + cy * vy + cz * vz
}

/// Floor division by the fixed-point scale, on either sign.
fn div_floor_fx(a: i64) -> (q: i64)
    requires
        -4000000000000 <= a <= 4000000000000,
    ensures
        q == a as int / 1000,
{
    if a >= 0 {
        a / 1000
    } else {
        -((-a + 999) / 1000)
    }
}

/// The magnitude of a bounded value.
fn abs_fx(a: i64) -> (r: i64)
    requires
        -MAT_LIMIT <= a <= MAT_LIMIT,
    ensures
        r == abs_i(a as int),
{
    if a < 0 {
        -a
    } else {
        a
    }
}

/// Carry a local-space box into world space under the affine map `[ m | t ]`.
///
/// The new center is the map applied to the old one; the new half-extents
/// run the absolute rows against the old half-extents, rounded up, so the box
/// covers the image of everything the old box held (see
/// `lemma_world_aabb_contains`). Works for any mix of rotation, non-uniform
/// scale and translation.
pub fn aabb_world(m: &Mat3Fx, t: &Vec3Fx, local: &Aabb) -> (w: Aabb)
    requires
        m.bounded(),
        t.bounded(COORD_LIMIT as int),
        local.center.bounded(COORD_LIMIT as int),
        local.half.bounded(COORD_LIMIT as int),
        local.well_formed(),
    ensures
        w == world_aabb(*m, *t, *local),
        w.well_formed(),
{
    let cx: i64 = row_dot_fx(
        m.col_x.x,
        m.col_y.x,
        m.col_z.x,
        local.center.x,
        local.center.y,
        local.center.z,
    );
    let cy: i64 = row_dot_fx(
        m.col_x.y,
        m.col_y.y,
        m.col_z.y,
        local.center.x,
        local.center.y,
        local.center.z,
    );
    let cz: i64 = row_dot_fx(
        m.col_x.z,
        m.col_y.z,
        m.col_z.z,
        local.center.x,
        local.center.y,
        local.center.z,
    );
    let hx: i64 = row_dot_fx(
        abs_fx(m.col_x.x),
        abs_fx(m.col_y.x),
        abs_fx(m.col_z.x),
        local.half.x,
        local.half.y,
        local.half.z,
    );
    let hy: i64 = row_dot_fx(
        abs_fx(m.col_x.y),
        abs_fx(m.col_y.y),
        abs_fx(m.col_z.y),
        local.half.x,
        local.half.y,
        local.half.z,
    );
    let hz: i64 = row_dot_fx(
        abs_fx(m.col_x.z),
        abs_fx(m.col_y.z),
        abs_fx(m.col_z.z),
        local.half.x,
        local.half.y,
        local.half.z,
    );
    proof {
        lemma_abs_row_nonneg(m.col_x.x as int, m.col_y.x as int, m.col_z.x as int, local.half);
        lemma_abs_row_nonneg(m.col_x.y as int, m.col_y.y as int, m.col_z.y as int, local.half);
        lemma_abs_row_nonneg(m.col_x.z as int, m.col_y.z as int, m.col_z.z as int, local.half);
    }
    Aabb {
        center: Vec3Fx {
            x: div_floor_fx(cx) + t.x,
            y: div_floor_fx(cy) + t.y,
            z: div_floor_fx(cz) + t.z,
        },
        half: Vec3Fx { x: (hx + 999) / 1000, y: (hy + 999) / 1000, z: (hz + 999) / 1000 },
    }
}

/// The absolute row against nonnegative half-extents gives something
/// nonnegative.
proof fn lemma_abs_row_nonneg(cx: int, cy: int, cz: int, h: Vec3Fx)
    by (nonlinear_arith)
    requires
        h.x >= 0,
        h.y >= 0,
        h.z >= 0,
    ensures
        row_dot(abs_i(cx), abs_i(cy), abs_i(cz), h.x as int, h.y as int, h.z as int) >= 0,
{
}

/// A matrix entry against a point inside the slab of one half-extent stays
/// within the absolute entry against that half-extent.
proof fn lemma_entry_spread(mm: int, pp: int, cc: int, hh: int)
    by (nonlinear_arith)
    requires
        cc - hh <= pp <= cc + hh,
        0 <= hh,
    ensures
        -(abs_i(mm) * hh) <= mm * pp - mm * cc <= abs_i(mm) * hh,
{
}

/// Floor-dividing two values at most `d` apart lands at most `ceil(d / 1000)`
/// apart.
proof fn lemma_div_spread(a: int, b: int, d: int)
    requires
        0 <= d,
        b - d <= a <= b + d,
    ensures
        b / 1000 - (d + 999) / 1000 <= a / 1000 <= b / 1000 + (d + 999) / 1000,
{
    assert(b == 1000 * (b / 1000) + b % 1000) by (nonlinear_arith);
    assert(a == 1000 * (a / 1000) + a % 1000) by (nonlinear_arith);
    assert(d == 1000 * (d / 1000) + d % 1000) by (nonlinear_arith);
    assert((d + 999) / 1000 == if d % 1000 == 0 {
        d / 1000
    } else {
        d / 1000 + 1
    }) by (nonlinear_arith);
}

/// The world box of `aabb_world` covers the image of every point the local
/// box holds: if `(px, py, pz)` lies within `local`, its image under the same
/// fixed-point transform lies within `world_aabb(m, t, local)`.
pub proof fn lemma_world_aabb_contains(m: Mat3Fx, t: Vec3Fx, local: Aabb, px: int, py: int, pz: int)
    requires
        m.bounded(),
        t.bounded(COORD_LIMIT as int),
        local.center.bounded(COORD_LIMIT as int),
        local.half.bounded(COORD_LIMIT as int),
        local.well_formed(),
        local.center.x - local.half.x <= px <= local.center.x + local.half.x,
        local.center.y - local.half.y <= py <= local.center.y + local.half.y,
        local.center.z - local.half.z <= pz <= local.center.z + local.half.z,
    ensures
        ({
            let q = world_point(m, t, px, py, pz);
            let w = world_aabb(m, t, local);
            &&& w.center.x - w.half.x <= q.0 <= w.center.x + w.half.x
            &&& w.center.y - w.half.y <= q.1 <= w.center.y + w.half.y
            &&& w.center.z - w.half.z <= q.2 <= w.center.z + w.half.z
        }),
{
    lemma_world_row_contains(m.col_x.x as int, m.col_y.x as int, m.col_z.x as int, local, px, py, pz);
    lemma_world_row_contains(m.col_x.y as int, m.col_y.y as int, m.col_z.y as int, local, px, py, pz);
    lemma_world_row_contains(m.col_x.z as int, m.col_y.z as int, m.col_z.z as int, local, px, py, pz);
}

/// One row of the containment argument: the transformed coordinate stays
/// within the rounded-up transformed half-extent of the transformed center.
proof fn lemma_world_row_contains(cx: int, cy: int, cz: int, local: Aabb, px: int, py: int, pz: int)
    requires
        -MAT_LIMIT <= cx <= MAT_LIMIT,
        -MAT_LIMIT <= cy <= MAT_LIMIT,
        -MAT_LIMIT <= cz <= MAT_LIMIT,
        local.center.bounded(COORD_LIMIT as int),
        local.half.bounded(COORD_LIMIT as int),
        local.well_formed(),
        local.center.x - local.half.x <= px <= local.center.x + local.half.x,
        local.center.y - local.half.y <= py <= local.center.y + local.half.y,
        local.center.z - local.half.z <= pz <= local.center.z + local.half.z,
    ensures
        ({
            let a = row_dot(cx, cy, cz, px, py, pz);
            let b = row_dot(
                cx,
                cy,
                cz,
                local.center.x as int,
                local.center.y as int,
                local.center.z as int,
            );
            let d = row_dot(
                abs_i(cx),
                abs_i(cy),
                abs_i(cz),
                local.half.x as int,
                local.half.y as int,
                local.half.z as int,
            );
            &&& b / 1000 - (d + 999) / 1000 <= a / 1000 <= b / 1000 + (d + 999) / 1000
            &&& -3145728000000 <= b <= 3145728000000
            &&& 0 <= d <= 3145728000000
        }),
{
    lemma_mul_bound(cx, local.center.x as int, MAT_LIMIT as int, COORD_LIMIT as int);
    lemma_mul_bound(cy, local.center.y as int, MAT_LIMIT as int, COORD_LIMIT as int);
    lemma_mul_bound(cz, local.center.z as int, MAT_LIMIT as int, COORD_LIMIT as int);
    lemma_mul_bound(abs_i(cx), local.half.x as int, MAT_LIMIT as int, COORD_LIMIT as int);
    lemma_mul_bound(abs_i(cy), local.half.y as int, MAT_LIMIT as int, COORD_LIMIT as int);
    lemma_mul_bound(abs_i(cz), local.half.z as int, MAT_LIMIT as int, COORD_LIMIT as int);
    let a = row_dot(cx, cy, cz, px, py, pz);
    let b = row_dot(cx, cy, cz, local.center.x as int, local.center.y as int, local.center.z as int);
    let d = row_dot(
        abs_i(cx),
        abs_i(cy),
        abs_i(cz),
        local.half.x as int,
        local.half.y as int,
        local.half.z as int,
    );
    lemma_entry_spread(cx, px, local.center.x as int, local.half.x as int);
    lemma_entry_spread(cy, py, local.center.y as int, local.half.y as int);
    lemma_entry_spread(cz, pz, local.center.z as int, local.half.z as int);
    lemma_abs_row_nonneg(cx, cy, cz, local.half);
    assert(b - d <= a <= b + d);
    lemma_div_spread(a, b, d);
}

} // verus!
