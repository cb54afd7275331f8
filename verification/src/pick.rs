//! Ray-vs-box picking by the slab method, in exact arithmetic.
//!
//! A click becomes a ray `origin + t * dir`; each world box is tested and the
//! closest hit selected. Times `t` are rationals `num / den` with positive
//! denominators, so every comparison is an exact cross-multiplication —
//! there is no epsilon and no rounding anywhere in the decision.
//!
//! `ray_box_entry` returns the least `t >= 0` at which the ray stands inside
//! the box, and its contract says exactly that: the returned time is a
//! witness, every witness is at least the returned time, and `None` means no
//! witness exists. `pick_nearest` folds that over a scene, keeping the
//! earliest-seen box among those of least entry time, as the editor's click
//! handler does.

use vstd::prelude::*;
use crate::geom::{Aabb, Vec3Fx, COORD_LIMIT};

verus! {

/// Largest magnitude for the center and half-extents of a picked box, so
/// that its corners stay within `COORD_LIMIT`.
pub const HALF_COORD_LIMIT: i64 = 524288;

/// A ray time: the rational `num / den`, with `den > 0`.
#[derive(Clone, Copy, PartialEq, Eq, Structural, Debug)]
pub struct HitTime {
    pub num: i64,
    pub den: i64,
}

impl HitTime {
    /// A nonnegative time whose parts are small enough that every
    /// cross-multiplied comparison fits.
    pub open spec fn well_formed(self) -> bool {
        0 <= self.num <= 2 * COORD_LIMIT && 0 < self.den <= COORD_LIMIT
    }
}

/// At time `tn / td`, the ray coordinate `o + (tn/td) * d` lies within
/// `[lo, hi]` — cross-multiplied by `td` to stay in integers.
pub open spec fn slab_at(o: int, d: int, lo: int, hi: int, tn: int, td: int) -> bool {
    lo * td <= o * td + tn * d <= hi * td
}

/// At time `tn / td` (with `td > 0`, `tn >= 0`) the ray stands inside the box
/// `[lo, hi]` on all three axes.
pub open spec fn ray_in_box_at(
    o: Vec3Fx,
    d: Vec3Fx,
    lo: Vec3Fx,
    hi: Vec3Fx,
    tn: int,
    td: int,
) -> bool {
    &&& td > 0
    &&& tn >= 0
    &&& slab_at(o.x as int, d.x as int, lo.x as int, hi.x as int, tn, td)
    &&& slab_at(o.y as int, d.y as int, lo.y as int, hi.y as int, tn, td)
    &&& slab_at(o.z as int, d.z as int, lo.z as int, hi.z as int, tn, td)
}

/// Some nonnegative time puts the ray inside the box.
pub open spec fn ray_hits_box(o: Vec3Fx, d: Vec3Fx, lo: Vec3Fx, hi: Vec3Fx) -> bool {
    exists|tn: int, td: int| #[trigger] ray_in_box_at(o, d, lo, hi, tn, td)
}

/// What one axis contributes to the set of feasible times.
enum AxisSlab {
    /// The ray is parallel to the slab and starts inside it: every time is
    /// feasible on this axis.
    Always,
    /// The ray is parallel to the slab and starts outside it: no time is
    /// feasible.
    Never,
    /// The ray crosses the slab during `[en / den, xn / den]`.
    Window { en: i64, xn: i64, den: i64 },
}

/// A strictly smaller value times a positive factor stays strictly smaller.
proof fn lemma_mul_lt(a: int, b: int, f: int)
    by (nonlinear_arith)
    requires
        a < b,
        f > 0,
    ensures
        a * f < b * f,
{
}

/// A value between two others stays between them times a positive factor.
proof fn lemma_mul_le_both(lo: int, o: int, hi: int, f: int)
    by (nonlinear_arith)
    requires
        lo <= o <= hi,
        f > 0,
    ensures
        lo * f <= o * f <= hi * f,
{
}

/// The slab condition, rewritten free of the time's sign: crossing the slab
/// between entry and exit, both over the positive denominator `den`.
proof fn lemma_axis_window(
    o: int,
    d: int,
    lo: int,
    hi: int,
    en: int,
    xn: int,
    den: int,
    tn: int,
    td: int,
)
    by (nonlinear_arith)
    requires
        td > 0,
        (d > 0 && en == lo - o && xn == hi - o && den == d) || (d < 0 && en == o - hi && xn == o
            - lo && den == -d),
    ensures
        (lo * td <= o * td + tn * d <= hi * td) <==> (en * td <= tn * den && tn * den <= xn * td),
{
}

/// Rational order is transitive: `a/ad <= b/bd <= c/cd` gives
/// `a/ad <= c/cd`, all denominators positive.
proof fn lemma_rle_trans(an: int, ad: int, bn: int, bd: int, cn: int, cd: int)
    by (nonlinear_arith)
    requires
        ad > 0,
        bd > 0,
        cd > 0,
        an * bd <= bn * ad,
        bn * cd <= cn * bd,
    ensures
        an * cd <= cn * ad,
{
}

/// Strictly below then at most: still strictly below.
proof fn lemma_rlt_rle_trans(an: int, ad: int, bn: int, bd: int, cn: int, cd: int)
    by (nonlinear_arith)
    requires
        ad > 0,
        bd > 0,
        cd > 0,
        an * bd < bn * ad,
        bn * cd <= cn * bd,
    ensures
        an * cd < cn * ad,
{
}

/// A positive numerator over a positive denominator is strictly above a
/// nonnegative-over-positive only if the cross products say so; used to read
/// signs off cross products.
proof fn lemma_cross_sign(an: int, ad: int, bn: int, bd: int)
    by (nonlinear_arith)
    requires
        ad > 0,
        bd > 0,
        an >= 0,
        an * bd < bn * ad,
    ensures
        bn > 0,
{
}

/// Whether the rational `an / ad` lies strictly below `bn / bd`, by exact
/// cross-multiplication.
fn rat_lt(an: i64, ad: i64, bn: i64, bd: i64) -> (r: bool)
    requires
        -2 * COORD_LIMIT <= an <= 2 * COORD_LIMIT,
        0 < ad <= COORD_LIMIT,
        -2 * COORD_LIMIT <= bn <= 2 * COORD_LIMIT,
        0 < bd <= COORD_LIMIT,
    ensures
        r == (an * bd < bn * ad),
{
    proof {
        assert(-2199023255552 <= an * bd <= 2199023255552) by (nonlinear_arith)
            requires
                -2097152 <= an <= 2097152,
                0 < bd <= 1048576,
        ;
        assert(-2199023255552 <= bn * ad <= 2199023255552) by (nonlinear_arith)
            requires
                -2097152 <= bn <= 2097152,
                0 < ad <= 1048576,
        ;
    }
    an * bd < bn * ad
}

/// What one axis contributes to the feasible times of the slab `[lo, hi]`,
/// for a ray starting at `o` with direction component `d`.
fn axis_slab(o: i64, d: i64, lo: i64, hi: i64) -> (r: AxisSlab)
    requires
        -COORD_LIMIT <= o <= COORD_LIMIT,
        -COORD_LIMIT <= d <= COORD_LIMIT,
        -COORD_LIMIT <= lo <= COORD_LIMIT,
        -COORD_LIMIT <= hi <= COORD_LIMIT,
        lo <= hi,
    ensures
        match r {
            AxisSlab::Always => forall|tn: int, td: int|
                td > 0 ==> #[trigger] slab_at(o as int, d as int, lo as int, hi as int, tn, td),
            AxisSlab::Never => forall|tn: int, td: int|
                td > 0 ==> !#[trigger] slab_at(o as int, d as int, lo as int, hi as int, tn, td),
            AxisSlab::Window { en, xn, den } => {
                &&& 0 < den <= COORD_LIMIT
                &&& -2 * COORD_LIMIT <= en <= xn <= 2 * COORD_LIMIT
                &&& forall|tn: int, td: int|
                    td > 0 ==> (#[trigger] slab_at(o as int, d as int, lo as int, hi as int, tn, td)
                        <==> (en * td <= tn * den && tn * den <= xn * td))
            },
        },
{
    if d == 0 {
        if lo <= o && o <= hi {
            proof {
                assert forall|tn: int, td: int|
                    td > 0 implies #[trigger] slab_at(
                    o as int,
                    d as int,
                    lo as int,
                    hi as int,
                    tn,
                    td,
                ) by {
                    lemma_mul_le_both(lo as int, o as int, hi as int, td);
                }
            }
            AxisSlab::Always
        } else {
            proof {
                assert forall|tn: int, td: int|
                    td > 0 implies !#[trigger] slab_at(
                    o as int,
                    d as int,
                    lo as int,
                    hi as int,
                    tn,
                    td,
                ) by {
                    if o < lo {
                        lemma_mul_lt(o as int, lo as int, td);
                    } else {
                        lemma_mul_lt(hi as int, o as int, td);
                    }
                }
            }
            AxisSlab::Never
        }
    } else if d > 0 {
        let en: i64 = lo - o;
        let xn: i64 = hi - o;
        proof {
            assert forall|tn: int, td: int|
                td > 0 implies (#[trigger] slab_at(o as int, d as int, lo as int, hi as int, tn, td)
                <==> (en * td <= tn * d && tn * d <= xn * td)) by {
                lemma_axis_window(
                    o as int,
                    d as int,
                    lo as int,
                    hi as int,
                    en as int,
                    xn as int,
                    d as int,
                    tn,
                    td,
                );
            }
        }
        AxisSlab::Window { en, xn, den: d }
    } else {
        let en: i64 = o - hi;
        let xn: i64 = o - lo;
        let den: i64 = -d;
        proof {
            assert forall|tn: int, td: int|
                td > 0 implies (#[trigger] slab_at(o as int, d as int, lo as int, hi as int, tn, td)
                <==> (en * td <= tn * den && tn * den <= xn * td)) by {
                lemma_axis_window(
                    o as int,
                    d as int,
                    lo as int,
                    hi as int,
                    en as int,
                    xn as int,
                    den as int,
                    tn,
                    td,
                );
            }
        }
        AxisSlab::Window { en, xn, den }
    }
}

/// The least nonnegative time at which the ray `o + t * d` stands inside the
/// box `[lo, hi]`, or `None` if it never does.
///
/// Each axis either rules every time in or out (ray parallel to the slab) or
/// contributes an entry/exit window; the windows are intersected with
/// `[0, +inf)` exactly, and the low end of the intersection returned. The
/// contract pins all of it down: the returned time is a witness, no witness
/// comes earlier, and `None` means no witness exists at all.
pub fn ray_box_entry(o: Vec3Fx, d: Vec3Fx, lo: Vec3Fx, hi: Vec3Fx) -> (r: Option<HitTime>)
    requires
        o.bounded(COORD_LIMIT as int),
        d.bounded(COORD_LIMIT as int),
        lo.bounded(COORD_LIMIT as int),
        hi.bounded(COORD_LIMIT as int),
        lo.x <= hi.x,
        lo.y <= hi.y,
        lo.z <= hi.z,
    ensures
        match r {
            Some(t) => {
                &&& t.well_formed()
                &&& ray_in_box_at(o, d, lo, hi, t.num as int, t.den as int)
                &&& forall|tn: int, td: int|
                    #[trigger] ray_in_box_at(o, d, lo, hi, tn, td) ==> t.num * td <= tn * t.den
            },
            None => !ray_hits_box(o, d, lo, hi),
        },
{
    let sx = axis_slab(o.x, d.x, lo.x, hi.x);
    let sy = axis_slab(o.y, d.y, lo.y, hi.y);
    let sz = axis_slab(o.z, d.z, lo.z, hi.z);

    match sx {
        AxisSlab::Never => {
            proof {
                assert forall|tn: int, td: int| !ray_in_box_at(o, d, lo, hi, tn, td) by {
                    if ray_in_box_at(o, d, lo, hi, tn, td) {
                        assert(slab_at(o.x as int, d.x as int, lo.x as int, hi.x as int, tn, td));
                        assert(false);
                    }
                }
                assert(!ray_hits_box(o, d, lo, hi));
            }
            return None;
        },
        _ => {},
    }
    match sy {
        AxisSlab::Never => {
            proof {
                assert forall|tn: int, td: int| !ray_in_box_at(o, d, lo, hi, tn, td) by {
                    if ray_in_box_at(o, d, lo, hi, tn, td) {
                        assert(slab_at(o.y as int, d.y as int, lo.y as int, hi.y as int, tn, td));
                        assert(false);
                    }
                }
                assert(!ray_hits_box(o, d, lo, hi));
            }
            return None;
        },
        _ => {},
    }
    match sz {
        AxisSlab::Never => {
            proof {
                assert forall|tn: int, td: int| !ray_in_box_at(o, d, lo, hi, tn, td) by {
                    if ray_in_box_at(o, d, lo, hi, tn, td) {
                        assert(slab_at(o.z as int, d.z as int, lo.z as int, hi.z as int, tn, td));
                        assert(false);
                    }
                }
                assert(!ray_hits_box(o, d, lo, hi));
            }
            return None;
        },
        _ => {},
    }

    // The running intersection: times no earlier than ln/ld and, once
    // `bounded`, no later than un/ud. It starts at [0, +inf).
    let mut ln: i64 = 0;
    let mut ld: i64 = 1;
    let mut un: i64 = 0;
    let mut ud: i64 = 1;
    let mut bounded: bool = false;

    let ghost mut wx_win: bool = false;
    let ghost mut wx_en: int = 0;
    let ghost mut wx_xn: int = 0;
    let ghost mut wx_den: int = 1;
    let ghost mut wy_win: bool = false;
    let ghost mut wy_en: int = 0;
    let ghost mut wy_xn: int = 0;
    let ghost mut wy_den: int = 1;
    let ghost mut wz_win: bool = false;
    let ghost mut wz_en: int = 0;
    let ghost mut wz_xn: int = 0;
    let ghost mut wz_den: int = 1;

    match sx {
        AxisSlab::Window { en, xn, den } => {
            proof {
                wx_win = true;
                wx_en = en as int;
                wx_xn = xn as int;
                wx_den = den as int;
            }
            if rat_lt(ln, ld, en, den) {
                proof {
                    lemma_cross_sign(ln as int, ld as int, en as int, den as int);
                }
                ln = en;
                ld = den;
            }
            un = xn;
            ud = den;
            bounded = true;
        },
        _ => {},
    }
    proof {
        assert(0 <= ln <= 2 * COORD_LIMIT && 0 < ld <= COORD_LIMIT);
        assert(-2 * COORD_LIMIT <= un <= 2 * COORD_LIMIT && 0 < ud <= COORD_LIMIT);
        assert(wx_win ==> wx_en * ld <= ln * wx_den);
        assert(wx_win ==> un * wx_den <= wx_xn * ud);
        assert((ln == 0 && ld == 1) || (wx_win && ln == wx_en && ld == wx_den));
        assert(bounded == wx_win);
        assert(bounded ==> (wx_win && un == wx_xn && ud == wx_den));
    }

    let ghost l1n: int = ln as int;
    let ghost l1d: int = ld as int;
    let ghost u1n: int = un as int;
    let ghost u1d: int = ud as int;
    match sy {
        AxisSlab::Window { en, xn, den } => {
            proof {
                wy_win = true;
                wy_en = en as int;
                wy_xn = xn as int;
                wy_den = den as int;
            }
            if rat_lt(ln, ld, en, den) {
                proof {
                    lemma_cross_sign(ln as int, ld as int, en as int, den as int);
                }
                ln = en;
                ld = den;
            }
            if !bounded {
                un = xn;
                ud = den;
                bounded = true;
            } else if rat_lt(xn, den, un, ud) {
                un = xn;
                ud = den;
            }
        },
        _ => {},
    }
    proof {
        if wx_win {
            lemma_rle_trans(wx_en, wx_den, l1n, l1d, ln as int, ld as int);
            if bounded {
                lemma_rle_trans(un as int, ud as int, u1n, u1d, wx_xn, wx_den);
            }
        }
        assert(0 <= ln <= 2 * COORD_LIMIT && 0 < ld <= COORD_LIMIT);
        assert(-2 * COORD_LIMIT <= un <= 2 * COORD_LIMIT && 0 < ud <= COORD_LIMIT);
        assert(wx_win ==> wx_en * ld <= ln * wx_den);
        assert(wy_win ==> wy_en * ld <= ln * wy_den);
        assert(wx_win ==> un * wx_den <= wx_xn * ud);
        assert(wy_win ==> un * wy_den <= wy_xn * ud);
        assert((ln == 0 && ld == 1) || (wx_win && ln == wx_en && ld == wx_den) || (wy_win && ln
            == wy_en && ld == wy_den));
        assert(bounded == (wx_win || wy_win));
        assert(bounded ==> ((wx_win && un == wx_xn && ud == wx_den) || (wy_win && un == wy_xn && ud
            == wy_den)));
    }

    let ghost l2n: int = ln as int;
    let ghost l2d: int = ld as int;
    let ghost u2n: int = un as int;
    let ghost u2d: int = ud as int;
    match sz {
        AxisSlab::Window { en, xn, den } => {
            proof {
                wz_win = true;
                wz_en = en as int;
                wz_xn = xn as int;
                wz_den = den as int;
            }
            if rat_lt(ln, ld, en, den) {
                proof {
                    lemma_cross_sign(ln as int, ld as int, en as int, den as int);
                }
                ln = en;
                ld = den;
            }
            if !bounded {
                un = xn;
                ud = den;
                bounded = true;
            } else if rat_lt(xn, den, un, ud) {
                un = xn;
                ud = den;
            }
        },
        _ => {},
    }
    proof {
        if wx_win {
            lemma_rle_trans(wx_en, wx_den, l2n, l2d, ln as int, ld as int);
            if bounded {
                lemma_rle_trans(un as int, ud as int, u2n, u2d, wx_xn, wx_den);
            }
        }
        if wy_win {
            lemma_rle_trans(wy_en, wy_den, l2n, l2d, ln as int, ld as int);
            if bounded {
                lemma_rle_trans(un as int, ud as int, u2n, u2d, wy_xn, wy_den);
            }
        }
        assert(0 <= ln <= 2 * COORD_LIMIT && 0 < ld <= COORD_LIMIT);
        assert(-2 * COORD_LIMIT <= un <= 2 * COORD_LIMIT && 0 < ud <= COORD_LIMIT);
        assert(wx_win ==> wx_en * ld <= ln * wx_den);
        assert(wy_win ==> wy_en * ld <= ln * wy_den);
        assert(wz_win ==> wz_en * ld <= ln * wz_den);
        assert(wx_win ==> un * wx_den <= wx_xn * ud);
        assert(wy_win ==> un * wy_den <= wy_xn * ud);
        assert(wz_win ==> un * wz_den <= wz_xn * ud);
        assert((ln == 0 && ld == 1) || (wx_win && ln == wx_en && ld == wx_den) || (wy_win && ln
            == wy_en && ld == wy_den) || (wz_win && ln == wz_en && ld == wz_den));
        assert(bounded == (wx_win || wy_win || wz_win));
        assert(bounded ==> ((wx_win && un == wx_xn && ud == wx_den) || (wy_win && un == wy_xn && ud
            == wy_den) || (wz_win && un == wz_xn && ud == wz_den)));
    }

    let miss: bool = bounded && rat_lt(un, ud, ln, ld);
    if miss {
        proof {
            assert forall|tn: int, td: int| !ray_in_box_at(o, d, lo, hi, tn, td) by {
                if ray_in_box_at(o, d, lo, hi, tn, td) {
                    assert(ln * td <= tn * ld);
                    assert(tn * ud <= un * td);
                    lemma_rle_trans(ln as int, ld as int, tn, td, un as int, ud as int);
                    assert(false);
                }
            }
            assert(!ray_hits_box(o, d, lo, hi));
        }
        return None;
    }

    proof {
        if bounded {
            if wx_win {
                lemma_rle_trans(ln as int, ld as int, un as int, ud as int, wx_xn, wx_den);
            }
            if wy_win {
                lemma_rle_trans(ln as int, ld as int, un as int, ud as int, wy_xn, wy_den);
            }
            if wz_win {
                lemma_rle_trans(ln as int, ld as int, un as int, ud as int, wz_xn, wz_den);
            }
        }
        assert(ray_in_box_at(o, d, lo, hi, ln as int, ld as int));
        assert forall|tn: int, td: int|
            #[trigger] ray_in_box_at(o, d, lo, hi, tn, td) implies ln * td <= tn * ld by {
            assert(td > 0 && tn >= 0);
        }
    }
    Some(HitTime { num: ln, den: ld })
}

/// The least corner of a box whose center and half-extents stay within
/// `HALF_COORD_LIMIT`.
pub open spec fn box_lo(b: Aabb) -> Vec3Fx {
    Vec3Fx {
        x: (b.center.x - b.half.x) as i64,
        y: (b.center.y - b.half.y) as i64,
        z: (b.center.z - b.half.z) as i64,
    }
}

/// The greatest corner of the same box.
pub open spec fn box_hi(b: Aabb) -> Vec3Fx {
    Vec3Fx {
        x: (b.center.x + b.half.x) as i64,
        y: (b.center.y + b.half.y) as i64,
        z: (b.center.z + b.half.z) as i64,
    }
}

/// At time `tn / td` the ray stands inside the box `b`.
pub open spec fn box_hit_at(o: Vec3Fx, d: Vec3Fx, b: Aabb, tn: int, td: int) -> bool {
    ray_in_box_at(o, d, box_lo(b), box_hi(b), tn, td)
}

/// Some nonnegative time puts the ray inside the box `b`.
pub open spec fn box_hits(o: Vec3Fx, d: Vec3Fx, b: Aabb) -> bool {
    ray_hits_box(o, d, box_lo(b), box_hi(b))
}

/// A box a ray may be tested against: nonnegative half-extents, and small
/// enough that its corners stay within `COORD_LIMIT`.
pub open spec fn pickable(b: Aabb) -> bool {
    &&& b.well_formed()
    &&& b.center.bounded(HALF_COORD_LIMIT as int)
    &&& b.half.bounded(HALF_COORD_LIMIT as int)
}

/// The box the ray enters first, with its entry time.
///
/// Every box is tested; among those the ray hits, the least entry time wins,
/// and among equal entry times the earliest box in the list — the order the
/// editor's click handler keeps while scanning the scene. `None` means the
/// ray hits nothing.
pub fn pick_nearest(o: Vec3Fx, d: Vec3Fx, boxes: &Vec<Aabb>) -> (r: Option<(usize, HitTime)>)
    requires
        o.bounded(COORD_LIMIT as int),
        d.bounded(COORD_LIMIT as int),
        forall|j: int| 0 <= j < boxes.len() ==> pickable(#[trigger] boxes[j]),
    ensures
        match r {
            Some((i, t)) => {
                &&& i < boxes.len()
                &&& t.well_formed()
                &&& box_hit_at(o, d, boxes[i as int], t.num as int, t.den as int)
                &&& forall|j: int, tn: int, td: int|
                    0 <= j < boxes.len() && #[trigger] box_hit_at(o, d, boxes[j], tn, td)
                        ==> t.num * td <= tn * t.den
                &&& forall|j: int, tn: int, td: int|
                    0 <= j < i && #[trigger] box_hit_at(o, d, boxes[j], tn, td) ==> t.num * td < tn
                        * t.den
            },
            None => forall|j: int| 0 <= j < boxes.len() ==> !box_hits(o, d, #[trigger] boxes[j]),
        },
{
    let mut best: Option<(usize, HitTime)> = None;
    let mut j: usize = 0;
    while j < boxes.len()
        invariant
            o.bounded(COORD_LIMIT as int),
            d.bounded(COORD_LIMIT as int),
            forall|j2: int| 0 <= j2 < boxes.len() ==> pickable(#[trigger] boxes[j2]),
            j <= boxes.len(),
            match best {
                Some((bi, bt)) => {
                    &&& bi < j
                    &&& bt.well_formed()
                    &&& box_hit_at(o, d, boxes[bi as int], bt.num as int, bt.den as int)
                    &&& forall|j2: int, tn: int, td: int|
                        0 <= j2 < j && #[trigger] box_hit_at(o, d, boxes[j2], tn, td) ==> bt.num
                            * td <= tn * bt.den
                    &&& forall|j2: int, tn: int, td: int|
                        0 <= j2 < bi && #[trigger] box_hit_at(o, d, boxes[j2], tn, td) ==> bt.num
                            * td < tn * bt.den
                },
                None => forall|j2: int| 0 <= j2 < j ==> !box_hits(o, d, #[trigger] boxes[j2]),
            },
        decreases boxes.len() - j,
    {
        let b = boxes[j];
        let blo = b.min_corner();
        let bhi = b.max_corner();
        proof {
            assert(blo == box_lo(b));
            assert(bhi == box_hi(b));
        }
        let e = ray_box_entry(o, d, blo, bhi);
        match e {
            None => {
                proof {
                    assert(!box_hits(o, d, boxes[j as int]));
                }
            },
            Some(t) => {
                match best {
                    None => {
                        best = Some((j, t));
                    },
                    Some((bi, bt)) => {
                        if rat_lt(t.num, t.den, bt.num, bt.den) {
                            proof {
                                assert forall|j2: int, tn: int, td: int|
                                    0 <= j2 < j && #[trigger] box_hit_at(
                                        o,
                                        d,
                                        boxes[j2],
                                        tn,
                                        td,
                                    ) implies t.num * td < tn * t.den by {
                                    lemma_rlt_rle_trans(
                                        t.num as int,
                                        t.den as int,
                                        bt.num as int,
                                        bt.den as int,
                                        tn,
                                        td,
                                    );
                                }
                            }
                            best = Some((j, t));
                        } else {
                            proof {
                                assert forall|tn: int, td: int|
                                    #[trigger] box_hit_at(
                                        o,
                                        d,
                                        boxes[j as int],
                                        tn,
                                        td,
                                    ) implies bt.num * td <= tn * bt.den by {
                                    lemma_rle_trans(
                                        bt.num as int,
                                        bt.den as int,
                                        t.num as int,
                                        t.den as int,
                                        tn,
                                        td,
                                    );
                                }
                            }
                        }
                    },
                }
            },
        }
        j = j + 1;
    }
    best
}

} // verus!
