//! The effect panel's rules: what the sliders and checkboxes may set.
//!
//! The widgets live in the shell; every value they hand the renderer passes
//! through these clamps and switches, in the same fixed point as the rest of
//! the library.

use vstd::prelude::*;
use crate::FX_ONE;
use crate::rig::clamp_i;

verus! {

/// Shortest focal distance the depth-of-field panel may set (a tenth of a
/// unit).
pub const MIN_FOCAL_FX: i64 = 100;

/// The aperture range the panel may set, in thousandths of an f-stop.
pub const MIN_F_STOPS_FX: i64 = 10;

/// Upper end of the aperture range, in thousandths of an f-stop.
pub const MAX_F_STOPS_FX: i64 = 64000;

/// Widest outline the panel may set, in thousandths of a unit.
pub const MAX_OUTLINE_WIDTH_FX: i64 = 250;

/// The uniform scale of an outline shell: the mesh blown up by the outline
/// width — or collapsed to nothing, which is how outlines are hidden when
/// the effect is off.
pub fn outline_scale(enabled: bool, width_fx: i64) -> (r: i64)
    requires
        -1000000 <= width_fx <= 1000000,
    ensures
        enabled ==> r == FX_ONE + (if width_fx > 0 {
            width_fx as int
        } else {
            0
        }),
        !enabled ==> r == 0,
{
    if !enabled {
        0
    } else if width_fx > 0 {
        FX_ONE + width_fx
    } else {
        FX_ONE
    }
}

/// The focal distance actually applied: never closer than `MIN_FOCAL_FX`.
pub fn apply_focal_distance(v: i64) -> (r: i64)
    ensures
        r == if v > MIN_FOCAL_FX {
            v as int
        } else {
            MIN_FOCAL_FX as int
        },
{
    if v > MIN_FOCAL_FX {
        v
    } else {
        MIN_FOCAL_FX
    }
}

/// The aperture actually applied: clamped into the panel's range.
pub fn apply_f_stops(v: i64) -> (r: i64)
    ensures
        r == clamp_i(v as int, MIN_F_STOPS_FX as int, MAX_F_STOPS_FX as int),
{
    if v < MIN_F_STOPS_FX {
        MIN_F_STOPS_FX
    } else if v > MAX_F_STOPS_FX {
        MAX_F_STOPS_FX
    } else {
        v
    }
}

/// The outline width actually stored: clamped into the panel's range.
pub fn apply_outline_width(v: i64) -> (r: i64)
    ensures
        r == clamp_i(v as int, 0, MAX_OUTLINE_WIDTH_FX as int),
{
    if v < 0 {
        0
    } else if v > MAX_OUTLINE_WIDTH_FX {
        MAX_OUTLINE_WIDTH_FX
    } else {
        v
    }
}

/// A checkbox as the shader uniforms want it: one when on, zero when off.
pub fn effect_flag(on: bool) -> (r: u32)
    ensures
        r == if on {
            1u32
        } else {
            0u32
        },
{
    if on {
        1
    } else {
        0
    }
}

/// What the tonemapping checkbox does: switching it on while tonemapping is
/// off restores the filmic default; switching it off disables tonemapping;
/// anything else leaves the current operator alone.
pub fn tonemapping_switch(on: bool, currently_off: bool) -> (r: (bool, bool))
    ensures
        r.0 == (on && currently_off),
        r.1 == !on,
        !(r.0 && r.1),
{
    (on && currently_off, !on)
}

/// The colour-grading panel's state: the lookup-table path on show, and a
/// path waiting to be loaded after the user pressed the load button.
pub struct LutUiState {
    pub path: Vec<u8>,
    pub pending: Option<Vec<u8>>,
}

/// The bytes of the lookup table shipped with the editor.
pub open spec fn default_lut_path() -> Seq<u8> {
    seq![
        0x6cu8,
        0x75u8,
        0x74u8,
        0x73u8,
        0x2fu8,
        0x6cu8,
        0x6fu8,
        0x6fu8,
        0x6bu8,
        0x75u8,
        0x70u8,
        0x2eu8,
        0x70u8,
        0x6eu8,
        0x67u8,
    ]
}

impl Default for LutUiState {
    /// The shipped lookup table, with nothing pending.
    fn default() -> (r: Self)
        ensures
            r.path@ == default_lut_path(),
            r.pending is None,
    {
        let mut path: Vec<u8> = Vec::new();
        path.push(0x6c);
        path.push(0x75);
        path.push(0x74);
        path.push(0x73);
        path.push(0x2f);
        path.push(0x6c);
        path.push(0x6f);
        path.push(0x6f);
        path.push(0x6b);
        path.push(0x75);
        path.push(0x70);
        path.push(0x2e);
        path.push(0x70);
        path.push(0x6e);
        path.push(0x67);
        proof {
            assert(path@ =~= default_lut_path());
        }
        LutUiState { path, pending: None }
    }
}

impl LutUiState {
    /// Take a pending path into effect: it becomes the path on show and the
    /// pending slot empties. Returns whether anything was pending — exactly
    /// when the shell must load the table at the new path.
    pub fn apply_pending(&mut self) -> (changed: bool)
        ensures
            final(self).pending is None,
            match old(self).pending {
                Some(p) => changed && final(self).path == p,
                None => !changed && final(self).path == old(self).path,
            },
    {
        let taken: Option<Vec<u8>> = self.pending.take();
        match taken {
            Some(p) => {
                self.path = p;
                true
            },
            None => false,
        }
    }
}

} // verus!
