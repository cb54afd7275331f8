//! The orbit-camera rig: a camera that circles a fixed target.
//!
//! The rig's pose is fully described by a preset index (four "clock" diagonals
//! a quarter turn apart), a base yaw offset, a continuous extra yaw driven by
//! held keys, and a pitch above the ground plane. The shell turns these angles
//! into a world transform with trigonometry; everything decided here — which
//! preset is active, how the angles move and where they are clamped — is exact.
//!
//! Angles are held in microradians (`i64` counts of 1e-6 rad).

use vstd::prelude::*;

verus! {

/// A full turn, in microradians.
pub const TAU_URAD: i64 = 6283185;
/// A quarter turn, in microradians.
pub const HALF_PI_URAD: i64 = 1570796;
/// An eighth of a turn: the rig's base yaw offset (the isometric diagonal).
pub const QUARTER_PI_URAD: i64 = 785398;
/// A twelfth of a turn: the pitch the camera rests at.
pub const REST_PITCH_URAD: i64 = 523598;

/// Yaw speed while a rotate key is held, in microradians per second.
pub const ANGULAR_SPEED_URAD: i64 = 800000;
/// Pitch change per tilt step (one frame at the tilt speed), in microradians.
pub const PITCH_STEP_URAD: i64 = 3333;

/// One frame or key poll never spans more than this many milliseconds.
pub const MAX_FRAME_MS: i64 = 1000000;

/// The orbit-camera rig state.
///
/// `index_4` selects one of the four snap presets, a quarter turn apart;
/// `yaw_extra_urad` is the continuous offset added by the rotate keys and
/// `pitch_urad` the elevation above the ground plane. The total yaw the shell
/// renders is `yaw_offset_urad + index_4 * HALF_PI_URAD + yaw_extra_urad`.
pub struct OrbitCamera {
    pub index_4: u8,
    pub yaw_offset_urad: i64,
    pub yaw_extra_urad: i64,
    pub pitch_urad: i64,
}

/// The snap and rotate keys read each frame: the four digit presets and the
/// two quarter-turn steps.
#[derive(Clone, Copy)]
pub struct OrbitKeys {
    pub digit1: bool,
    pub digit2: bool,
    pub digit3: bool,
    pub digit4: bool,
    pub q: bool,
    pub e: bool,
}

impl OrbitKeys {
    /// Whether any snap or rotate key fired this frame.
    pub open spec fn spec_any(self) -> bool {
        self.digit1 || self.digit2 || self.digit3 || self.digit4 || self.q || self.e
    }

    pub fn any(&self) -> (r: bool)
        ensures
            r == self.spec_any(),
    {
        self.digit1 || self.digit2 || self.digit3 || self.digit4 || self.q || self.e
    }
}

/// The preset index the hotkeys leave behind, starting from `before`.
///
/// The keys apply in a fixed order: the highest digit pressed picks its
/// preset outright, then Q steps one preset back and E one forward, wrapping
/// among the four presets.
pub open spec fn hotkey_index(before: int, k: OrbitKeys) -> int {
    let picked: int = if k.digit4 {
        3
    } else if k.digit3 {
        2
    } else if k.digit2 {
        1
    } else if k.digit1 {
        0
    } else {
        before
    };
    let stepped: int = picked + (if k.e { 1int } else { 0 }) - (if k.q { 1int } else { 0 });
    stepped % 4
}

/// Clamp `v` into `[lo, hi]`.
pub open spec fn clamp_i(v: int, lo: int, hi: int) -> int {
    if v < lo {
        lo
    } else if v > hi {
        hi
    } else {
        v
    }
}

/// Remainder with the sign of the dividend, as the shell's modulo computes it.
pub open spec fn trunc_mod(a: int, b: int) -> int
    recommends
        b > 0,
{
    if a >= 0 {
        a % b
    } else {
        -((-a) % b)
    }
}

impl OrbitCamera {
    /// The rig's invariant: the preset index names one of the four diagonals,
    /// the extra yaw has been wrapped into one turn either way, and the pitch
    /// sits between level and straight down.
    pub open spec fn well_formed(self) -> bool {
        &&& self.index_4 < 4
        &&& -TAU_URAD < self.yaw_extra_urad < TAU_URAD
        &&& 0 <= self.pitch_urad <= HALF_PI_URAD
    }

    /// The rig as the camera spawns: first diagonal, no extra yaw, resting
    /// pitch.
    pub fn new() -> (rig: OrbitCamera)
        ensures
            rig.well_formed(),
            rig.index_4 == 0,
            rig.yaw_offset_urad == QUARTER_PI_URAD,
            rig.yaw_extra_urad == 0,
            rig.pitch_urad == REST_PITCH_URAD,
    {
        OrbitCamera {
            index_4: 0,
            yaw_offset_urad: QUARTER_PI_URAD,
            yaw_extra_urad: 0,
            pitch_urad: REST_PITCH_URAD,
        }
    }

    /// Total yaw of the current pose, in microradians: base offset, plus a
    /// quarter turn per preset step, plus the continuous extra.
    pub fn yaw_urad(&self) -> (yaw: i64)
        requires
            self.well_formed(),
            -TAU_URAD < self.yaw_offset_urad < TAU_URAD,
        ensures
            yaw == self.yaw_offset_urad + self.index_4 * HALF_PI_URAD + self.yaw_extra_urad,
    {
        self.yaw_offset_urad + (self.index_4 as i64) * HALF_PI_URAD + self.yaw_extra_urad
    }

    /// Apply one frame of snap hotkeys.
    ///
    /// Any snap or rotate key clears the continuous extra yaw; the preset
    /// index moves as `hotkey_index` says. With no key down the rig is left
    /// untouched.
    pub fn apply_hotkeys(&mut self, k: OrbitKeys)
        requires
            old(self).well_formed(),
        ensures
            final(self).well_formed(),
            final(self).index_4 == if k.spec_any() {
                hotkey_index(old(self).index_4 as int, k)
            } else {
                old(self).index_4 as int
            },
            final(self).yaw_extra_urad == if k.spec_any() {
                0
            } else {
                old(self).yaw_extra_urad
            },
            final(self).pitch_urad == old(self).pitch_urad,
            final(self).yaw_offset_urad == old(self).yaw_offset_urad,
    {
        if !k.any() {
            return;
        }
        let mut idx: u8 = self.index_4;
        if k.digit1 {
            idx = 0;
        }
        if k.digit2 {
            idx = 1;
        }
        if k.digit3 {
            idx = 2;
        }
        if k.digit4 {
            idx = 3;
        }
        if k.q {
            idx = (idx + 3) % 4;
        }
        if k.e {
            idx = (idx + 1) % 4;
        }
        self.index_4 = idx;
        self.yaw_extra_urad = 0;
    }

    /// Apply one frame of continuous rotation: `left` and `right` are the
    /// held rotate keys, `dt_ms` the frame time in milliseconds.
    ///
    /// The extra yaw grows at `ANGULAR_SPEED_URAD` in the chosen direction
    /// and is wrapped to within one turn, keeping the sign it had — exactly
    /// the shell's floating-point remainder. With neither or both keys held
    /// the rig does not move.
    pub fn rotate_continuous(&mut self, left: bool, right: bool, dt_ms: i64)
        requires
            old(self).well_formed(),
            0 <= dt_ms <= MAX_FRAME_MS,
        ensures
            final(self).well_formed(),
            final(self).yaw_extra_urad == if left != right {
                trunc_mod(
                    old(self).yaw_extra_urad + (if right { 1int } else { -1int }) * (
                    ANGULAR_SPEED_URAD / 1000) * dt_ms,
                    TAU_URAD as int,
                )
            } else {
                old(self).yaw_extra_urad as int
            },
            final(self).index_4 == old(self).index_4,
            final(self).pitch_urad == old(self).pitch_urad,
            final(self).yaw_offset_urad == old(self).yaw_offset_urad,
    {
        if left == right {
            return;
        }
        let ghost before: int = self.yaw_extra_urad as int;
        let step: i64 = (ANGULAR_SPEED_URAD / 1000) * dt_ms;
        let sum: i64 = if right {
            self.yaw_extra_urad + step
        } else {
            self.yaw_extra_urad - step
        };
        proof {
            let d: int = if right {
                1int
            } else {
                -1int
            };
            assert(sum == before + d * (ANGULAR_SPEED_URAD / 1000) * dt_ms) by (nonlinear_arith)
                requires
                    step == (ANGULAR_SPEED_URAD / 1000) * dt_ms,
                    d == if right {
                        1int
                    } else {
                        -1int
                    },
                    sum == if right {
                        before + step
                    } else {
                        before - step
                    },
            ;
        }
        let wrapped: i64 = if sum >= 0 {
            sum % TAU_URAD
        } else {
            -((-sum) % TAU_URAD)
        };
        proof {
            assert(wrapped == trunc_mod(sum as int, TAU_URAD as int));
        }
        self.yaw_extra_urad = wrapped;
    }

    /// Apply one frame of pitch tilt: `up` and `down` are the held tilt keys.
    ///
    /// The pitch moves one step toward the held key and is then clamped
    /// between level and straight down. Returns whether the keys moved the
    /// pitch at all — the shell cancels a pending snapback exactly then.
    pub fn tilt(&mut self, up: bool, down: bool) -> (moved: bool)
        requires
            old(self).well_formed(),
        ensures
            final(self).well_formed(),
            moved == (up != down),
            final(self).pitch_urad == if up != down {
                clamp_i(
                    old(self).pitch_urad + (if up { 1int } else { -1int }) * PITCH_STEP_URAD,
                    0,
                    HALF_PI_URAD as int,
                )
            } else {
                old(self).pitch_urad as int
            },
            final(self).index_4 == old(self).index_4,
            final(self).yaw_extra_urad == old(self).yaw_extra_urad,
            final(self).yaw_offset_urad == old(self).yaw_offset_urad,
    {
        if up == down {
            return false;
        }
        let dp: i64 = if up {
            1
        } else {
            -1
        };
        let mut pitch: i64 = self.pitch_urad + dp * PITCH_STEP_URAD;
        if pitch < 0 {
            pitch = 0;
        }
        if pitch > HALF_PI_URAD {
            pitch = HALF_PI_URAD;
        }
        self.pitch_urad = pitch;
        true
    }
}

/// Where a pitch snapback that started at `start` stands once an eased
/// per-mille share `e` of it has passed: `e` thousandths of the way from
/// `start` to the resting pitch, rounded toward `start`.
pub open spec fn lerp_toward_rest(start: int, e: int) -> int {
    if start <= REST_PITCH_URAD {
        start + (REST_PITCH_URAD - start) * e / 1000
    } else {
        start - (start - REST_PITCH_URAD) * e / 1000
    }
}

/// The pitch of a snapback in flight, easing from `start_urad` back to the
/// resting pitch.
///
/// `elapsed_ms` of a `duration_ms`-long snapback have passed; the fraction
/// done is cubed (a slow start that accelerates) and the pitch interpolated
/// that far toward `REST_PITCH_URAD`. At the start the pitch is exactly
/// `start_urad`, from `duration_ms` on it is exactly the resting pitch, and
/// it never leaves the interval the two ends span.
pub fn snapback_pitch(start_urad: i64, elapsed_ms: i64, duration_ms: i64) -> (pitch: i64)
    requires
        0 <= start_urad <= HALF_PI_URAD,
        0 <= elapsed_ms,
        0 < duration_ms <= MAX_FRAME_MS,
    ensures
        pitch == lerp_toward_rest(
            start_urad as int,
            eased_fraction(elapsed_ms as int, duration_ms as int),
        ),
        elapsed_ms == 0 ==> pitch == start_urad,
        elapsed_ms >= duration_ms ==> pitch == REST_PITCH_URAD,
        start_urad <= REST_PITCH_URAD ==> start_urad <= pitch <= REST_PITCH_URAD,
        start_urad >= REST_PITCH_URAD ==> REST_PITCH_URAD <= pitch <= start_urad,
{
    let clamped: i64 = if elapsed_ms > duration_ms {
        duration_ms
    } else {
        elapsed_ms
    };
    let frac: i64 = clamped * 1000 / duration_ms;
    proof {
        lemma_scaled_fraction_bounds(clamped as int, duration_ms as int);
        assert(0 <= frac <= 1000);
        lemma_eased_bounds(frac as int);
    }
    let eased: i64 = frac * frac / 1000 * frac / 1000;
    proof {
        assert(eased == eased_fraction(elapsed_ms as int, duration_ms as int));
    }
    if start_urad <= REST_PITCH_URAD {
        proof {
            lemma_share_bounds((REST_PITCH_URAD - start_urad) as int, eased as int);
        }
        start_urad + (REST_PITCH_URAD - start_urad) * eased / 1000
    } else {
        proof {
            lemma_share_bounds((start_urad - REST_PITCH_URAD) as int, eased as int);
        }
        start_urad - (start_urad - REST_PITCH_URAD) * eased / 1000
    }
}

/// The eased (cubed) per-mille fraction of a snapback that has passed.
pub open spec fn eased_fraction(elapsed_ms: int, duration_ms: int) -> int {
    let clamped: int = if elapsed_ms > duration_ms {
        duration_ms
    } else {
        elapsed_ms
    };
    let frac: int = clamped * 1000 / duration_ms;
    frac * frac / 1000 * frac / 1000
}

/// A nonnegative share `num` of `den`, scaled to per mille, lands in
/// `[0, 1000]`, and a full share lands exactly on 1000.
proof fn lemma_scaled_fraction_bounds(num: int, den: int)
    by (nonlinear_arith)
    requires
        0 <= num <= den,
        0 < den,
    ensures
        0 <= num * 1000 / den <= 1000,
        num == den ==> num * 1000 / den == 1000,
{
}

/// Cubing a per-mille fraction keeps it a per-mille fraction, and keeps the
/// endpoints.
proof fn lemma_eased_bounds(frac: int)
    by (nonlinear_arith)
    requires
        0 <= frac <= 1000,
    ensures
        0 <= frac * frac <= 1000000,
        0 <= frac * frac / 1000 <= 1000,
        0 <= frac * frac / 1000 * frac <= 1000000,
        0 <= frac * frac / 1000 * frac / 1000 <= 1000,
        frac == 1000 ==> frac * frac / 1000 * frac / 1000 == 1000,
        frac == 0 ==> frac * frac / 1000 * frac / 1000 == 0,
{
}

/// A per-mille share of a nonnegative distance `d` lies between nothing and
/// all of `d`, and the end shares are exact.
proof fn lemma_share_bounds(d: int, e: int)
    by (nonlinear_arith)
    requires
        0 <= e <= 1000,
        0 <= d <= HALF_PI_URAD,
    ensures
        0 <= d * e / 1000 <= d,
        e == 0 ==> d * e / 1000 == 0,
        e == 1000 ==> d * e / 1000 == d,
{
}

/// The raw movement axes the player keys ask for, before the shell rotates
/// them into the camera's frame: screen-right minus screen-left, and
/// screen-up minus screen-down.
pub fn move_axes(up: bool, down: bool, left: bool, right: bool) -> (axes: (i8, i8))
    ensures
        axes.0 == (if right { 1int } else { 0 }) - (if left { 1int } else { 0 }),
        axes.1 == (if up { 1int } else { 0 }) - (if down { 1int } else { 0 }),
{
    let x: i8 = (if right { 1i8 } else { 0i8 }) - (if left { 1i8 } else { 0i8 });
    let y: i8 = (if up { 1i8 } else { 0i8 }) - (if down { 1i8 } else { 0i8 });
    (x, y)
}

} // verus!
