use diorama::rig::{
    move_axes, snapback_pitch, OrbitCamera, OrbitKeys, HALF_PI_URAD, QUARTER_PI_URAD,
    REST_PITCH_URAD,
};

fn no_keys() -> OrbitKeys {
    OrbitKeys { digit1: false, digit2: false, digit3: false, digit4: false, q: false, e: false }
}

#[test]
fn new_rig_defaults() {
    let rig = OrbitCamera::new();
    assert_eq!(rig.index_4, 0);
    assert_eq!(rig.yaw_offset_urad, QUARTER_PI_URAD);
    assert_eq!(rig.yaw_extra_urad, 0);
    assert_eq!(rig.pitch_urad, REST_PITCH_URAD);
}

#[test]
fn digit_keys_pick_presets() {
    let mut rig = OrbitCamera::new();
    let mut k = no_keys();
    k.digit3 = true;
    rig.apply_hotkeys(k);
    assert_eq!(rig.index_4, 2);
    let mut k2 = no_keys();
    k2.digit2 = true;
    rig.apply_hotkeys(k2);
    assert_eq!(rig.index_4, 1);
}

#[test]
fn step_keys_wrap_around() {
    let mut rig = OrbitCamera::new();
    let mut q = no_keys();
    q.q = true;
    rig.apply_hotkeys(q);
    assert_eq!(rig.index_4, 3);
    let mut e = no_keys();
    e.e = true;
    rig.apply_hotkeys(e);
    assert_eq!(rig.index_4, 0);
}

#[test]
fn digit_and_step_combine_in_order() {
    let mut rig = OrbitCamera::new();
    let mut k = no_keys();
    k.digit4 = true;
    k.e = true;
    rig.apply_hotkeys(k);
    // digit 4 picks preset 3, then E steps once forward, wrapping to 0
    assert_eq!(rig.index_4, 0);
    let mut k2 = no_keys();
    k2.digit2 = true;
    k2.q = true;
    rig.apply_hotkeys(k2);
    assert_eq!(rig.index_4, 0);
}

#[test]
fn hotkeys_clear_continuous_yaw() {
    let mut rig = OrbitCamera::new();
    rig.rotate_continuous(false, true, 1000);
    assert_eq!(rig.yaw_extra_urad, 800000);
    let mut k = no_keys();
    k.digit1 = true;
    rig.apply_hotkeys(k);
    assert_eq!(rig.yaw_extra_urad, 0);
}

#[test]
fn no_keys_change_nothing() {
    let mut rig = OrbitCamera::new();
    rig.rotate_continuous(false, true, 500);
    let extra = rig.yaw_extra_urad;
    rig.apply_hotkeys(no_keys());
    assert_eq!(rig.index_4, 0);
    assert_eq!(rig.yaw_extra_urad, extra);
}

#[test]
fn continuous_rotation_accumulates_and_wraps() {
    let mut rig = OrbitCamera::new();
    rig.rotate_continuous(true, false, 1000);
    assert_eq!(rig.yaw_extra_urad, -800000);
    let mut rig2 = OrbitCamera::new();
    rig2.rotate_continuous(false, true, 10000);
    // eight full seconds of rotation wrap past one turn
    assert_eq!(rig2.yaw_extra_urad, 8000000 - 6283185);
}

#[test]
fn both_rotate_keys_cancel() {
    let mut rig = OrbitCamera::new();
    rig.rotate_continuous(true, true, 1000);
    assert_eq!(rig.yaw_extra_urad, 0);
}

#[test]
fn yaw_combines_offset_presets_and_extra() {
    let mut rig = OrbitCamera::new();
    let mut k = no_keys();
    k.digit3 = true;
    rig.apply_hotkeys(k);
    rig.rotate_continuous(false, true, 1000);
    assert_eq!(rig.yaw_urad(), QUARTER_PI_URAD + 2 * HALF_PI_URAD + 800000);
}

#[test]
fn tilt_steps_and_clamps() {
    let mut rig = OrbitCamera::new();
    let moved = rig.tilt(true, false);
    assert!(moved);
    assert_eq!(rig.pitch_urad, REST_PITCH_URAD + 3333);
    let mut level = OrbitCamera::new();
    level.pitch_urad = 2;
    level.tilt(false, true);
    assert_eq!(level.pitch_urad, 0);
    let mut top = OrbitCamera::new();
    top.pitch_urad = HALF_PI_URAD;
    top.tilt(true, false);
    assert_eq!(top.pitch_urad, HALF_PI_URAD);
    let mut still = OrbitCamera::new();
    assert!(!still.tilt(true, true));
    assert_eq!(still.pitch_urad, REST_PITCH_URAD);
}

#[test]
fn snapback_eases_between_endpoints() {
    assert_eq!(snapback_pitch(1000000, 0, 1000), 1000000);
    assert_eq!(snapback_pitch(1000000, 1000, 1000), REST_PITCH_URAD);
    assert_eq!(snapback_pitch(1000000, 2500, 1000), REST_PITCH_URAD);
    // halfway in time, an eighth of the way in pitch (cubic easing)
    assert_eq!(snapback_pitch(1000000, 500, 1000), 940450);
    // easing also works upward, from below the resting pitch
    assert_eq!(snapback_pitch(0, 500, 1000), 65449);
}

#[test]
fn move_axes_signs() {
    assert_eq!(move_axes(false, false, false, false), (0, 0));
    assert_eq!(move_axes(true, false, false, true), (1, 1));
    assert_eq!(move_axes(false, true, true, false), (-1, -1));
    assert_eq!(move_axes(true, true, true, true), (0, 0));
}
