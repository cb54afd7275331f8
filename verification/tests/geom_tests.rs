use diorama::geom::{aabb_world, Aabb, Mat3Fx, Vec3Fx};

fn v(x: i64, y: i64, z: i64) -> Vec3Fx {
    Vec3Fx { x, y, z }
}

fn diag(s: i64) -> Mat3Fx {
    Mat3Fx { col_x: v(s, 0, 0), col_y: v(0, s, 0), col_z: v(0, 0, s) }
}

#[test]
fn identity_transform_translates() {
    let local = Aabb { center: v(1000, 2000, 3000), half: v(500, 600, 700) };
    let w = aabb_world(&diag(1000), &v(10, 20, 30), &local);
    assert_eq!(w.center, v(1010, 2020, 3030));
    assert_eq!(w.half, v(500, 600, 700));
}

#[test]
fn uniform_scale_doubles() {
    let local = Aabb { center: v(1000, 0, 0), half: v(500, 500, 500) };
    let w = aabb_world(&diag(2000), &v(0, 0, 0), &local);
    assert_eq!(w.center, v(2000, 0, 0));
    assert_eq!(w.half, v(1000, 1000, 1000));
}

#[test]
fn mirrored_axis_keeps_positive_extents() {
    let m = Mat3Fx { col_x: v(-1000, 0, 0), col_y: v(0, 1000, 0), col_z: v(0, 0, 1000) };
    let local = Aabb { center: v(1000, 0, 0), half: v(500, 400, 300) };
    let w = aabb_world(&m, &v(0, 0, 0), &local);
    assert_eq!(w.center, v(-1000, 0, 0));
    assert_eq!(w.half, v(500, 400, 300));
}

#[test]
fn fractional_scale_rounds_conservatively() {
    // A 0.333 scale: the centre rounds down, the half-extent rounds up.
    let local = Aabb { center: v(1000, 0, 0), half: v(500, 0, 0) };
    let w = aabb_world(&diag(333), &v(0, 0, 0), &local);
    assert_eq!(w.center.x, 333);
    assert_eq!(w.half.x, 167);
}

#[test]
fn quarter_turn_mixes_axes() {
    // Rotation by a quarter turn about z: x maps to y, y maps to -x.
    let m = Mat3Fx { col_x: v(0, 1000, 0), col_y: v(-1000, 0, 0), col_z: v(0, 0, 1000) };
    let local = Aabb { center: v(2000, 1000, 0), half: v(500, 300, 100) };
    let w = aabb_world(&m, &v(0, 0, 0), &local);
    assert_eq!(w.center, v(-1000, 2000, 0));
    assert_eq!(w.half, v(300, 500, 100));
}

#[test]
fn corners_bracket_center() {
    let b = Aabb { center: v(100, -200, 300), half: v(10, 20, 30) };
    assert_eq!(b.min_corner(), v(90, -220, 270));
    assert_eq!(b.max_corner(), v(110, -180, 330));
}
