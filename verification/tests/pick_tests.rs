use diorama::geom::{Aabb, Vec3Fx};
use diorama::pick::{pick_nearest, ray_box_entry, HitTime};

fn v(x: i64, y: i64, z: i64) -> Vec3Fx {
    Vec3Fx { x, y, z }
}

fn cube(cx: i64, cy: i64, cz: i64, half: i64) -> Aabb {
    Aabb { center: v(cx, cy, cz), half: v(half, half, half) }
}

#[test]
fn ray_enters_box_ahead() {
    // Ray along +x from the origin, unit cube centred four to six units out.
    let r = ray_box_entry(v(0, 0, 0), v(1000, 0, 0), v(4000, -1000, -1000), v(6000, 1000, 1000));
    assert_eq!(r, Some(HitTime { num: 4000, den: 1000 }));
}

#[test]
fn ray_misses_box_behind() {
    let r = ray_box_entry(v(0, 0, 0), v(1000, 0, 0), v(-6000, -1000, -1000), v(-4000, 1000, 1000));
    assert_eq!(r, None);
}

#[test]
fn parallel_ray_outside_slab_misses() {
    // Ray along +z, box four to six units out on x: never crosses its x slab.
    let r = ray_box_entry(v(0, 0, 0), v(0, 0, 1000), v(4000, -1000, -1000), v(6000, 1000, 1000));
    assert_eq!(r, None);
}

#[test]
fn ray_starting_inside_enters_at_zero() {
    let r = ray_box_entry(v(5000, 0, 0), v(0, 0, 1000), v(4000, -1000, -1000), v(6000, 1000, 1000));
    assert_eq!(r, Some(HitTime { num: 0, den: 1 }));
}

#[test]
fn diagonal_ray_entry_is_exact() {
    // Ray along (2, 1, 0) from the origin; the box's near x face at x = 4
    // is reached at t = 2, where y = 2 lies inside the y slab.
    let r = ray_box_entry(v(0, 0, 0), v(2000, 1000, 0), v(4000, 1000, -1000), v(6000, 3000, 1000));
    assert_eq!(r, Some(HitTime { num: 4000, den: 2000 }));
}

#[test]
fn nearest_box_wins() {
    let boxes = vec![cube(8000, 0, 0, 1000), cube(4000, 0, 0, 1000), cube(12000, 0, 0, 1000)];
    let r = pick_nearest(v(0, 0, 0), v(1000, 0, 0), &boxes);
    assert_eq!(r, Some((1, HitTime { num: 3000, den: 1000 })));
}

#[test]
fn equal_entry_keeps_first_box() {
    let boxes = vec![cube(4000, 0, 0, 1000), cube(4000, 0, 0, 1000)];
    let r = pick_nearest(v(0, 0, 0), v(1000, 0, 0), &boxes);
    assert_eq!(r, Some((0, HitTime { num: 3000, den: 1000 })));
}

#[test]
fn still_ray_inside_box_hits_at_zero() {
    // A zero direction is parallel to every slab; starting inside, the ray
    // stands in the box from time zero on.
    let r = ray_box_entry(v(0, 0, 0), v(0, 0, 0), v(-1000, -1000, -1000), v(1000, 1000, 1000));
    assert_eq!(r, Some(HitTime { num: 0, den: 1 }));
    let r2 = ray_box_entry(v(0, 0, 0), v(0, 0, 0), v(1000, 1000, 1000), v(2000, 2000, 2000));
    assert_eq!(r2, None);
}

#[test]
fn no_hit_gives_none() {
    let boxes = vec![cube(8000, 8000, 0, 1000)];
    assert_eq!(pick_nearest(v(0, 0, 0), v(1000, 0, 0), &boxes), None);
    assert_eq!(pick_nearest(v(0, 0, 0), v(1000, 0, 0), &Vec::new()), None);
}
