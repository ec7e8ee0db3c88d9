use ao_baker::intersect::{ray_triangle_intersect, DET_EPSILON};
use ao_baker::vector::Vec3;

const U: i32 = 65536;

fn unit_triangle() -> [Vec3; 3] {
    [Vec3::new(0, 0, 0), Vec3::new(U, 0, 0), Vec3::new(0, U, 0)]
}

#[test]
fn ray_down_normal_hits_unit_triangle() {
    let orig = Vec3::new(U / 4, U / 4, U);
    let hit = ray_triangle_intersect(orig, Vec3::new(0, 0, -U), unit_triangle());
    let t = hit.expect("the ray points at the triangle");
    assert_eq!(t.num, 1i128 << 48);
    assert_eq!(t.den, 1i128 << 48);
}

#[test]
fn ray_away_from_triangle_misses() {
    let orig = Vec3::new(U / 4, U / 4, U);
    assert!(ray_triangle_intersect(orig, Vec3::new(0, 0, U), unit_triangle()).is_none());
}

#[test]
fn hit_parameter_is_the_distance_in_direction_lengths() {
    let orig = Vec3::new(U / 4, U / 4, 3 * U);
    let t = ray_triangle_intersect(orig, Vec3::new(0, 0, -U), unit_triangle()).unwrap();
    assert_eq!(t.num, 3 * t.den);
    let t = ray_triangle_intersect(orig, Vec3::new(0, 0, -2), unit_triangle()).unwrap();
    assert_eq!(2 * t.num, 3 * (U as i128) * t.den);
}

#[test]
fn ray_in_the_plane_of_the_triangle_misses() {
    let orig = Vec3::new(-U, U / 4, 0);
    assert!(ray_triangle_intersect(orig, Vec3::new(U, 0, 0), unit_triangle()).is_none());
}

#[test]
fn triangle_without_area_is_never_hit() {
    let line = [Vec3::new(0, 0, 0), Vec3::new(U, 0, 0), Vec3::new(2 * U, 0, 0)];
    let point = [Vec3::new(5, 5, 0), Vec3::new(5, 5, 0), Vec3::new(5, 5, 0)];
    let orig = Vec3::new(5, 0, U);
    assert!(ray_triangle_intersect(orig, Vec3::new(0, 0, -U), line).is_none());
    assert!(ray_triangle_intersect(Vec3::new(5, 5, U), Vec3::new(0, 0, -U), point).is_none());
}

#[test]
fn corners_and_edges_belong_to_the_triangle() {
    let down = Vec3::new(0, 0, -U);
    assert!(ray_triangle_intersect(Vec3::new(0, 0, U), down, unit_triangle()).is_some());
    assert!(ray_triangle_intersect(Vec3::new(U, 0, U), down, unit_triangle()).is_some());
    assert!(ray_triangle_intersect(Vec3::new(0, U, U), down, unit_triangle()).is_some());
    assert!(ray_triangle_intersect(Vec3::new(U / 2, U / 2, U), down, unit_triangle()).is_some());
    assert!(ray_triangle_intersect(Vec3::new(U / 2, 0, U), down, unit_triangle()).is_some());
}

#[test]
fn one_step_outside_the_triangle_misses() {
    let down = Vec3::new(0, 0, -U);
    assert!(ray_triangle_intersect(Vec3::new(U / 2 + 1, U / 2, U), down, unit_triangle()).is_none());
    assert!(ray_triangle_intersect(Vec3::new(-1, 0, U), down, unit_triangle()).is_none());
    assert!(ray_triangle_intersect(Vec3::new(0, -1, U), down, unit_triangle()).is_none());
    assert!(ray_triangle_intersect(Vec3::new(U + 1, 0, U), down, unit_triangle()).is_none());
}

#[test]
fn triangle_behind_the_origin_misses() {
    let orig = Vec3::new(U / 4, U / 4, -U);
    assert!(ray_triangle_intersect(orig, Vec3::new(0, 0, -U), unit_triangle()).is_none());
}

#[test]
fn back_face_is_hit_too() {
    let orig = Vec3::new(U / 4, U / 4, -U);
    let t = ray_triangle_intersect(orig, Vec3::new(0, 0, U), unit_triangle()).unwrap();
    assert_eq!(t.num, t.den);
    assert!(t.den > 0);
}

#[test]
fn origin_on_the_triangle_hits_at_zero() {
    let orig = Vec3::new(U / 4, U / 4, 0);
    let t = ray_triangle_intersect(orig, Vec3::new(0, 0, U), unit_triangle()).unwrap();
    assert_eq!(t.num, 0);
}

#[test]
fn ray_without_direction_misses() {
    let orig = Vec3::new(U / 4, U / 4, 0);
    assert!(ray_triangle_intersect(orig, Vec3::new(0, 0, 0), unit_triangle()).is_none());
}

#[test]
fn extreme_coordinates_do_not_overflow() {
    let tri = [
        Vec3::new(i32::MIN, i32::MIN, i32::MIN),
        Vec3::new(i32::MAX, i32::MIN, i32::MIN),
        Vec3::new(i32::MIN, i32::MAX, i32::MIN),
    ];
    let orig = Vec3::new(i32::MIN, i32::MIN, i32::MAX);
    let t = ray_triangle_intersect(orig, Vec3::new(0, 0, i32::MIN), tri).unwrap();
    assert!(t.num > 0 && t.den > 0);
    assert_eq!(DET_EPSILON, 1);
}

#[test]
fn plain_answer_agrees_with_the_parameter() {
    let down = Vec3::new(0, 0, -U);
    let cases = [
        (Vec3::new(U / 4, U / 4, U), down),
        (Vec3::new(U / 4, U / 4, U), Vec3::new(0, 0, U)),
        (Vec3::new(U / 2 + 1, U / 2, U), down),
        (Vec3::new(0, 0, U), down),
        (Vec3::new(-U, U / 4, 0), Vec3::new(U, 0, 0)),
        (Vec3::new(U / 4, U / 4, -U), Vec3::new(0, 0, U)),
        (Vec3::new(U / 4, U / 4, 0), Vec3::new(0, 0, 0)),
    ];
    let expected = [true, false, false, true, false, true, false];
    for ((orig, dir), hit) in cases.iter().zip(expected) {
        assert_eq!(ao_baker::math::ray_triangle_intersect(*orig, *dir, unit_triangle()), hit);
        assert_eq!(ray_triangle_intersect(*orig, *dir, unit_triangle()).is_some(), hit);
    }
}
