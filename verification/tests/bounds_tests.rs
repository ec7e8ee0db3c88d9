use ao_baker::bounds::{find_extrema, find_extrema_triangle, BoundBox};
use ao_baker::vector::Vec3;
use ao_baker::vertex::{Occlusion, Vertex};

const U: i32 = 65536;

fn unit_box() -> BoundBox {
    BoundBox { min: Vec3::new(0, 0, 0), max: Vec3::new(U, U, U) }
}

fn vertex_at(x: i32, y: i32, z: i32) -> Vertex {
    Vertex { pos: Vec3::new(x, y, z), normal: Vec3::new(0, 0, U), occlusion: Occlusion::new() }
}

#[test]
fn extrema_of_some_vertices() {
    let verts = vec![vertex_at(3, -7, 2), vertex_at(-5, 4, 2), vertex_at(1, 1, 9)];
    let b = find_extrema(&verts);
    assert_eq!(b.min, Vec3::new(-5, -7, 2));
    assert_eq!(b.max, Vec3::new(3, 4, 9));
}

#[test]
fn extrema_of_one_vertex_is_a_point() {
    let b = find_extrema(&[vertex_at(3, -7, 2)]);
    assert_eq!(b.min, Vec3::new(3, -7, 2));
    assert_eq!(b.max, Vec3::new(3, -7, 2));
}

#[test]
fn extrema_of_no_vertices_is_the_void_box() {
    let b = find_extrema(&[]);
    assert_eq!(b.min, Vec3::new(i32::MAX, i32::MAX, i32::MAX));
    assert_eq!(b.max, Vec3::new(i32::MIN, i32::MIN, i32::MIN));
}

#[test]
fn extrema_of_a_triangle() {
    let b = find_extrema_triangle(&Vec3::new(1, 9, -3), &Vec3::new(4, 2, -3), &Vec3::new(-2, 5, 8));
    assert_eq!(b.min, Vec3::new(-2, 2, -3));
    assert_eq!(b.max, Vec3::new(4, 9, 8));
}

#[test]
fn ray_enters_the_box_from_outside() {
    let t = unit_box().intersect(&Vec3::new(-U, U / 2, U / 2), &Vec3::new(U, 0, 0)).unwrap();
    assert_eq!((t.num, t.den), (U as i128, U as i128));
}

#[test]
fn line_through_an_origin_inside_enters_behind_it() {
    let t = unit_box().intersect(&Vec3::new(U / 2, U / 2, U / 2), &Vec3::new(U, 0, 0)).unwrap();
    assert_eq!((t.num, t.den), (-(U as i128) / 2, U as i128));
}

#[test]
fn ray_against_the_axis_enters_at_the_far_side() {
    let t = unit_box().intersect(&Vec3::new(3 * U, U / 2, U / 2), &Vec3::new(-2, 0, 0)).unwrap();
    assert_eq!((t.num, t.den), (2 * U as i128, 2));
}

#[test]
fn latest_slab_decides_the_entry() {
    let t = unit_box().intersect(&Vec3::new(-U, -2 * U, U / 2), &Vec3::new(1, 1, 0)).unwrap();
    assert_eq!((t.num, t.den), (2 * U as i128, 1));
}

#[test]
fn ray_beside_the_box_misses() {
    assert!(unit_box().intersect(&Vec3::new(-U, 2 * U, U / 2), &Vec3::new(U, 0, 0)).is_none());
    assert!(unit_box().intersect(&Vec3::new(-U, 0, 0), &Vec3::new(1, 2, 0)).is_none());
}

#[test]
fn ray_along_a_face_of_the_box_meets_it() {
    let t = unit_box().intersect(&Vec3::new(-U, U, 0), &Vec3::new(1, 0, 0)).unwrap();
    assert_eq!((t.num, t.den), (U as i128, 1));
}

#[test]
fn ray_through_one_corner_meets_the_box() {
    let t = unit_box().intersect(&Vec3::new(-U, 2 * U, 0), &Vec3::new(1, -1, 0)).unwrap();
    assert_eq!((t.num, t.den), (U as i128, 1));
}

#[test]
fn ray_without_direction_meets_nothing() {
    assert!(unit_box().intersect(&Vec3::new(U / 2, U / 2, U / 2), &Vec3::new(0, 0, 0)).is_none());
}

#[test]
fn void_box_is_never_met() {
    let b = find_extrema(&[]);
    assert!(b.intersect(&Vec3::new(0, 0, 0), &Vec3::new(1, 0, 0)).is_none());
    assert!(b.intersect(&Vec3::new(0, 0, 0), &Vec3::new(1, 1, 1)).is_none());
}

#[test]
fn flat_box_is_met_in_its_plane() {
    let b = BoundBox { min: Vec3::new(0, 0, 0), max: Vec3::new(U, U, 0) };
    let t = b.intersect(&Vec3::new(U / 2, U / 2, U), &Vec3::new(0, 0, -1)).unwrap();
    assert_eq!((t.num, t.den), (U as i128, 1));
    assert!(b.intersect(&Vec3::new(2 * U, U / 2, U), &Vec3::new(0, 0, -1)).is_none());
}

#[test]
fn box_behind_the_origin_is_not_met() {
    let b = BoundBox { min: Vec3::new(0, 0, 0), max: Vec3::new(2, 2, 2) };
    assert!(b.intersect(&Vec3::new(3, 3, 3), &Vec3::new(1, 1, 1)).is_none());
    assert!(unit_box().intersect(&Vec3::new(2 * U, U / 2, U / 2), &Vec3::new(1, 0, 0)).is_none());
    assert!(unit_box().intersect(&Vec3::new(-1, U / 2, U / 2), &Vec3::new(-1, 0, 0)).is_none());
}

#[test]
fn ray_that_turns_round_meets_the_box_again() {
    let b = BoundBox { min: Vec3::new(0, 0, 0), max: Vec3::new(2, 2, 2) };
    let t = b.intersect(&Vec3::new(3, 3, 3), &Vec3::new(-1, -1, -1)).unwrap();
    assert_eq!((t.num, t.den), (1, 1));
}

#[test]
fn origin_on_the_far_face_still_meets_the_box() {
    let t = unit_box().intersect(&Vec3::new(U, U / 2, U / 2), &Vec3::new(1, 0, 0)).unwrap();
    assert_eq!((t.num, t.den), (-(U as i128), 1));
    let t = unit_box().intersect(&Vec3::new(0, U / 2, U / 2), &Vec3::new(1, 0, 0)).unwrap();
    assert_eq!((t.num, t.den), (0, 1));
}
