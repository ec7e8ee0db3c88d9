use ao_baker::grid::AABBGrid;
use ao_baker::mesh::{Corner, Face, Mesh};
use ao_baker::vector::Vec3;
use ao_baker::vertex::{Occlusion, Vertex};

const U: i32 = 65536;

fn quad(a: usize, b: usize, c: usize, d: usize, normal: usize) -> [Face; 2] {
    let at = |position: usize| Corner { position, normal };
    [Face { a: at(a), b: at(b), c: at(c) }, Face { a: at(a), b: at(c), c: at(d) }]
}

fn cube() -> Mesh {
    let mut positions = Vec::new();
    for k in 0..8 {
        positions.push(Vec3::new((k & 1) * U, ((k >> 1) & 1) * U, ((k >> 2) & 1) * U));
    }
    let normals = vec![
        Vec3::new(0, 0, -U),
        Vec3::new(0, 0, U),
        Vec3::new(0, -U, 0),
        Vec3::new(0, U, 0),
        Vec3::new(-U, 0, 0),
        Vec3::new(U, 0, 0),
    ];
    let mut faces = Vec::new();
    faces.extend(quad(0, 1, 3, 2, 0));
    faces.extend(quad(4, 5, 7, 6, 1));
    faces.extend(quad(0, 1, 5, 4, 2));
    faces.extend(quad(2, 3, 7, 6, 3));
    faces.extend(quad(0, 2, 6, 4, 4));
    faces.extend(quad(1, 3, 7, 5, 5));
    Mesh::new(positions, normals, faces).expect("the cube names its own corners")
}

fn cube_grid() -> (Mesh, AABBGrid) {
    let mesh = cube();
    let verts: Vec<Vertex> = mesh
        .positions
        .iter()
        .map(|p| Vertex { pos: *p, normal: Vec3::new(0, 0, U), occlusion: Occlusion::new() })
        .collect();
    let g = AABBGrid::new(&verts, &mesh);
    (mesh, g)
}

fn next(seed: &mut u64) -> i32 {
    *seed = seed.wrapping_mul(6364136223846793005).wrapping_add(1442695040888963407);
    ((*seed >> 33) % (4 * U as u64)) as i32 - 2 * U
}

#[test]
fn ray_along_x_passes_a_row_of_cells() {
    let (_, g) = cube_grid();
    let cells = g.traverse(&Vec3::new(-U, U / 2, U / 2), &Vec3::new(1, 0, 0));
    assert_eq!(cells, vec![(0, 1, 1), (1, 1, 1), (2, 1, 1)]);
}

#[test]
fn ray_against_x_passes_the_row_backwards() {
    let (_, g) = cube_grid();
    let cells = g.traverse(&Vec3::new(2 * U, U / 2, U / 2), &Vec3::new(-1, 0, 0));
    assert_eq!(cells, vec![(2, 1, 1), (1, 1, 1), (0, 1, 1)]);
}

#[test]
fn ray_along_z_passes_a_column_of_cells() {
    let (_, g) = cube_grid();
    let cells = g.traverse(&Vec3::new(10, U - 10, -5), &Vec3::new(0, 0, 7));
    assert_eq!(cells, vec![(0, 2, 0), (0, 2, 1), (0, 2, 2)]);
}

#[test]
fn march_starts_where_the_line_enters_even_behind_the_origin() {
    let (_, g) = cube_grid();
    let cells = g.traverse(&Vec3::new(U / 2, U / 2, U / 2), &Vec3::new(1, 0, 0));
    assert_eq!(cells, vec![(0, 1, 1), (1, 1, 1), (2, 1, 1)]);
}

#[test]
fn ray_through_the_corners_breaks_ties_z_then_y_then_x() {
    let (_, g) = cube_grid();
    let cells = g.traverse(&Vec3::new(-U, -U, -U), &Vec3::new(1, 1, 1));
    assert_eq!(
        cells,
        vec![(0, 0, 0), (0, 0, 1), (0, 1, 1), (1, 1, 1), (1, 1, 2), (1, 2, 2), (2, 2, 2)]
    );
}

#[test]
fn slanted_ray_crosses_the_nearest_plane_first() {
    let (_, g) = cube_grid();
    let cells = g.traverse(&Vec3::new(-U, U / 6, U / 2), &Vec3::new(3, 1, 0));
    assert_eq!(cells, vec![(0, 1, 1), (1, 1, 1), (1, 2, 1), (2, 2, 1)]);
}

#[test]
fn ray_that_misses_the_box_passes_no_cell() {
    let (_, g) = cube_grid();
    assert!(g.traverse(&Vec3::new(-U, 2 * U, U / 2), &Vec3::new(1, 0, 0)).is_empty());
    assert!(g.traverse(&Vec3::new(U / 2, U / 2, U / 2), &Vec3::new(0, 0, 0)).is_empty());
}

#[test]
fn ray_that_clips_a_corner_cell_passes_it_alone() {
    let (_, g) = cube_grid();
    let cells = g.traverse(&Vec3::new(-U / 8, U / 4, U / 2), &Vec3::new(1, -1, 0));
    assert_eq!(cells, vec![(0, 0, 1)]);
    assert!(g.traverse(&Vec3::new(-U / 4, U / 8, U / 2), &Vec3::new(1, -1, 0)).is_empty());
}

#[test]
fn every_traversal_stays_in_the_grid_and_steps_forward() {
    let (_, g) = cube_grid();
    let mut seed = 7u64;
    let mut met = 0;
    for _ in 0..2000 {
        let o = Vec3::new(next(&mut seed), next(&mut seed), next(&mut seed));
        let d = Vec3::new(next(&mut seed), next(&mut seed), next(&mut seed));
        let cells = g.traverse(&o, &d);
        assert_eq!(cells.is_empty(), g.bounds.intersect(&o, &d).is_none());
        assert!(cells.len() <= g.x_divs + g.y_divs + g.z_divs);
        if !cells.is_empty() {
            met += 1;
        }
        for c in &cells {
            assert!(c.0 < g.x_divs && c.1 < g.y_divs && c.2 < g.z_divs);
        }
        for w in cells.windows(2) {
            let dx = w[1].0 as i64 - w[0].0 as i64;
            let dy = w[1].1 as i64 - w[0].1 as i64;
            let dz = w[1].2 as i64 - w[0].2 as i64;
            assert_eq!(dx.abs() + dy.abs() + dz.abs(), 1);
            assert!(dx * d.x as i64 >= 0 && dy * d.y as i64 >= 0 && dz * d.z as i64 >= 0);
            assert!(dx * d.x as i64 + dy * d.y as i64 + dz * d.z as i64 > 0);
        }
    }
    assert!(met > 100);
}

#[test]
fn grid_and_brute_force_agree_on_a_cube() {
    let (mesh, g) = cube_grid();
    let mut seed = 11u64;
    let mut hits = 0;
    for _ in 0..3000 {
        let o = Vec3::new(next(&mut seed), next(&mut seed), next(&mut seed));
        let d = Vec3::new(next(&mut seed), next(&mut seed), next(&mut seed));
        let by_grid = g.occluded(&mesh, o, d);
        assert_eq!(by_grid, mesh.any_hit(o, d));
        if by_grid {
            hits += 1;
        }
    }
    assert!(hits > 100 && hits < 2900);
}

#[test]
fn ray_into_the_cube_is_blocked_and_ray_away_is_not() {
    let (mesh, g) = cube_grid();
    assert!(g.occluded(&mesh, Vec3::new(U / 2, U / 2, 2 * U), Vec3::new(0, 0, -1)));
    assert!(!g.occluded(&mesh, Vec3::new(U / 2, U / 2, 2 * U), Vec3::new(0, 0, 1)));
    assert!(g.occluded(&mesh, Vec3::new(U / 2, U / 2, U / 2), Vec3::new(3, -2, 5)));
    assert!(!g.occluded(&mesh, Vec3::new(3 * U, U / 2, U / 2), Vec3::new(0, 1, 0)));
}

fn single_triangle() -> (Mesh, AABBGrid) {
    let positions = vec![Vec3::new(0, 0, 0), Vec3::new(U, 0, 0), Vec3::new(0, U, 0)];
    let c = |position: usize| Corner { position, normal: 0 };
    let faces = vec![Face { a: c(0), b: c(1), c: c(2) }];
    let mesh = Mesh::new(positions, vec![Vec3::new(0, 0, U)], faces).unwrap();
    let verts: Vec<Vertex> = mesh
        .positions
        .iter()
        .map(|p| Vertex { pos: *p, normal: Vec3::new(0, 0, U), occlusion: Occlusion::new() })
        .collect();
    let g = AABBGrid::new(&verts, &mesh);
    (mesh, g)
}

#[test]
fn single_triangle_blocks_the_ray_from_above_only() {
    let (mesh, g) = single_triangle();
    let above = Vec3::new(U / 4, U / 4, U);
    assert!(g.occluded(&mesh, above, Vec3::new(0, 0, -U)));
    assert!(mesh.any_hit(above, Vec3::new(0, 0, -U)));
    assert!(!g.occluded(&mesh, above, Vec3::new(0, 0, U)));
    assert!(!mesh.any_hit(above, Vec3::new(0, 0, U)));
    assert_eq!(g.traverse(&above, &Vec3::new(0, 0, -U)), vec![(32, 32, 0)]);
}

#[test]
fn grid_and_brute_force_agree_on_a_single_triangle() {
    let (mesh, g) = single_triangle();
    let mut seed = 5u64;
    let mut hits = 0;
    for _ in 0..2000 {
        let o = Vec3::new(next(&mut seed) / 2, next(&mut seed) / 2, next(&mut seed));
        let d = Vec3::new(next(&mut seed) / 8, next(&mut seed) / 8, next(&mut seed));
        let by_grid = g.occluded(&mesh, o, d);
        assert_eq!(by_grid, mesh.any_hit(o, d));
        if by_grid {
            hits += 1;
        }
    }
    assert!(hits > 20);
}

#[test]
fn ray_that_leaves_the_grid_where_a_face_begins_passes_the_face_by() {
    let positions = vec![
        Vec3::new(U, U, 0),
        Vec3::new(2 * U, U, 0),
        Vec3::new(U, 2 * U, 0),
        Vec3::new(0, 0, 0),
        Vec3::new(U / 2, 0, 0),
        Vec3::new(0, U / 2, 0),
    ];
    let c = |position: usize| Corner { position, normal: 0 };
    let faces = vec![Face { a: c(0), b: c(1), c: c(2) }, Face { a: c(3), b: c(4), c: c(5) }];
    let mesh = Mesh::new(positions, vec![Vec3::new(0, 0, U)], faces).unwrap();
    let v = |pos| Vertex { pos, normal: Vec3::new(0, 0, U), occlusion: Occlusion::new() };
    let g = AABBGrid::new(&[v(Vec3::new(0, 0, 0)), v(Vec3::new(2 * U, 2 * U, 2 * U))], &mesh);
    assert_eq!((g.x_divs, g.y_divs, g.z_divs), (2, 2, 2));
    assert_eq!(g.index((1, 1, 0)), &Some(vec![0]));
    assert_eq!(g.index((0, 1, 0)), &None);
    let o = Vec3::new(U / 2, 3 * U / 2, U / 2);
    let d = Vec3::new(1, -1, -1);
    assert_eq!(g.traverse(&o, &d), vec![(0, 1, 1), (0, 1, 0)]);
    assert!(mesh.any_hit(o, d));
    assert!(!g.occluded(&mesh, o, d));
    let beside = Vec3::new(U / 2 + 1, 3 * U / 2, U / 2);
    assert!(mesh.any_hit(beside, d));
    assert!(g.occluded(&mesh, beside, d));
}

#[test]
fn widest_grid_and_longest_rays_stay_in_range() {
    let v = |pos| Vertex { pos, normal: Vec3::new(0, 0, U), occlusion: Occlusion::new() };
    let far = [i32::MIN, i32::MIN + 1, -1, 0, 1, i32::MAX - 1, i32::MAX];
    let positions = vec![Vec3::new(0, 0, 0), Vec3::new(9, 0, 0), Vec3::new(0, 9, 0)];
    let c = |position: usize| Corner { position, normal: 0 };
    let faces: Vec<Face> = (0..600000).map(|_| Face { a: c(0), b: c(1), c: c(2) }).collect();
    let mesh = Mesh::new(positions, vec![Vec3::new(0, 0, U)], faces).unwrap();
    let corners = [v(Vec3::new(i32::MIN, i32::MIN, i32::MIN)), v(Vec3::new(i32::MAX, i32::MAX, i32::MAX))];
    let g = AABBGrid::new(&corners, &mesh);
    assert_eq!((g.x_divs, g.y_divs, g.z_divs), (128, 128, 128));
    assert_eq!(g.index((64, 64, 64)).as_ref().map(|list| list.len()), Some(600000));
    assert_eq!(g.index((63, 64, 64)), &None);
    let mut seed = 3u64;
    for _ in 0..300 {
        let pick = |seed: &mut u64| far[(next(seed).unsigned_abs() % 7) as usize];
        let o = Vec3::new(pick(&mut seed), pick(&mut seed), pick(&mut seed));
        let d = Vec3::new(pick(&mut seed), pick(&mut seed), pick(&mut seed));
        let cells = g.traverse(&o, &d);
        assert_eq!(cells.is_empty(), g.bounds.intersect(&o, &d).is_none());
        assert!(cells.len() <= 384);
        for c in &cells {
            assert!(c.0 < 128 && c.1 < 128 && c.2 < 128);
        }
    }
    let diagonal = g.traverse(
        &Vec3::new(i32::MIN, i32::MIN, i32::MIN),
        &Vec3::new(i32::MAX, i32::MAX, i32::MAX),
    );
    assert_eq!(diagonal.len(), 3 * 127 + 1);
    assert_eq!(diagonal[0], (0, 0, 0));
    assert_eq!(diagonal[diagonal.len() - 1], (127, 127, 127));
}

#[test]
fn ray_that_points_away_from_the_grid_passes_no_cell() {
    let (mesh, g) = cube_grid();
    assert!(g.traverse(&Vec3::new(2 * U, U / 2, U / 2), &Vec3::new(1, 0, 0)).is_empty());
    assert!(g.traverse(&Vec3::new(2 * U, 2 * U, 2 * U), &Vec3::new(1, 1, 1)).is_empty());
    assert_eq!(g.traverse(&Vec3::new(2 * U, 2 * U, 2 * U), &Vec3::new(-1, -1, -1)).len(), 7);
    assert!(!g.occluded(&mesh, Vec3::new(2 * U, U / 2, U / 2), Vec3::new(1, 0, 0)));
    assert!(g.occluded(&mesh, Vec3::new(2 * U, U / 2, U / 2), Vec3::new(-1, 0, 0)));
}

#[test]
fn ray_along_an_axis_that_grazes_a_face_finds_it_in_the_next_cell() {
    let positions = vec![
        Vec3::new(U, U / 2, U / 2),
        Vec3::new(2 * U, U / 2, 0),
        Vec3::new(2 * U, 0, U / 2),
        Vec3::new(0, 0, 0),
        Vec3::new(9, 0, 0),
        Vec3::new(0, 9, 0),
    ];
    let c = |position: usize| Corner { position, normal: 0 };
    let faces = vec![Face { a: c(0), b: c(1), c: c(2) }, Face { a: c(3), b: c(4), c: c(5) }];
    let mesh = Mesh::new(positions, vec![Vec3::new(0, 0, U)], faces).unwrap();
    let v = |pos| Vertex { pos, normal: Vec3::new(0, 0, U), occlusion: Occlusion::new() };
    let g = AABBGrid::new(&[v(Vec3::new(0, 0, 0)), v(Vec3::new(2 * U, 2 * U, 2 * U))], &mesh);
    assert_eq!((g.x_divs, g.y_divs, g.z_divs), (2, 2, 2));
    assert_eq!(g.index((0, 0, 0)), &Some(vec![1]));
    assert_eq!(g.index((1, 0, 0)), &Some(vec![0]));
    let o = Vec3::new(U / 4, U / 2, U / 2);
    let d = Vec3::new(1, 0, 0);
    assert_eq!(g.traverse(&o, &d), vec![(0, 0, 0), (1, 0, 0)]);
    assert!(mesh.any_hit(o, d));
    assert!(g.occluded(&mesh, o, d));
}
