use ao_baker::bake::{
    ray_origin, Bake, BakeControl, BakeError, BakeState, BakeStep, ComputeData, VertexData,
    ANGLE_SPREAD, BIAS_DIVISOR, SAMPLES,
};
use ao_baker::geo::generate_vector_buffer;
use ao_baker::mesh::{Corner, Face, Mesh};
use ao_baker::timer::DeltaTimer;
use ao_baker::vector::Vec3;
use ao_baker::vertex::{Occlusion, Vertex};

const U: i32 = 65536;

fn quad(a: usize, b: usize, c: usize, d: usize, normal: usize) -> [Face; 2] {
    let at = |position: usize| Corner { position, normal };
    [Face { a: at(a), b: at(b), c: at(c) }, Face { a: at(a), b: at(c), c: at(d) }]
}

fn cube() -> Mesh {
    let mut positions = Vec::new();
    for k in 0..8 {
        positions.push(Vec3::new((k & 1) * U, ((k >> 1) & 1) * U, ((k >> 2) & 1) * U));
    }
    let normals = vec![
        Vec3::new(0, 0, -U),
        Vec3::new(0, 0, U),
        Vec3::new(0, -U, 0),
        Vec3::new(0, U, 0),
        Vec3::new(-U, 0, 0),
        Vec3::new(U, 0, 0),
    ];
    let mut faces = Vec::new();
    faces.extend(quad(0, 1, 3, 2, 0));
    faces.extend(quad(4, 5, 7, 6, 1));
    faces.extend(quad(0, 1, 5, 4, 2));
    faces.extend(quad(2, 3, 7, 6, 3));
    faces.extend(quad(0, 2, 6, 4, 4));
    faces.extend(quad(1, 3, 7, 5, 5));
    Mesh::new(positions, normals, faces).expect("the cube names its own corners")
}

fn start(control: &mut BakeControl, samples: u32) -> Bake {
    let mesh = cube();
    let (verts, _) = generate_vector_buffer(&mesh);
    let config = ComputeData::new(samples, 178).unwrap();
    control.start_bake(mesh, verts, config).expect("no bake is in progress")
}

fn inward(bake: &Bake) -> Vec<Vec3> {
    bake.verts.iter().map(|v| Vec3::new(-v.normal.x, -v.normal.y, -v.normal.z)).collect()
}

fn outward(bake: &Bake) -> Vec<Vec3> {
    bake.verts.iter().map(|v| v.normal).collect()
}

#[test]
fn estimate_starts_at_one() {
    let o = Occlusion::new();
    assert_eq!((o.hits, o.samples), (0, 0));
    assert_eq!((o.numerator(), o.denominator()), (1, 1));
}

#[test]
fn first_sample_replaces_the_start_value() {
    assert_eq!(Occlusion::new().fold(true), Occlusion { hits: 1, samples: 1 });
    assert_eq!(Occlusion::new().fold(false), Occlusion { hits: 0, samples: 1 });
    assert_eq!(Occlusion::new().fold(false).numerator(), 0);
    assert_eq!(Occlusion::new().fold(true).numerator(), 1);
    assert_eq!(Occlusion::new().fold(true).denominator(), 1);
}

#[test]
fn running_average_is_hits_over_samples() {
    let outcomes = [true, false, false, true, true, false, true, true];
    let mut o = Occlusion::new();
    let mut hits = 0;
    for (n, hit) in outcomes.iter().enumerate() {
        let before = o;
        o = o.fold(*hit);
        if *hit {
            hits += 1;
        }
        assert_eq!((o.numerator(), o.denominator()), (hits, n as u32 + 1));
        assert!(o.numerator() <= o.denominator());
        let s = n as u64;
        let add = if *hit { 1 } else { 0 };
        assert_eq!(
            o.numerator() as u64 * before.denominator() as u64 * (s + 1),
            (before.numerator() as u64 * s + add * before.denominator() as u64)
                * o.denominator() as u64
        );
    }
    assert_eq!(o, Occlusion { hits: 5, samples: 8 });
}

#[test]
fn request_defaults_and_ranges() {
    let d = ComputeData::default();
    assert_eq!((d.samples, d.angle_spread), (512, 178));
    assert_eq!((SAMPLES, ANGLE_SPREAD, BIAS_DIVISOR), (512, 178, 1000));
    assert_eq!(ComputeData::new(1, 1), Some(ComputeData { samples: 1, angle_spread: 1 }));
    assert_eq!(ComputeData::new(7, 179), Some(ComputeData { samples: 7, angle_spread: 179 }));
    assert_eq!(ComputeData::new(0, 90), None);
    assert_eq!(ComputeData::new(5, 0), None);
    assert_eq!(ComputeData::new(5, 180), None);
}

#[test]
fn ray_starts_a_thousandth_of_the_normal_off_the_vertex() {
    let v = |pos, normal| Vertex { pos, normal, occlusion: Occlusion::new() };
    assert_eq!(ray_origin(&v(Vec3::new(10, 20, 30), Vec3::new(0, 0, U))), Vec3::new(10, 20, 95));
    assert_eq!(ray_origin(&v(Vec3::new(10, 20, 30), Vec3::new(-U, 999, -999))), Vec3::new(-55, 20, 30));
    assert_eq!(ray_origin(&v(Vec3::new(0, 0, 0), Vec3::new(1000, -1000, 1999))), Vec3::new(1, -1, 1));
    assert_eq!(
        ray_origin(&v(Vec3::new(i32::MAX, i32::MIN, 0), Vec3::new(U, -U, i32::MIN))),
        Vec3::new(i32::MAX, i32::MIN, -2147483)
    );
}

#[test]
fn second_bake_is_refused_while_one_runs() {
    let mut control = BakeControl::new();
    let mut bake = start(&mut control, 4);
    assert!(control.in_progress);
    let mesh = cube();
    let (verts, _) = generate_vector_buffer(&mesh);
    let again = control.start_bake(mesh, verts, ComputeData::default());
    assert!(matches!(again, Err(BakeError::AlreadyInProgress)));
    assert_eq!(control, BakeControl { in_progress: true, cancel_requested: false });
    assert_eq!(bake.step(&mut control), BakeStep::Sample(0));
    assert_eq!(bake.state, BakeState::Running);
    assert_eq!(bake.completed, 0);
}

#[test]
fn bake_can_start_again_once_the_first_is_over() {
    let mut control = BakeControl::new();
    let mut bake = start(&mut control, 1);
    assert!(bake.sample(&inward(&bake)));
    assert_eq!(bake.step(&mut control), BakeStep::Completed(1));
    assert!(!control.in_progress);
    let second = start(&mut control, 1);
    assert!(control.in_progress);
    assert_eq!(second.completed, 0);
}

#[test]
fn cancel_during_a_sample_stops_at_its_end() {
    let mut control = BakeControl::new();
    let mut bake = start(&mut control, 5);
    for k in 0..3 {
        assert_eq!(bake.step(&mut control), BakeStep::Sample(k));
        if k == 2 {
            control.request_cancel();
        }
        assert!(bake.sample(&inward(&bake)));
    }
    assert_eq!(bake.step(&mut control), BakeStep::Cancelled(3));
    assert_eq!(bake.state, BakeState::Cancelled);
    assert_eq!(control, BakeControl { in_progress: false, cancel_requested: false });
    assert!(!bake.sample(&inward(&bake)));
    assert_eq!(bake.completed, 3);
    assert_eq!(bake.step(&mut control), BakeStep::Cancelled(3));
}

#[test]
fn cancel_before_the_first_sample_reports_none() {
    let mut control = BakeControl::new();
    control.request_cancel();
    let mut bake = start(&mut control, 5);
    assert_eq!(control, BakeControl { in_progress: true, cancel_requested: true });
    assert_eq!(bake.step(&mut control), BakeStep::Cancelled(0));
    assert_eq!(control, BakeControl { in_progress: false, cancel_requested: false });
}

#[test]
fn cancel_during_the_last_sample_comes_too_late() {
    let mut control = BakeControl::new();
    let mut bake = start(&mut control, 2);
    assert_eq!(bake.step(&mut control), BakeStep::Sample(0));
    assert!(bake.sample(&inward(&bake)));
    assert_eq!(bake.step(&mut control), BakeStep::Sample(1));
    control.request_cancel();
    assert!(bake.sample(&inward(&bake)));
    assert_eq!(bake.step(&mut control), BakeStep::Completed(2));
    assert_eq!(bake.state, BakeState::Completed);
    assert_eq!(control, BakeControl { in_progress: false, cancel_requested: false });
}

#[test]
fn bake_runs_its_samples_and_completes() {
    let mut control = BakeControl::new();
    let mut bake = start(&mut control, 3);
    let mut taken = 0;
    loop {
        match bake.step(&mut control) {
            BakeStep::Sample(s) => {
                assert_eq!(s, taken);
                assert!(control.in_progress);
                assert!(bake.sample(&outward(&bake)));
                taken += 1;
            }
            BakeStep::Completed(n) => {
                assert_eq!(n, 3);
                break;
            }
            BakeStep::Cancelled(_) => panic!("nobody asked to cancel"),
        }
    }
    assert_eq!(taken, 3);
    assert!(!control.in_progress);
    assert!(!bake.sample(&outward(&bake)));
    assert_eq!(bake.completed, 3);
}

#[test]
fn sample_needs_one_direction_for_each_vertex() {
    let mut control = BakeControl::new();
    let mut bake = start(&mut control, 3);
    let mut dirs = inward(&bake);
    dirs.pop();
    assert!(!bake.sample(&dirs));
    assert_eq!(bake.completed, 0);
    assert!(bake.verts.iter().all(|v| v.occlusion == Occlusion::new()));
}

#[test]
fn cube_after_one_sample_is_all_or_nothing() {
    let mut control = BakeControl::new();
    let mut bake = start(&mut control, 1);
    assert_eq!(bake.verts.len(), 24);
    let mut dirs = inward(&bake);
    for (i, d) in dirs.iter_mut().enumerate() {
        if i % 2 == 1 {
            *d = Vec3::new(-d.x, -d.y, -d.z);
        }
    }
    assert_eq!(bake.step(&mut control), BakeStep::Sample(0));
    assert!(bake.sample(&dirs));
    for (i, v) in bake.verts.iter().enumerate() {
        let n = v.occlusion.numerator();
        assert_eq!(v.occlusion.denominator(), 1);
        assert!(n == 0 || n == 1);
        assert_eq!(n, if i % 2 == 0 { 1 } else { 0 });
    }
    assert_eq!(bake.step(&mut control), BakeStep::Completed(1));
}

#[test]
fn estimates_count_the_blocked_rays() {
    let mut control = BakeControl::new();
    let mut bake = start(&mut control, 4);
    let plan = [true, false, false, true];
    for blocked in plan {
        let dirs = if blocked { inward(&bake) } else { outward(&bake) };
        assert!(bake.sample(&dirs));
    }
    for v in &bake.verts {
        assert_eq!(v.occlusion, Occlusion { hits: 2, samples: 4 });
    }
}

#[test]
fn start_resets_the_estimates() {
    let mesh = cube();
    let (mut verts, _) = generate_vector_buffer(&mesh);
    for v in verts.iter_mut() {
        v.occlusion = Occlusion { hits: 3, samples: 9 };
    }
    let mut control = BakeControl::new();
    let bake = control.start_bake(mesh, verts, ComputeData::default()).ok().unwrap();
    assert!(bake.verts.iter().all(|v| v.occlusion == Occlusion::new()));
    assert_eq!(bake.config, ComputeData::default());
    assert_eq!((bake.grid.x_divs, bake.grid.y_divs, bake.grid.z_divs), (3, 3, 3));
}

#[test]
fn snapshot_is_published_and_marked() {
    let mut control = BakeControl::new();
    let mut bake = start(&mut control, 2);
    let mut buffer = VertexData { data: Vec::new(), should_update: false };
    assert!(bake.sample(&inward(&bake)));
    buffer.update(bake.snapshot());
    assert!(buffer.should_update);
    assert_eq!(buffer.data.len(), 24);
    for (a, b) in buffer.data.iter().zip(bake.verts.iter()) {
        assert_eq!((a.pos, a.normal, a.occlusion), (b.pos, b.normal, b.occlusion));
    }
}

#[test]
fn cube_corners_become_one_vertex_for_each_normal() {
    let mesh = cube();
    let (verts, indices) = generate_vector_buffer(&mesh);
    assert_eq!(verts.len(), 24);
    assert_eq!(indices.len(), 36);
    assert_eq!(&indices[0..6], &[0, 1, 2, 0, 2, 3]);
    assert_eq!(&indices[6..12], &[4, 5, 6, 4, 6, 7]);
    assert_eq!(verts[0].pos, Vec3::new(0, 0, 0));
    assert_eq!(verts[0].normal, Vec3::new(0, 0, -U));
    assert_eq!(verts[2].pos, Vec3::new(U, U, 0));
    assert_eq!(verts[4].pos, Vec3::new(0, 0, U));
    assert_eq!(verts[4].normal, Vec3::new(0, 0, U));
    for (j, i) in indices.iter().enumerate() {
        let corner = mesh.faces[j / 3].get(j % 3);
        assert_eq!(verts[*i as usize].pos, mesh.positions[corner.position]);
        assert_eq!(verts[*i as usize].normal, mesh.normals[corner.normal]);
        assert_eq!(verts[*i as usize].occlusion, Occlusion::new());
    }
}

#[test]
fn corners_that_share_position_and_normal_share_a_vertex() {
    let positions =
        vec![Vec3::new(0, 0, 0), Vec3::new(U, 0, 0), Vec3::new(0, U, 0), Vec3::new(U, U, 0)];
    let normals = vec![Vec3::new(0, 0, U), Vec3::new(0, U, 0)];
    let c = |position: usize, normal: usize| Corner { position, normal };
    let faces = vec![
        Face { a: c(0, 0), b: c(1, 0), c: c(2, 0) },
        Face { a: c(2, 0), b: c(1, 0), c: c(3, 0) },
        Face { a: c(2, 1), b: c(1, 0), c: c(3, 1) },
    ];
    let mesh = Mesh::new(positions, normals, faces).unwrap();
    let (verts, indices) = generate_vector_buffer(&mesh);
    assert_eq!(indices, vec![0, 1, 2, 2, 1, 3, 4, 1, 5]);
    assert_eq!(verts.len(), 6);
    assert_eq!((verts[4].pos, verts[4].normal), (Vec3::new(0, U, 0), Vec3::new(0, U, 0)));
    assert_eq!((verts[5].pos, verts[5].normal), (Vec3::new(U, U, 0), Vec3::new(0, U, 0)));
}

#[test]
fn mesh_without_faces_has_empty_buffers() {
    let mesh = Mesh::new(vec![Vec3::new(0, 0, 0)], vec![], vec![]).unwrap();
    let (verts, indices) = generate_vector_buffer(&mesh);
    assert!(verts.is_empty() && indices.is_empty());
}

#[test]
fn timer_gives_the_time_between_calls() {
    let mut timer = DeltaTimer::new();
    let first = timer.next_delta();
    assert!(first < 20_000_000_000);
    let mut total: u128 = 0;
    let mut asked: u64 = 0;
    while total < 1_000_000 {
        total += timer.next_delta();
        asked += 1;
        assert!(asked < 4_000_000_000);
    }
    assert!(total < 20_000_000_000);
}

#[test]
fn timer_takes_the_difference_of_its_readings() {
    let mut timer = DeltaTimer::new();
    assert_eq!(timer.advance(1_500), 1_500);
    assert_eq!(timer.advance(4_000), 2_500);
    assert_eq!(timer.advance(4_000), 0);
    assert_eq!(timer.advance(u128::MAX), u128::MAX - 4_000);
}

#[test]
fn timer_gives_zero_where_the_clock_steps_back() {
    let mut timer = DeltaTimer::new();
    assert_eq!(timer.advance(9_000), 9_000);
    assert_eq!(timer.advance(2_000), 0);
    assert_eq!(timer.advance(2_001), 1);
}

#[test]
fn switches_start_as_the_viewer_opens() {
    let w = ao_baker::world_data::WorldData::default();
    assert!(w.shading_enabled && !w.is_paused && w.ao_enabled);
    assert_eq!(w.zoom_level, 0);
}

#[test]
fn each_switch_turns_itself_alone() {
    let start = ao_baker::world_data::WorldData::default();
    let mut w = start;
    w.toggle_ao();
    assert_eq!(w, ao_baker::world_data::WorldData { ao_enabled: false, ..start });
    w.toggle_ao();
    assert_eq!(w, start);
    w.toggle_paused();
    assert_eq!(w, ao_baker::world_data::WorldData { is_paused: true, ..start });
    w.toggle_shading();
    assert_eq!(
        w,
        ao_baker::world_data::WorldData { is_paused: true, shading_enabled: false, ..start }
    );
}

#[test]
fn zoom_moves_by_the_steps_of_the_wheel() {
    let mut w = ao_baker::world_data::WorldData::default();
    w.adjust_zoom(3);
    w.adjust_zoom(-5);
    assert_eq!(w.zoom_level, -2);
    w.adjust_zoom(i32::MAX);
    assert_eq!(w.zoom_level, i32::MAX - 2);
    assert!(w.shading_enabled && !w.is_paused && w.ao_enabled);
}

#[test]
fn claim_is_given_once() {
    let mut control = BakeControl::new();
    assert_eq!(control.claim(), Ok(()));
    assert_eq!(control, BakeControl { in_progress: true, cancel_requested: false });
    assert_eq!(control.claim(), Err(BakeError::AlreadyInProgress));
    assert_eq!(control, BakeControl { in_progress: true, cancel_requested: false });
    let mut asked = BakeControl { in_progress: false, cancel_requested: true };
    assert_eq!(asked.claim(), Ok(()));
    assert_eq!(asked, BakeControl { in_progress: true, cancel_requested: true });
}

#[test]
fn bake_made_after_a_claim_runs_like_one_that_was_started() {
    let mut control = BakeControl::new();
    assert_eq!(control.claim(), Ok(()));
    let mesh = cube();
    let (verts, _) = generate_vector_buffer(&mesh);
    let mut bake = Bake::new(mesh, verts, ComputeData::new(2, 90).unwrap());
    assert_eq!((bake.completed, bake.state), (0, BakeState::Running));
    assert_eq!((bake.grid.x_divs, bake.grid.y_divs, bake.grid.z_divs), (3, 3, 3));
    assert!(bake.verts.iter().all(|v| v.occlusion == Occlusion::new()));
    assert_eq!(bake.step(&mut control), BakeStep::Sample(0));
    assert!(bake.sample(&inward(&bake)));
    assert_eq!(bake.step(&mut control), BakeStep::Sample(1));
    assert!(bake.sample(&outward(&bake)));
    assert_eq!(bake.step(&mut control), BakeStep::Completed(2));
    assert!(!control.in_progress);
    assert!(bake.verts.iter().all(|v| v.occlusion == Occlusion { hits: 1, samples: 2 }));
}
