use mesh_rand::mesh::SpaceQueryMesh;
use mesh_rand::surface::poisson_disk::{exists_point_within_sphere, PoissonRun};

fn tetra() -> SpaceQueryMesh<[f32; 3]> {
    SpaceQueryMesh::new(
        vec![[0.0, 0.0, 0.0], [1.0, 0.0, 0.0], [0.0, 1.0, 0.0], [0.0, 0.0, 1.0]],
        vec![[1, 0, 2], [2, 0, 3], [0, 1, 3], [1, 2, 3]],
    )
    .unwrap()
}

/// A strip of four triangles in a row: each neighbors only the ones beside it.
fn strip() -> SpaceQueryMesh<u8> {
    SpaceQueryMesh::new(vec![0; 6], vec![[0, 1, 2], [1, 3, 2], [2, 3, 4], [3, 5, 4]]).unwrap()
}

#[test]
fn conflict_on_a_reached_face_is_found() {
    let m = tetra();
    assert!(exists_point_within_sphere(&m, 0, &|_t: usize| true, &|t: usize| t == 2));
}

#[test]
fn no_conflict_anywhere() {
    let m = tetra();
    assert!(!exists_point_within_sphere(&m, 0, &|_t: usize| true, &|_t: usize| false));
}

#[test]
fn faces_outside_the_sphere_are_not_searched() {
    let m = tetra();
    // face 2 holds a close sample, but the sphere does not reach it
    assert!(!exists_point_within_sphere(&m, 0, &|t: usize| t != 2, &|t: usize| t == 2));
    // the start face itself is not reached by the sphere: nothing is searched
    assert!(!exists_point_within_sphere(&m, 0, &|_t: usize| false, &|_t: usize| true));
}

#[test]
fn search_stops_at_faces_it_cannot_expand() {
    let m = strip();
    assert!(exists_point_within_sphere(&m, 0, &|_t: usize| true, &|t: usize| t == 3));
    // face 1 is not reached, so faces 2 and 3 beyond it are never looked at
    assert!(!exists_point_within_sphere(&m, 0, &|t: usize| t != 1, &|t: usize| t == 3));
}

#[test]
fn run_output_is_in_face_order() {
    let mut run: PoissonRun<[f32; 3]> = PoissonRun::new(3, 5, 10);
    run.record(2, [2.0, 0.0, 0.0], false);
    run.record(0, [0.0, 0.0, 0.0], false);
    run.record(1, [9.0, 9.0, 9.0], true);
    run.record(2, [2.5, 0.0, 0.0], false);
    assert_eq!(run.count, 3);
    assert_eq!(run.failures, 0);
    assert_eq!(run.into_points(), vec![[0.0, 0.0, 0.0], [2.0, 0.0, 0.0], [2.5, 0.0, 0.0]]);
}

#[test]
fn run_ends_after_retries_in_a_row() {
    let mut run: PoissonRun<u32> = PoissonRun::new(2, 2, 10);
    assert!(!run.is_done());
    run.record(0, 1, true);
    assert_eq!(run.failures, 1);
    run.record(0, 2, false);
    assert_eq!(run.failures, 0);
    run.record(1, 3, true);
    assert!(!run.is_done());
    run.record(1, 4, true);
    assert!(run.is_done());
    assert_eq!(run.into_points(), vec![2]);
}

#[test]
fn run_ends_at_max_samples() {
    let mut run: PoissonRun<u32> = PoissonRun::new(1, 100, 2);
    run.record(0, 7, false);
    run.record(0, 8, false);
    assert!(run.is_done());
    assert_eq!(run.into_points(), vec![7, 8]);
}

#[test]
fn zero_max_is_done_at_once() {
    let run: PoissonRun<u32> = PoissonRun::new(4, 10, 0);
    assert!(run.is_done());
    assert!(run.into_points().is_empty());
}

/// Points on a line: two are too close when they are less than 10 apart.
fn near(p: i64, q: i64) -> bool {
    (p - q).abs() < 10
}

#[test]
fn candidate_near_a_sample_on_a_reached_face_is_rejected() {
    let m = strip();
    let mut run: PoissonRun<i64> = PoissonRun::new(4, 5, 10);
    assert!(run.try_accept(&m, 2, 100, &|_t: usize| true, &near));
    // face 1 neighbors face 2, which holds 100
    assert!(!run.try_accept(&m, 1, 105, &|_t: usize| true, &near));
    assert_eq!(run.failures, 1);
    assert!(run.try_accept(&m, 1, 120, &|_t: usize| true, &near));
    assert_eq!(run.failures, 0);
    assert_eq!(run.into_points(), vec![120, 100]);
}

#[test]
fn sample_beyond_the_sphere_does_not_block() {
    let m = strip();
    let mut run: PoissonRun<i64> = PoissonRun::new(4, 5, 10);
    assert!(run.try_accept(&m, 3, 100, &|_t: usize| true, &near));
    // face 1 lies between faces 0 and 2 and the sphere does not reach it: face 3 is never searched
    assert!(run.try_accept(&m, 0, 101, &|t: usize| t != 1, &near));
    assert_eq!(run.count, 2);
}
