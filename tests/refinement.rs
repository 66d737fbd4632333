use mesh_rand::mesh::SpaceQueryMesh;
use mesh_rand::surface::poisson_disk::PoissonRun;
use rand::rngs::StdRng;
use rand::{Rng, SeedableRng};

type V3 = [f32; 3];

fn dist_sq(p: V3, q: V3) -> f32 {
    (p[0] - q[0]).powi(2) + (p[1] - q[1]).powi(2) + (p[2] - q[2]).powi(2)
}

fn area(a: V3, b: V3, c: V3) -> f32 {
    let u = [b[0] - a[0], b[1] - a[1], b[2] - a[2]];
    let v = [c[0] - a[0], c[1] - a[1], c[2] - a[2]];
    let n = [u[1] * v[2] - u[2] * v[1], u[2] * v[0] - u[0] * v[2], u[0] * v[1] - u[1] * v[0]];
    (n[0] * n[0] + n[1] * n[1] + n[2] * n[2]).sqrt() / 2.0
}

fn total_area(m: &SpaceQueryMesh<V3>) -> f32 {
    m.faces.iter().map(|&[i, j, k]| area(m.verticies[i], m.verticies[j], m.verticies[k])).sum()
}

fn tetra() -> SpaceQueryMesh<V3> {
    SpaceQueryMesh::new(
        vec![[0.0, 0.0, 0.0], [1.0, 0.0, 0.0], [0.0, 1.0, 0.0], [0.0, 0.0, 1.0]],
        vec![[1, 0, 2], [2, 0, 3], [0, 1, 3], [1, 2, 3]],
    )
    .unwrap()
}

/// Splits edges longer than `r` at their midpoints.
fn refine(m: &mut SpaceQueryMesh<V3>, r: f32) {
    let too_long = |p: V3, q: V3| dist_sq(p, q) > r * r;
    let midpoint = |p: V3, q: V3| [(p[0] + q[0]) / 2.0, (p[1] + q[1]) / 2.0, (p[2] + q[2]) / 2.0];
    let budget = usize::MAX - 1 - m.verticies.len();
    assert!(m.subdivide(&too_long, &midpoint, budget));
}

#[test]
fn refinement_stops_at_the_budget() {
    let mut m = tetra();
    let too_long = |p: V3, q: V3| dist_sq(p, q) > 0.01;
    let midpoint = |p: V3, q: V3| [(p[0] + q[0]) / 2.0, (p[1] + q[1]) / 2.0, (p[2] + q[2]) / 2.0];
    assert!(!m.subdivide(&too_long, &midpoint, 3));
    assert_eq!(m.verticies.len(), 4 + 3);
    assert!(m.faces.len() > 4);
    assert!(m.faces.len() <= 4 + 3 * 2);
}

#[test]
fn refinement_of_short_edges_changes_nothing() {
    let mut m = tetra();
    let too_long = |p: V3, q: V3| dist_sq(p, q) > 4.0;
    let midpoint = |p: V3, _q: V3| p;
    let before = m.faces.clone();
    assert!(m.subdivide(&too_long, &midpoint, 0));
    assert_eq!(m.faces, before);
    assert_eq!(m.verticies.len(), 4);
}

#[test]
fn refined_tetrahedron_has_short_edges_and_more_faces() {
    let mut m = tetra();
    let before = total_area(&m);
    let old_verts = m.verticies.clone();
    refine(&mut m, 0.3);
    assert!(m.faces.len() > 4);
    assert_eq!(m.verticies[..4], old_verts[..]);
    for &[i, j, k] in &m.faces {
        for (a, b) in [(i, j), (j, k), (k, i)] {
            assert!(dist_sq(m.verticies[a], m.verticies[b]) <= 0.3 * 0.3);
        }
    }
    assert!((total_area(&m) - before).abs() < 1e-3);
    for t in 0..m.faces.len() {
        let nb = m.neighbors(t);
        assert_eq!(nb.len(), 3, "a closed surface gives each face three neighbors");
        for g in nb {
            assert!(m.neighbors(g).contains(&t));
        }
    }
}

/// Dart throwing on the refined mesh, with candidates drawn uniformly from a face picked by area.
fn poisson(m: &SpaceQueryMesh<V3>, r: f32, retries: u32, max: u32, seed: u64) -> Vec<V3> {
    let areas: Vec<f32> = m.faces.iter().map(|&[i, j, k]| area(m.verticies[i], m.verticies[j], m.verticies[k])).collect();
    let total: f32 = areas.iter().sum();
    let mut rng = StdRng::seed_from_u64(seed);
    let mut run: PoissonRun<V3> = PoissonRun::new(m.faces.len(), retries, max);
    while !run.is_done() {
        let mut x = rng.gen_range(0.0..total);
        let mut t = 0;
        while t + 1 < areas.len() && x >= areas[t] {
            x -= areas[t];
            t += 1;
        }
        let [i, j, k] = m.faces[t];
        let (o, b, c) = (m.verticies[i], m.verticies[j], m.verticies[k]);
        let (mut s, mut w): (f32, f32) = (rng.gen_range(0.0..1.0), rng.gen_range(0.0..1.0));
        if s + w > 1.0 {
            s = 1.0 - s;
            w = 1.0 - w;
        }
        let pos = [0, 1, 2].map(|d| o[d] + s * (b[d] - o[d]) + w * (c[d] - o[d]));
        let intersects = |g: usize| m.faces[g].iter().any(|&v| dist_sq(m.verticies[v], pos) <= r * r);
        let close = |p: V3, q: V3| dist_sq(p, q) < r * r;
        run.try_accept(m, t, pos, &intersects, &close);
    }
    run.into_points()
}

#[test]
fn poisson_points_keep_their_distance() {
    let mut m = tetra();
    refine(&mut m, 0.1);
    let points = poisson(&m, 0.1, 1000, 50, 7);
    assert!(points.len() <= 50);
    assert!(!points.is_empty());
    for a in 0..points.len() {
        for b in a + 1..points.len() {
            assert!(dist_sq(points[a], points[b]) >= 0.1 * 0.1);
        }
    }
    assert_eq!(poisson(&m, 0.1, 1000, 50, 7), points);
}
