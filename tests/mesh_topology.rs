use mesh_rand::errors::MeshRandError;
use mesh_rand::mesh::SpaceQueryMesh;
use mesh_rand::surface::vert_ids_to_pos;

fn tetra_verts() -> Vec<[f32; 3]> {
    vec![[0.0, 0.0, 0.0], [1.0, 0.0, 0.0], [0.0, 1.0, 0.0], [0.0, 0.0, 1.0]]
}

fn tetra_faces() -> Vec<[usize; 3]> {
    vec![[1, 0, 2], [2, 0, 3], [0, 1, 3], [1, 2, 3]]
}

fn tetra() -> SpaceQueryMesh<[f32; 3]> {
    SpaceQueryMesh::new(tetra_verts(), tetra_faces()).unwrap()
}

fn shares_edge(f: [usize; 3], g: [usize; 3]) -> bool {
    f.iter().filter(|v| g.contains(v)).count() >= 2
}

fn sorted(mut v: Vec<usize>) -> Vec<usize> {
    v.sort();
    v
}

fn check_neighbors<V>(m: &SpaceQueryMesh<V>) {
    for t in 0..m.faces.len() {
        let nb = m.neighbors(t);
        assert!(!nb.contains(&t));
        for g in 0..m.faces.len() {
            let expected = g != t && shares_edge(m.faces[t], m.faces[g]);
            assert_eq!(nb.contains(&g), expected, "face {} and face {}", t, g);
            if expected {
                assert!(m.neighbors(g).contains(&t));
            }
        }
    }
}

#[test]
fn tetrahedron_builds() {
    let m = tetra();
    assert_eq!(m.faces, tetra_faces());
    assert_eq!(m.verticies.len(), 4);
}

#[test]
fn tetrahedron_faces_all_neighbor() {
    let m = tetra();
    assert_eq!(m.neighbors(0), vec![2, 1, 3]);
    assert_eq!(sorted(m.neighbors(0)), vec![1, 2, 3]);
    assert_eq!(sorted(m.neighbors(3)), vec![0, 1, 2]);
    check_neighbors(&m);
}

#[test]
fn single_triangle_has_no_neighbors() {
    let m = SpaceQueryMesh::new(vec![[0.0f32, 0.0, 0.0], [1.0, 0.0, 0.0], [0.0, 1.0, 0.0]], vec![[0, 1, 2]]).unwrap();
    assert!(m.neighbors(0).is_empty());
}

#[test]
fn empty_face_list_builds() {
    let m = SpaceQueryMesh::new(tetra_verts(), vec![]).unwrap();
    assert!(m.faces.is_empty());
    assert!(m.edge_list().is_empty());
}

#[test]
fn index_out_of_range_is_reported() {
    let r = SpaceQueryMesh::new(tetra_verts(), vec![[0, 1, 2], [0, 4, 7]]);
    assert_eq!(r.err(), Some(MeshRandError::IndexOutOfRange { face: 1, index: 4 }));
}

#[test]
fn face_with_repeated_corner_is_left_out() {
    let m = SpaceQueryMesh::new(tetra_verts(), vec![[0, 1, 2], [3, 3, 1], [0, 2, 3]]).unwrap();
    assert_eq!(m.faces, vec![[0, 1, 2], [0, 2, 3]]);
    assert_eq!(m.neighbors(0), vec![1]);
    assert_eq!(m.neighbors(1), vec![0]);
}

#[test]
fn repeated_corner_face_still_has_its_indices_checked() {
    let r = SpaceQueryMesh::new(tetra_verts(), vec![[0, 1, 2], [5, 5, 1]]);
    assert_eq!(r.err(), Some(MeshRandError::IndexOutOfRange { face: 1, index: 5 }));
}

#[test]
fn third_face_on_an_edge_is_non_manifold() {
    let r = SpaceQueryMesh::new(tetra_verts(), vec![[0, 1, 2], [1, 0, 3], [0, 1, 3]]);
    assert_eq!(r.err(), Some(MeshRandError::NonManifoldEdge { face: 2 }));
}

#[test]
fn edge_list_has_each_edge_once() {
    let m = tetra();
    let mut e = m.edge_list();
    e.sort();
    assert_eq!(e, vec![[0, 1], [0, 2], [0, 3], [1, 2], [1, 3], [2, 3]]);
    assert!(m.contains_edge(0, 3));
    assert!(!m.contains_edge(0, 4));
}

#[test]
fn dividing_an_edge_splits_both_faces() {
    let mut m = tetra();
    let new_edges = m.divide_edge([0, 1], [0.5, 0.0, 0.0]);
    assert_eq!(m.verticies.len(), 5);
    assert_eq!(m.verticies[4], [0.5, 0.0, 0.0]);
    // faces 0 = [1, 0, 2] and 2 = [0, 1, 3] hold the edge {0, 1}
    assert_eq!(m.faces, vec![[4, 0, 2], [2, 0, 3], [0, 4, 3], [1, 2, 3], [1, 4, 2], [1, 4, 3]]);
    assert_eq!(new_edges, vec![[2, 4], [3, 4], [1, 4], [0, 4]]);
    assert!(!m.contains_edge(0, 1));
    assert!(m.contains_edge(0, 4));
    assert!(m.contains_edge(1, 4));
    check_neighbors(&m);
}

#[test]
fn repeated_division_keeps_neighbors_exact() {
    let mut m = tetra();
    for _ in 0..6 {
        let e = m.edge_list()[0];
        let p = m.verticies[e[0]];
        let q = m.verticies[e[1]];
        let mid = [(p[0] + q[0]) / 2.0, (p[1] + q[1]) / 2.0, (p[2] + q[2]) / 2.0];
        m.divide_edge(e, mid);
    }
    assert!(m.faces.len() > 4);
    check_neighbors(&m);
    for f in &m.faces {
        for v in f {
            assert!(*v < m.verticies.len());
        }
    }
}

#[test]
fn face_corners_resolve_to_vertices() {
    let verts = tetra_verts();
    assert_eq!(vert_ids_to_pos(0, &[1, 0, 2], &verts), Ok([verts[1], verts[0], verts[2]]));
    assert_eq!(
        vert_ids_to_pos(5, &[1, 9, 4], &verts),
        Err(MeshRandError::IndexOutOfRange { face: 5, index: 9 })
    );
}
