mod construct;
mod split;

use crate::errors::MeshRandError;
use construct::{add_face, lemma_side_keys, side_keys};
use split::{
    lemma_split_cover,
    lemma_split_faces_step,
    lemma_split_finish,
    lemma_step_complete,
    lemma_step_sound,
    lemma_step_unique,
    split_step,
    split_step_faces,
};
use std::collections::HashMap;
use vstd::prelude::*;

verus! {

broadcast use vstd::std_specs::hash::group_hash_axioms;

/// An edge `{x, y}` with `x < y` is stored under the key `x * KEY_BASE + y`.
pub const KEY_BASE: u128 = 0x1_0000_0000_0000_0000;

pub open spec fn has_vertex(f: [usize; 3], v: int) -> bool {
    f[0] as int == v || f[1] as int == v || f[2] as int == v
}

pub open spec fn distinct_corners(f: [usize; 3]) -> bool {
    f[0] != f[1] && f[1] != f[2] && f[0] != f[2]
}

/// `{x, y}` is an edge of the face `f`.
pub open spec fn has_edge(f: [usize; 3], x: int, y: int) -> bool {
    x != y && has_vertex(f, x) && has_vertex(f, y)
}

/// Two faces share an edge.
pub open spec fn shares_edge(f: [usize; 3], g: [usize; 3]) -> bool {
    exists|x: int, y: int| x < y && #[trigger] has_edge(f, x, y) && #[trigger] has_edge(g, x, y)
}

/// The key of the edge `{x, y}`, for `x < y`.
pub open spec fn key_of(x: int, y: int) -> u128 {
    (x * KEY_BASE + y) as u128
}

pub open spec fn key_lo(k: u128) -> int {
    k as int / KEY_BASE as int
}

pub open spec fn key_hi(k: u128) -> int {
    k as int % KEY_BASE as int
}

/// The canonical key of the unordered pair `{x, y}`.
pub open spec fn edge_key_spec(x: usize, y: usize) -> u128 {
    if x < y {
        key_of(x as int, y as int)
    } else {
        key_of(y as int, x as int)
    }
}

/// Every face listed under a key has that key's edge.
pub open spec fn adjacency_sound(adj: Map<u128, Vec<usize>>, faces: Seq<[usize; 3]>) -> bool {
    &&& forall|k: u128| #[trigger] adj.contains_key(k) ==> key_lo(k) < key_hi(k)
    &&& forall|k: u128, i: int|
        #![trigger adj[k]@[i]]
        adj.contains_key(k) && 0 <= i < adj[k]@.len() ==> {
            &&& (adj[k]@[i] as int) < faces.len()
            &&& has_edge(faces[adj[k]@[i] as int], key_lo(k), key_hi(k))
        }
}

/// No face is listed twice under one key.
pub open spec fn adjacency_unique(adj: Map<u128, Vec<usize>>) -> bool {
    forall|k: u128| #[trigger] adj.contains_key(k) ==> adj[k]@.no_duplicates()
}

/// The face `f` is listed under the key of its edge `{x, y}`.
pub open spec fn edge_listed(adj: Map<u128, Vec<usize>>, f: int, x: int, y: int) -> bool {
    adj.contains_key(key_of(x, y)) && adj[key_of(x, y)]@.contains(f as usize)
}

/// Every edge of every face is listed.
pub open spec fn adjacency_complete(adj: Map<u128, Vec<usize>>, faces: Seq<[usize; 3]>) -> bool {
    forall|f: int, x: int, y: int|
        0 <= f < faces.len() && x < y && #[trigger] has_edge(faces[f], x, y) ==> edge_listed(
            adj,
            f,
            x,
            y,
        )
}

/// The key decodes to the pair it was made from.
pub proof fn lemma_key_decode(x: int, y: int)
    requires
        0 <= x < y < KEY_BASE,
    ensures
        key_lo(key_of(x, y)) == x,
        key_hi(key_of(x, y)) == y,
        0 <= x * KEY_BASE + y < 0x1_0000_0000_0000_0000_0000_0000_0000_0000,
{
    assert(0 <= x * KEY_BASE + y < 0x1_0000_0000_0000_0000_0000_0000_0000_0000) by (nonlinear_arith)
        requires
            0 <= x < y < KEY_BASE,
            KEY_BASE == 0x1_0000_0000_0000_0000,
    ;
    vstd::arithmetic::div_mod::lemma_fundamental_div_mod_converse(
        x * KEY_BASE + y,
        KEY_BASE as int,
        x,
        y,
    );
}

/// The key of an edge, canonical in the order of its ends.
pub fn edge_key(x: usize, y: usize) -> (k: u128)
    requires
        x != y,
    ensures
        k == edge_key_spec(x, y),
        key_lo(k) == if x < y { x as int } else { y as int },
        key_hi(k) == if x < y { y as int } else { x as int },
{
    let (lo, hi) = if x < y { (x, y) } else { (y, x) };
    proof {
        lemma_key_decode(lo as int, hi as int);
    }
    (lo as u128) * KEY_BASE + (hi as u128)
}


/// Every corner of every face is a vertex index, and no face repeats a corner.
pub open spec fn faces_valid(n: int, faces: Seq<[usize; 3]>) -> bool {
    forall|t: int|
        0 <= t < faces.len() ==> (#[trigger] faces[t])[0] < n && faces[t][1] < n && faces[t][2] < n
            && distinct_corners(faces[t])
}

/// Two earlier faces already hold an edge of `f`: adding `f` would give it a third face.
pub open spec fn shared_before(prev: Seq<[usize; 3]>, f: [usize; 3]) -> bool {
    exists|f1: int, f2: int, x: int, y: int|
        0 <= f1 < f2 < prev.len() && x < y && #[trigger] has_edge(prev[f1], x, y) && #[trigger] has_edge(
            prev[f2],
            x,
            y,
        ) && has_edge(f, x, y)
}

/// The face `t` may be added to the faces before it.
pub open spec fn face_ok(n: int, faces: Seq<[usize; 3]>, t: int) -> bool {
    let f = faces[t];
    &&& f[0] < n && f[1] < n && f[2] < n
    &&& distinct_corners(f) ==> !shared_before(kept_faces(faces, t), f)
}

/// The test for faces that do not repeat a corner.
pub open spec fn with_distinct_corners() -> spec_fn([usize; 3]) -> bool {
    |f: [usize; 3]| distinct_corners(f)
}

/// The faces before `t` that do not repeat a corner, in order: the faces a mesh keeps.
pub open spec fn kept_faces(faces: Seq<[usize; 3]>, t: int) -> Seq<[usize; 3]> {
    faces.take(t).filter(with_distinct_corners())
}

/// The error for the face `t`, the first one that may not be added.
pub open spec fn face_error(n: int, faces: Seq<[usize; 3]>, t: int) -> MeshRandError {
    let f = faces[t];
    if f[0] >= n {
        MeshRandError::IndexOutOfRange { face: t as usize, index: f[0] }
    } else if f[1] >= n {
        MeshRandError::IndexOutOfRange { face: t as usize, index: f[1] }
    } else if f[2] >= n {
        MeshRandError::IndexOutOfRange { face: t as usize, index: f[2] }
    } else {
        MeshRandError::NonManifoldEdge { face: t as usize }
    }
}

/// `g` is a face other than `t` that shares an edge with it.
pub open spec fn is_neighbor(faces: Seq<[usize; 3]>, t: int, g: int) -> bool {
    0 <= t < faces.len() && 0 <= g < faces.len() && g != t && shares_edge(faces[t], faces[g])
}

/// No face neighbors itself, and a face neighbors each face that neighbors it: two faces that share
/// an edge each appear among the other's neighbors.
pub proof fn lemma_neighbors_symmetric(faces: Seq<[usize; 3]>, f: int, g: int)
    ensures
        !is_neighbor(faces, f, f),
        is_neighbor(faces, f, g) <==> is_neighbor(faces, g, f),
{
    if is_neighbor(faces, f, g) {
        let (x, y) = choose|x: int, y: int| x < y && #[trigger] has_edge(faces[f], x, y) && #[trigger] has_edge(faces[g], x, y);
        assert(has_edge(faces[g], x, y) && has_edge(faces[f], x, y));
    }
    if is_neighbor(faces, g, f) {
        let (x, y) = choose|x: int, y: int| x < y && #[trigger] has_edge(faces[g], x, y) && #[trigger] has_edge(faces[f], x, y);
        assert(has_edge(faces[f], x, y) && has_edge(faces[g], x, y));
    }
}

/// What a list holds after a push.
pub proof fn lemma_push_contains<T>(s: Seq<T>, v: T, g: T)
    ensures
        s.push(v).contains(g) <==> (s.contains(g) || g == v),
{
    if s.push(v).contains(g) {
        let j = choose|j: int| 0 <= j < s.len() + 1 && s.push(v)[j] == g;
        if j < s.len() {
            assert(s[j] == g);
        }
    }
    if s.contains(g) {
        let j = choose|j: int| 0 <= j < s.len() && s[j] == g;
        assert(s.push(v)[j] == g);
    }
    assert(s.push(v)[s.len() as int] == v);
}

/// Side `j` of face `f`, from corner `j` to the next, as `[smaller, larger]`.
pub open spec fn side_pair(f: [usize; 3], j: int) -> [usize; 2] {
    let x = f[j];
    let y = f[(j + 1) % 3];
    if x < y {
        [x, y]
    } else {
        [y, x]
    }
}


/// The faces listed under `k`, none where the key is absent.
pub open spec fn listed(adj: Map<u128, Vec<usize>>, k: u128) -> Seq<usize> {
    if adj.contains_key(k) {
        adj[k]@
    } else {
        Seq::empty()
    }
}

/// `{x, y}` is an edge of some face.
pub open spec fn is_edge(faces: Seq<[usize; 3]>, x: int, y: int) -> bool {
    exists|g: int| 0 <= g < faces.len() && #[trigger] has_edge(faces[g], x, y)
}

/// The test `f` on two vertices answers every pair, and always the same way.
pub open spec fn pair_test<V, F: Fn(V, V) -> bool>(f: F) -> bool {
    &&& forall|p: V, q: V| #[trigger] f.requires((p, q))
    &&& forall|p: V, q: V, x: bool, y: bool| #[trigger] f.ensures((p, q), x) && #[trigger] f.ensures((p, q), y) ==> x == y
}

/// The test `too_long` finds the edge `{x, y}` too long on the vertices `verts`.
pub open spec fn too_long_at<V, F: Fn(V, V) -> bool>(too_long: F, verts: Seq<V>, x: int, y: int) -> bool {
    too_long.ensures((verts[x], verts[y]), true)
}

/// Every vertex from `from` on is what `midpoint` gave for two vertices before it.
pub open spec fn midpoints_from<V, M: Fn(V, V) -> V>(midpoint: M, verts: Seq<V>, from: int) -> bool {
    forall|i: int| from <= i < verts.len() ==> #[trigger] is_midpoint_of_earlier(midpoint, verts, i)
}

/// Vertex `i` is what `midpoint` gave for two vertices before it.
pub open spec fn is_midpoint_of_earlier<V, M: Fn(V, V) -> V>(midpoint: M, verts: Seq<V>, i: int) -> bool {
    exists|a: int, b: int| 0 <= a < b < i && #[trigger] midpoint.ensures((verts[a], verts[b]), verts[i])
}

/// `too_long` finds no edge of the faces too long.
pub open spec fn none_too_long<V, F: Fn(V, V) -> bool>(too_long: F, verts: Seq<V>, faces: Seq<[usize; 3]>) -> bool {
    forall|g: int, x: int, y: int|
        0 <= g < faces.len() && x < y && #[trigger] has_edge(faces[g], x, y) ==> !too_long_at(too_long, verts, x, y)
}

/// Every edge of the faces that `too_long` finds too long is among the pairs `queue`.
pub open spec fn queued_all<V, F: Fn(V, V) -> bool>(too_long: F, verts: Seq<V>, faces: Seq<[usize; 3]>, queue: Seq<[usize; 2]>) -> bool {
    forall|g: int, x: int, y: int|
        0 <= g < faces.len() && x < y && #[trigger] has_edge(faces[g], x, y) && too_long_at(too_long, verts, x, y)
            ==> queue.contains([x as usize, y as usize])
}

/// A list of distinct indices below `n` holds at most `n` of them.
pub proof fn lemma_distinct_below(s: Seq<usize>, n: nat)
    requires
        s.no_duplicates(),
        forall|i: int| 0 <= i < s.len() ==> (#[trigger] s[i] as int) < n,
    ensures
        s.len() <= n,
    decreases n,
{
    if n == 0 {
        if s.len() > 0 {
            assert((s[0] as int) < 0);
        }
    } else if s.contains((n - 1) as usize) {
        let i = choose|i: int| 0 <= i < s.len() && s[i] == (n - 1) as usize;
        let s2 = s.remove(i);
        assert forall|j: int| 0 <= j < s2.len() implies (#[trigger] s2[j] as int) < n - 1 by {
            if j < i {
                assert(s2[j] == s[j]);
            } else {
                assert(s2[j] == s[j + 1]);
            }
        }
        assert forall|j: int, k: int| 0 <= j < s2.len() && 0 <= k < s2.len() && j != k implies s2[j] != s2[k] by {
            let jj = if j < i { j } else { j + 1 };
            let kk = if k < i { k } else { k + 1 };
            assert(s2[j] == s[jj] && s2[k] == s[kk]);
        }
        lemma_distinct_below(s2, (n - 1) as nat);
    } else {
        assert forall|j: int| 0 <= j < s.len() implies (#[trigger] s[j] as int) < n - 1 by {
            if s[j] as int == n - 1 {
                assert(s.contains(s[j]));
            }
        }
        lemma_distinct_below(s, (n - 1) as nat);
    }
}

/// `s` without the item `t`, in order.
pub open spec fn without(s: Seq<usize>, t: usize) -> Seq<usize> {
    s.filter(other_than(t))
}

/// The test for items other than `t`.
pub open spec fn other_than(t: usize) -> spec_fn(usize) -> bool {
    |g: usize| g != t
}

/// A triangle mesh over a vertex buffer, with the map from each edge to the faces that hold it.
pub struct SpaceQueryMesh<V> {
    pub verticies: Vec<V>,
    pub faces: Vec<[usize; 3]>,
    pub edge_connections: HashMap<u128, Vec<usize>>,
}

/// `f` with the corner `from` replaced by `to`.
pub open spec fn replace_corner_spec(f: [usize; 3], from: usize, to: usize) -> [usize; 3] {
    [
        if f[0] == from { to } else { f[0] },
        if f[1] == from { to } else { f[1] },
        if f[2] == from { to } else { f[2] },
    ]
}

/// The corner of `f` that is neither `a` nor `b`.
pub open spec fn opposite_spec(f: [usize; 3], a: usize, b: usize) -> usize {
    if f[0] != a && f[0] != b {
        f[0]
    } else if f[1] != a && f[1] != b {
        f[1]
    } else {
        f[2]
    }
}

/// `s` with each `from` replaced by `to`.
pub open spec fn swap_item(s: Seq<usize>, from: usize, to: usize) -> Seq<usize> {
    s.map_values(|v: usize| if v == from { to } else { v })
}

fn replace_corner(f: [usize; 3], from: usize, to: usize) -> (r: [usize; 3])
    ensures
        r == replace_corner_spec(f, from, to),
{
    let mut r = f;
    if r[0] == from {
        r[0] = to;
    }
    if r[1] == from {
        r[1] = to;
    }
    if r[2] == from {
        r[2] = to;
    }
    r
}

fn opposite(f: [usize; 3], a: usize, b: usize) -> (c: usize)
    ensures
        c == opposite_spec(f, a, b),
{
    if f[0] != a && f[0] != b {
        f[0]
    } else if f[1] != a && f[1] != b {
        f[1]
    } else {
        f[2]
    }
}

/// Replaces `from` by `to` in the list under `k`.
fn swap_listed(adj: &mut HashMap<u128, Vec<usize>>, k: u128, from: usize, to: usize)
    ensures
        final(adj)@.dom() == old(adj)@.dom(),
        forall|j: u128| j != k && #[trigger] old(adj)@.contains_key(j) ==> final(adj)@[j] == old(adj)@[j],
        old(adj)@.contains_key(k) ==> final(adj)@[k]@ == swap_item(old(adj)@[k]@, from, to),
{
    match adj.remove(&k) {
        Some(l) => {
            let mut l = l;
            let ghost l0 = l@;
            let mut i: usize = 0;
            while i < l.len()
                invariant
                    i <= l@.len(),
                    l@.len() == l0.len(),
                    forall|j: int| 0 <= j < i ==> l@[j] == (if l0[j] == from { to } else { l0[j] }),
                    forall|j: int| i <= j < l@.len() ==> l@[j] == l0[j],
                decreases l@.len() - i,
            {
                if l[i] == from {
                    l.set(i, to);
                }
                i += 1;
            }
            assert(l@ =~= swap_item(l0, from, to));
            adj.insert(k, l);
        },
        None => {},
    }
}

/// Appends `x` and then `y` to the list under `k`, starting one where there is none.
fn append_two(adj: &mut HashMap<u128, Vec<usize>>, k: u128, x: usize, y: usize)
    ensures
        final(adj)@.dom() == old(adj)@.dom().insert(k),
        forall|j: u128| j != k && #[trigger] old(adj)@.contains_key(j) ==> final(adj)@[j] == old(adj)@[j],
        final(adj)@[k]@ == listed(old(adj)@, k).push(x).push(y),
{
    let mut l = match adj.remove(&k) {
        Some(l) => l,
        None => Vec::new(),
    };
    l.push(x);
    l.push(y);
    adj.insert(k, l);
}


/// `v` is one of the three given vertices.
pub open spec fn among(v: int, a: usize, b: usize, n: usize) -> bool {
    v == a || v == b || v == n
}

/// Every edge is listed, but those whose two ends are both among `a`, `b`, `n`.
pub open spec fn adjacency_complete_off(adj: Map<u128, Vec<usize>>, faces: Seq<[usize; 3]>, a: usize, b: usize, n: usize) -> bool {
    forall|f: int, x: int, y: int|
        0 <= f < faces.len() && x < y && #[trigger] has_edge(faces[f], x, y) && !(among(x, a, b, n) && among(y, a, b, n))
            ==> edge_listed(adj, f, x, y)
}

/// The faces after the first `i` faces of `tris`, which hold the edge `{a, b}`, were split at the new
/// vertex `nv`: each keeps its `a` side, and a new face `[b, nv, c]` is appended for its other side.
pub open spec fn split_faces(faces: Seq<[usize; 3]>, tris: Seq<usize>, i: int, a: usize, b: usize, nv: usize) -> Seq<[usize; 3]> {
    Seq::new(
        (faces.len() + i) as nat,
        |g: int|
            if g < faces.len() {
                if tris.take(i).contains(g as usize) {
                    replace_corner_spec(faces[g], b, nv)
                } else {
                    faces[g]
                }
            } else {
                [b, nv, opposite_spec(faces[tris[g - faces.len()] as int], a, b)]
            },
    )
}

/// The edges that a split at `nv` made or shortened, in the order they are returned.
pub open spec fn split_edges(faces: Seq<[usize; 3]>, tris: Seq<usize>, a: usize, b: usize, nv: usize) -> Seq<[usize; 2]> {
    Seq::new(tris.len(), |j: int| [opposite_spec(faces[tris[j] as int], a, b), nv]).push([b, nv]).push([a, nv])
}

/// The indices `from, from + 1, ..., from + n - 1`.
pub open spec fn index_run(from: int, n: int) -> Seq<usize> {
    Seq::new(n as nat, |j: int| (from + j) as usize)
}

impl<V> SpaceQueryMesh<V> {
    /// The map from edge keys to the faces listed under them.
    pub open spec fn adjacency(&self) -> Map<u128, Vec<usize>> {
        self.edge_connections@
    }

    /// The faces are valid over the vertices, and the map lists exactly the faces of each edge.
    pub open spec fn wf(&self) -> bool {
        &&& faces_valid(self.verticies@.len() as int, self.faces@)
        &&& adjacency_sound(self.adjacency(), self.faces@)
        &&& adjacency_complete(self.adjacency(), self.faces@)
        &&& adjacency_unique(self.adjacency())
    }

    /// Builds the mesh and its edge map. Faces that repeat a corner have no area and are left out;
    /// fails on the first face with a corner that is not a vertex, or whose kept edges would get a
    /// third face.
    pub fn new(verts: Vec<V>, faces: Vec<[usize; 3]>) -> (r: Result<Self, MeshRandError>)
        ensures
            r is Ok <==> forall|t: int| 0 <= t < faces@.len() ==> face_ok(verts@.len() as int, faces@, t),
            r matches Ok(m) ==> m.wf() && m.verticies@ == verts@ && m.faces@ == kept_faces(faces@, faces@.len() as int),
            r matches Err(e) ==> exists|t: int|
                0 <= t < faces@.len() && !face_ok(verts@.len() as int, faces@, t) && (forall|u: int|
                    0 <= u < t ==> face_ok(verts@.len() as int, faces@, u)) && e == face_error(
                    verts@.len() as int,
                    faces@,
                    t,
                ),
    {
        let mut adj: HashMap<u128, Vec<usize>> = HashMap::new();
        let mut kept: Vec<[usize; 3]> = Vec::new();
        let n = verts.len();
        let mut t: usize = 0;
        proof {
            assert(faces@.take(0) =~= Seq::<[usize; 3]>::empty());
            reveal(Seq::filter);
            assert(kept_faces(faces@, 0) =~= Seq::<[usize; 3]>::empty());
        }
        while t < faces.len()
            invariant
                t <= faces@.len(),
                n == verts@.len(),
                forall|u: int| 0 <= u < t ==> face_ok(n as int, faces@, u),
                kept@ == kept_faces(faces@, t as int),
                kept@.len() <= t,
                forall|i: int| 0 <= i < kept@.len() ==> (#[trigger] kept@[i])[0] < n && kept@[i][1] < n && kept@[i][2] < n
                    && distinct_corners(kept@[i]),
                adjacency_sound(adj@, kept@),
                adjacency_complete(adj@, kept@),
                adjacency_unique(adj@),
            decreases faces@.len() - t,
        {
            let f = faces[t];
            proof {
                assert(faces@.take(t + 1) =~= faces@.take(t as int).push(f));
                faces@.take(t as int).lemma_filter_push(f, with_distinct_corners());
            }
            if f[0] >= n {
                assert(!face_ok(n as int, faces@, t as int));
                return Err(MeshRandError::IndexOutOfRange { face: t, index: f[0] });
            }
            if f[1] >= n {
                assert(!face_ok(n as int, faces@, t as int));
                return Err(MeshRandError::IndexOutOfRange { face: t, index: f[1] });
            }
            if f[2] >= n {
                assert(!face_ok(n as int, faces@, t as int));
                return Err(MeshRandError::IndexOutOfRange { face: t, index: f[2] });
            }
            if f[0] == f[1] || f[1] == f[2] || f[0] == f[2] {
                assert(face_ok(n as int, faces@, t as int));
                assert(kept_faces(faces@, t + 1) == kept@);
            } else {
                let ghost prev = kept@;
                if !add_face(&mut adj, f, kept.len(), Ghost(prev)) {
                    assert(!face_ok(n as int, faces@, t as int));
                    return Err(MeshRandError::NonManifoldEdge { face: t });
                }
                kept.push(f);
                assert(kept_faces(faces@, t + 1) == kept@);
            }
            t += 1;
        }
        assert(faces@.take(t as int) =~= faces@);
        Ok(SpaceQueryMesh { verticies: verts, faces: kept, edge_connections: adj })
    }

    /// Appends to `out` the faces other than `t` that are listed under the edge `{x, y}`.
    fn push_side(&self, out: &mut Vec<usize>, x: usize, y: usize, t: usize)
        requires
            x != y,
        ensures
            forall|g: usize|
                #[trigger] final(out)@.contains(g) <==> (old(out)@.contains(g) || (g != t && listed(
                    self.adjacency(),
                    edge_key_spec(x, y),
                ).contains(g))),
            final(out)@ == old(out)@ + without(listed(self.adjacency(), edge_key_spec(x, y)), t),
    {
        let k = edge_key(x, y);
        match self.edge_connections.get(&k) {
            Some(l) => {
                let mut i: usize = 0;
                proof {
                    assert(l@.take(0) =~= Seq::<usize>::empty());
                    assert(without(Seq::<usize>::empty(), t) =~= Seq::<usize>::empty()) by {
                        reveal(Seq::filter);
                    }
                    assert(out@ =~= old(out)@ + without(l@.take(0), t));
                }
                while i < l.len()
                    invariant
                        i <= l@.len(),
                        l@ == listed(self.adjacency(), k),
                        forall|g: usize|
                            #[trigger] out@.contains(g) <==> (old(out)@.contains(g) || (g != t && l@.take(
                                i as int,
                            ).contains(g))),
                        out@ == old(out)@ + without(l@.take(i as int), t),
                    decreases l@.len() - i,
                {
                    let ghost before = out@;
                    if l[i] != t {
                        out.push(l[i]);
                    }
                    assert(l@.take(i + 1) =~= l@.take(i as int).push(l@[i as int]));
                    proof {
                        l@.take(i as int).lemma_filter_push(l@[i as int], other_than(t));
                        if l@[i as int] != t {
                            assert(without(l@.take(i + 1), t) == without(l@.take(i as int), t).push(l@[i as int]));
                        } else {
                            assert(without(l@.take(i + 1), t) == without(l@.take(i as int), t));
                        }
                        assert(out@ =~= old(out)@ + without(l@.take(i + 1), t));
                    }
                    assert forall|g: usize| #[trigger] out@.contains(g) <==> (old(out)@.contains(g) || (g != t
                        && l@.take(i + 1).contains(g))) by {
                        assert(before.contains(g) <==> (old(out)@.contains(g) || (g != t && l@.take(
                            i as int,
                        ).contains(g))));
                        if l@[i as int] != t {
                            assert(out@ == before.push(l@[i as int]));
                            lemma_push_contains(before, l@[i as int], g);
                        }
                        lemma_push_contains(l@.take(i as int), l@[i as int], g);
                        if l@.take(i + 1).contains(g) && !l@.take(i as int).contains(g) {
                            assert(g == l@[i as int]);
                        }
                    }
                    i += 1;
                }
                assert(l@.take(i as int) =~= l@);
            },
            None => {
                assert(listed(self.adjacency(), k) =~= Seq::<usize>::empty());
                assert(without(Seq::<usize>::empty(), t) =~= Seq::<usize>::empty()) by {
                    reveal(Seq::filter);
                }
                assert(out@ =~= old(out)@ + without(listed(self.adjacency(), k), t));
            },
        }
    }

    /// The faces other than `tri_ind` that share an edge with it.
    #[verifier::rlimit(80)]
    pub fn neighbors(&self, tri_ind: usize) -> (r: Vec<usize>)
        requires
            self.wf(),
            tri_ind < self.faces@.len(),
        ensures
            forall|g: usize| #[trigger] r@.contains(g) <==> is_neighbor(self.faces@, tri_ind as int, g as int),
            ({
                let f = self.faces@[tri_ind as int];
                let adj = self.adjacency();
                r@ == without(listed(adj, edge_key_spec(f[0], f[1])), tri_ind) + without(listed(adj, edge_key_spec(f[1], f[2])), tri_ind)
                    + without(listed(adj, edge_key_spec(f[2], f[0])), tri_ind)
            }),
    {
        let f = self.faces[tri_ind];
        let mut out: Vec<usize> = Vec::new();
        self.push_side(&mut out, f[0], f[1], tri_ind);
        self.push_side(&mut out, f[1], f[2], tri_ind);
        self.push_side(&mut out, f[2], f[0], tri_ind);
        proof {
            let adj = self.adjacency();
            let faces = self.faces@;
            let ks = side_keys(f);
            lemma_side_keys(f);
            assert(faces[tri_ind as int] == f);
            assert forall|g: usize| #[trigger] out@.contains(g) <==> is_neighbor(faces, tri_ind as int, g as int) by {
                if out@.contains(g) {
                    let j = choose|j: int| 0 <= j < 3 && listed(adj, ks[j]).contains(g);
                    let k = ks[j];
                    let i = choose|i: int| 0 <= i < adj[k]@.len() && adj[k]@[i] == g;
                    assert(adj.contains_key(k));
                    assert(key_lo(k) < key_hi(k));
                    assert(has_edge(faces[g as int], key_lo(k), key_hi(k)));
                    assert(has_edge(f, key_lo(k), key_hi(k)));
                }
                if is_neighbor(faces, tri_ind as int, g as int) {
                    let (x, y) = choose|x: int, y: int| x < y && #[trigger] has_edge(f, x, y) && #[trigger] has_edge(
                        faces[g as int],
                        x,
                        y,
                    );
                    assert(edge_listed(adj, g as int, x, y));
                    assert(ks.contains(key_of(x, y)));
                }
            }
        }
        out
    }

    /// Splits the edge `{edge[0], edge[1]}` at a new vertex `new_vert`, appended to the vertices.
    /// Each face of the edge keeps its `edge[0]` side, with `edge[1]` replaced by the new vertex, and
    /// a new face `[edge[1], new, c]` is appended for its other side (`c` its third corner). Returns
    /// the edges that were made or shortened: `[c, new]` for each face, then `[edge[1], new]` and
    /// `[edge[0], new]`.
    pub fn divide_edge(&mut self, edge: [usize; 2], new_vert: V) -> (new_edges: Vec<[usize; 2]>)
        requires
            old(self).wf(),
            edge[0] < edge[1] < old(self).verticies@.len(),
            old(self).adjacency().contains_key(key_of(edge[0] as int, edge[1] as int)),
            old(self).verticies@.len() < usize::MAX,
            old(self).faces@.len() + old(self).adjacency()[key_of(edge[0] as int, edge[1] as int)]@.len()
                <= usize::MAX,
        ensures
            final(self).wf(),
            final(self).verticies@ == old(self).verticies@.push(new_vert),
            ({
                let tris = old(self).adjacency()[key_of(edge[0] as int, edge[1] as int)]@;
                let nv = old(self).verticies@.len() as usize;
                &&& final(self).faces@ == split_faces(old(self).faces@, tris, tris.len() as int, edge[0], edge[1], nv)
                &&& new_edges@ == split_edges(old(self).faces@, tris, edge[0], edge[1], nv)
            }),
            forall|i: int| 0 <= i < new_edges@.len() ==> (#[trigger] new_edges@[i])[0] < new_edges@[i][1]
                && final(self).adjacency().contains_key(key_of(new_edges@[i][0] as int, new_edges@[i][1] as int))
                && (new_edges@[i][1] as int) < final(self).verticies@.len(),
            !final(self).adjacency().contains_key(key_of(edge[0] as int, edge[1] as int)),
    {
        let a = edge[0];
        let b = edge[1];
        let ghost faces0 = self.faces@;
        let ghost adj0 = self.adjacency();
        let nv = self.verticies.len();
        self.verticies.push(new_vert);
        let k = edge_key(a, b);
        let tris = match self.edge_connections.remove(&k) {
            Some(l) => l,
            None => Vec::new(),
        };
        let ghost tv = tris@;
        let n0 = self.faces.len();
        let mut new_tris: Vec<usize> = Vec::new();
        let mut new_edges: Vec<[usize; 2]> = Vec::new();
        proof {
            lemma_key_decode(a as int, b as int);
            assert forall|j: int| 0 <= j < tv.len() implies {
                &&& (#[trigger] tv[j] as int) < n0
                &&& has_edge(faces0[tv[j] as int], a as int, b as int)
            } by {
                assert(adj0[k]@[j] == tv[j]);
            }
            assert(faces0[tv[0] as int][0] < nv || tv.len() == 0);
            if tv.len() > 0 {
                assert(has_vertex(faces0[tv[0] as int], b as int));
            }
            assert(split_faces(faces0, tv, 0, a, b, nv) =~= faces0);
            assert forall|f: int, x: int, y: int|
                0 <= f < faces0.len() && x < y && #[trigger] has_edge(faces0[f], x, y) && !(among(x, a, b, nv) && among(y, a, b, nv))
                implies edge_listed(self.adjacency(), f, x, y) by {
                assert(edge_listed(adj0, f, x, y));
                lemma_key_decode(x, y);
            }
        }
        let mut i: usize = 0;
        while i < tris.len()
            invariant
                0 <= i <= tv.len(),
                tris@ == tv,
                tv == adj0[k]@,
                adj0 == old(self).adjacency(),
                faces0 == old(self).faces@,
                old(self).wf(),
                k == key_of(a as int, b as int),
                a == edge[0] && b == edge[1],
                a < b,
                nv == old(self).verticies@.len(),
                n0 == faces0.len(),
                n0 + tv.len() <= usize::MAX,
                forall|j: int| 0 <= j < tv.len() ==> (#[trigger] tv[j] as int) < n0 && has_edge(
                    faces0[tv[j] as int],
                    a as int,
                    b as int,
                ),
                self.verticies@ == old(self).verticies@.push(new_vert),
                self.faces@ == split_faces(faces0, tv, i as int, a, b, nv),
                new_tris@ == index_run(n0 as int, i as int),
                new_edges@ == Seq::new(i as nat, |j: int| [opposite_spec(faces0[tv[j] as int], a, b), nv]),
                adjacency_sound(self.adjacency(), self.faces@),
                adjacency_complete_off(self.adjacency(), self.faces@, a, b, nv),
                adjacency_unique(self.adjacency()),
                !self.adjacency().contains_key(k),
            decreases tv.len() - i,
        {
            let f = tris[i];
            proof {
                assert(adj0.contains_key(k));
                lemma_split_faces_step(faces0, tv, i as int, a, b, nv);
                assert(faces0[f as int][0] < nv && faces0[f as int][1] < nv && faces0[f as int][2] < nv);
                assert(b < nv) by {
                    assert(has_vertex(faces0[f as int], b as int));
                }
            }
            let ghost adj_before = self.adjacency();
            let ghost faces_before = self.faces@;
            let face = self.faces[f];
            let c = opposite(face, a, b);
            let nf = replace_corner(face, b, nv);
            self.faces.set(f, nf);
            let nt = self.faces.len();
            self.faces.push([b, nv, c]);
            new_tris.push(nt);
            let kbc = edge_key(b, c);
            proof {
                assert(c != a && c != b && has_vertex(face, c as int));
                lemma_key_decode(if c < nv { c as int } else { nv as int }, nv as int);
            }
            let kcn = edge_key(c, nv);
            let ghost adj_mid0 = self.edge_connections@;
            swap_listed(&mut self.edge_connections, kbc, f, nt);
            let ghost adj_mid = self.edge_connections@;
            append_two(&mut self.edge_connections, kcn, f, nt);
            new_edges.push([c, nv]);
            proof {
                let adj2 = self.adjacency();
                assert(kbc != kcn);
                assert forall|j: u128| j != kbc && j != kcn && #[trigger] adj_before.contains_key(j) implies adj2[j] == adj_before[j] by {
                    assert(adj_mid.contains_key(j));
                }
                assert(listed(adj_mid, kcn) == listed(adj_before, kcn));
                if adj_before.contains_key(kbc) {
                    assert(adj_mid.contains_key(kbc));
                    assert(adj2[kbc] == adj_mid[kbc]);
                }
                assert(adj2.dom() =~= adj_before.dom().insert(kcn));
                assert(split_step(adj_before, adj2, faces_before, f, a, b, nv));
                lemma_step_sound(adj_before, adj2, faces_before, f, a, b, nv);
                lemma_step_complete(adj_before, adj2, faces_before, f, a, b, nv);
                lemma_step_unique(adj_before, adj2, faces_before, f, a, b, nv);
                assert(self.faces@ == split_step_faces(faces_before, f, a, b, nv));
                assert(new_tris@ =~= index_run(n0 as int, i + 1));
                assert(new_edges@ =~= Seq::new((i + 1) as nat, |j: int| [opposite_spec(faces0[tv[j] as int], a, b), nv]));
            }
            i += 1;
        }
        let ghost adj_end = self.adjacency();
        let kbn = edge_key(b, nv);
        let kan = edge_key(a, nv);
        self.edge_connections.insert(kbn, new_tris);
        new_edges.push([b, nv]);
        self.edge_connections.insert(kan, tris);
        new_edges.push([a, nv]);
        proof {
            lemma_key_decode(b as int, nv as int);
            lemma_key_decode(a as int, nv as int);
            let fin = self.adjacency();
            assert(fin[kbn]@ == index_run(n0 as int, tv.len() as int));
            assert(fin[kan]@ == tv);
            assert(fin.dom() == adj_end.dom().insert(kbn).insert(kan));
            assert forall|j: u128| j != kbn && j != kan && #[trigger] adj_end.contains_key(j) implies fin[j] == adj_end[j] by {}
            lemma_split_finish(adj0, faces0, adj_end, fin, a, b, nv, tv);
            assert(kbn != k && kan != k);
            assert(new_edges@ =~= split_edges(faces0, tv, a, b, nv));
            assert(tv.take(tv.len() as int) =~= tv);
            assert forall|i: int| 0 <= i < new_edges@.len() implies (#[trigger] new_edges@[i])[0] < new_edges@[i][1]
                && fin.contains_key(key_of(new_edges@[i][0] as int, new_edges@[i][1] as int)) by {
                if i < tv.len() {
                    let f = tv[i];
                    let c = opposite_spec(faces0[f as int], a, b);
                    assert(tv.contains(f));
                    assert(self.faces@[f as int] == replace_corner_spec(faces0[f as int], b, nv));
                    assert(faces0[f as int][0] < nv && faces0[f as int][1] < nv && faces0[f as int][2] < nv);
                    assert(has_vertex(faces0[f as int], c as int) && c != b);
                    assert(has_edge(self.faces@[f as int], c as int, nv as int));
                    assert(edge_listed(fin, f as int, c as int, nv as int));
                }
            }
        }
        new_edges
    }

    /// `{a, b}` is an edge of the mesh.
    pub fn contains_edge(&self, a: usize, b: usize) -> (r: bool)
        requires
            a < b,
        ensures
            r == self.adjacency().contains_key(key_of(a as int, b as int)),
    {
        let k = edge_key(a, b);
        self.edge_connections.contains_key(&k)
    }

    /// The side `{x, y}` of face `f` is reported by that face: it is the first face listed under it.
    fn side_first(&self, f: usize, x: usize, y: usize) -> (r: bool)
        requires
            x != y,
        ensures
            r == (self.adjacency().contains_key(edge_key_spec(x, y)) && self.adjacency()[edge_key_spec(x, y)]@.len() > 0
                && self.adjacency()[edge_key_spec(x, y)]@[0] == f),
    {
        let k = edge_key(x, y);
        match self.edge_connections.get(&k) {
            Some(l) => l.len() > 0 && l[0] == f,
            None => false,
        }
    }

    /// Every edge of the mesh, as `[smaller, larger]`, each reported by the first face listed under it.
    pub fn edge_list(&self) -> (r: Vec<[usize; 2]>)
        requires
            self.wf(),
        ensures
            forall|i: int| 0 <= i < r@.len() ==> (#[trigger] r@[i])[0] < r@[i][1] && self.adjacency().contains_key(
                key_of(r@[i][0] as int, r@[i][1] as int),
            ) && is_edge(self.faces@, r@[i][0] as int, r@[i][1] as int),
            forall|f: int, x: int, y: int|
                0 <= f < self.faces@.len() && x < y && #[trigger] has_edge(self.faces@[f], x, y) ==> r@.contains(
                    [x as usize, y as usize],
                ),
            r@.no_duplicates(),
    {
        let mut r: Vec<[usize; 2]> = Vec::new();
        let mut f: usize = 0;
        while f < self.faces.len()
            invariant
                self.wf(),
                f <= self.faces@.len(),
                forall|i: int| 0 <= i < r@.len() ==> (#[trigger] r@[i])[0] < r@[i][1] && self.adjacency().contains_key(
                    key_of(r@[i][0] as int, r@[i][1] as int),
                ) && is_edge(self.faces@, r@[i][0] as int, r@[i][1] as int),
                forall|g: int, x: int, y: int|
                    0 <= g < f && x < y && #[trigger] has_edge(self.faces@[g], x, y) && self.adjacency()[key_of(x, y)]@[0]
                        == g as usize ==> r@.contains([x as usize, y as usize]),
                r@.no_duplicates(),
                forall|i: int| 0 <= i < r@.len() ==> (self.adjacency()[key_of((#[trigger] r@[i])[0] as int, r@[i][1] as int)]@[0] as int) < f,
            decreases self.faces@.len() - f,
        {
            let face = self.faces[f];
            let ghost r0 = r@;
            let mut s: usize = 0;
            while s < 3
                invariant
                    self.wf(),
                    (f as int) < self.faces@.len(),
                    face == self.faces@[f as int],
                    s <= 3,
                    forall|i: int| 0 <= i < r0.len() ==> r@[i] == r0[i],
                    r0.len() <= r@.len(),
                    forall|i: int| 0 <= i < r@.len() ==> (#[trigger] r@[i])[0] < r@[i][1] && self.adjacency().contains_key(
                        key_of(r@[i][0] as int, r@[i][1] as int),
                    ) && is_edge(self.faces@, r@[i][0] as int, r@[i][1] as int),
                    forall|j: int| 0 <= j < s ==> (self.adjacency()[key_of(side_pair(face, j)[0] as int, side_pair(face, j)[1] as int)]@[0] == f
                        ==> r@.contains(#[trigger] side_pair(face, j))),
                    r@.no_duplicates(),
                    forall|i: int| 0 <= i < r0.len() ==> (self.adjacency()[key_of((#[trigger] r@[i])[0] as int, r@[i][1] as int)]@[0] as int) < f,
                    forall|i: int| r0.len() <= i < r@.len() ==> self.adjacency()[key_of((#[trigger] r@[i])[0] as int, r@[i][1] as int)]@[0] == f
                        && ((r@[i] == side_pair(face, 0) && 0 < s) || (r@[i] == side_pair(face, 1) && 1 < s) || (r@[i] == side_pair(face, 2) && 2 < s)),
                decreases 3 - s,
            {
                let x = face[s];
                let y = face[(s + 1) % 3];
                proof {
                    assert(distinct_corners(face));
                }
                let (lo, hi) = if x < y { (x, y) } else { (y, x) };
                proof {
                    assert(side_pair(face, s as int) == [lo, hi]);
                    assert(has_edge(self.faces@[f as int], lo as int, hi as int));
                    assert(edge_listed(self.adjacency(), f as int, lo as int, hi as int));
                    assert(self.adjacency()[key_of(lo as int, hi as int)]@.len() > 0);
                }
                if self.side_first(f, lo, hi) {
                    let ghost rb = r@;
                    r.push([lo, hi]);
                    proof {
                        lemma_key_decode(lo as int, hi as int);
                        assert forall|v: [usize; 2]| rb.contains(v) implies #[trigger] r@.contains(v) by {
                            lemma_push_contains(rb, [lo, hi], v);
                        }
                        lemma_push_contains(rb, [lo, hi], [lo, hi]);
                        assert(side_pair(face, s as int) == [lo, hi]);
                        assert(r@[rb.len() as int] == [lo, hi]);
                        assert(has_edge(self.faces@[f as int], lo as int, hi as int));
                        assert(!rb.contains([lo, hi])) by {
                            if rb.contains([lo, hi]) {
                                let i = choose|i: int| 0 <= i < rb.len() && rb[i] == [lo, hi];
                                assert(r@[i] == rb[i]);
                                if i >= r0.len() {
                                    assert(side_pair(face, 0) != side_pair(face, 1));
                                    assert(side_pair(face, 1) != side_pair(face, 2));
                                    assert(side_pair(face, 0) != side_pair(face, 2));
                                }
                            }
                        }
                        assert forall|i: int, j: int| 0 <= i < r@.len() && 0 <= j < r@.len() && i != j implies r@[i] != r@[j] by {
                            if i < rb.len() && j < rb.len() {
                                assert(r@[i] == rb[i] && r@[j] == rb[j]);
                            } else if i < rb.len() {
                                assert(r@[i] == rb[i]);
                                assert(rb.contains(rb[i]));
                            } else if j < rb.len() {
                                assert(r@[j] == rb[j]);
                                assert(rb.contains(rb[j]));
                            }
                        }
                    }
                }
                s += 1;
            }
            proof {
                assert forall|g: int, x: int, y: int|
                    0 <= g < f + 1 && x < y && #[trigger] has_edge(self.faces@[g], x, y) && self.adjacency()[key_of(x, y)]@[0]
                        == g as usize implies r@.contains([x as usize, y as usize]) by {
                    if g < f {
                        let i = choose|i: int| 0 <= i < r0.len() && r0[i] == [x as usize, y as usize];
                        assert(r@[i] == [x as usize, y as usize]);
                    } else {
                        let a = face[0] as int;
                        let b = face[1] as int;
                        let c = face[2] as int;
                        if (x == a && y == b) || (x == b && y == a) {
                            assert(side_pair(face, 0) == [x as usize, y as usize]);
                        } else if (x == b && y == c) || (x == c && y == b) {
                            assert(side_pair(face, 1) == [x as usize, y as usize]);
                        } else {
                            assert(side_pair(face, 2) == [x as usize, y as usize]);
                        }
                    }
                }
            }
            f += 1;
        }
        proof {
            assert forall|g: int, x: int, y: int|
                0 <= g < self.faces@.len() && x < y && #[trigger] has_edge(self.faces@[g], x, y) implies r@.contains(
                    [x as usize, y as usize],
                ) by {
                assert(edge_listed(self.adjacency(), g, x, y));
                let k = key_of(x, y);
                let h = self.adjacency()[k]@[0];
                lemma_key_decode(x, y);
                assert(has_edge(self.faces@[h as int], key_lo(k), key_hi(k)));
            }
        }
        r
    }
}

impl<V: Copy> SpaceQueryMesh<V> {
    /// Appends to `queue` the pairs of `edges` that `too_long` finds too long.
    fn queue_too_long<L: Fn(V, V) -> bool>(&self, too_long: &L, edges: &Vec<[usize; 2]>, queue: &mut Vec<[usize; 2]>)
        requires
            pair_test(*too_long),
            forall|k: int| 0 <= k < edges@.len() ==> (#[trigger] edges@[k])[0] < edges@[k][1] && (edges@[k][1] as int) < self.verticies@.len(),
        ensures
            final(queue)@.take(old(queue)@.len() as int) == old(queue)@,
            old(queue)@.len() <= final(queue)@.len(),
            forall|k: int|
                0 <= k < edges@.len() && too_long_at(*too_long, self.verticies@, edges@[k][0] as int, edges@[k][1] as int)
                    ==> #[trigger] final(queue)@.skip(old(queue)@.len() as int).contains(edges@[k]),
            forall|k: int|
                old(queue)@.len() <= k < final(queue)@.len() ==> edges@.contains(#[trigger] final(queue)@[k])
                    && too_long_at(*too_long, self.verticies@, final(queue)@[k][0] as int, final(queue)@[k][1] as int),
    {
        let ghost q0 = queue@;
        let mut i: usize = 0;
        while i < edges.len()
            invariant
                pair_test(*too_long),
                q0 == old(queue)@,
                i <= edges@.len(),
                queue@.take(q0.len() as int) == q0,
                q0.len() <= queue@.len(),
                forall|k: int| 0 <= k < edges@.len() ==> (#[trigger] edges@[k])[0] < edges@[k][1] && (edges@[k][1] as int) < self.verticies@.len(),
                forall|k: int|
                    0 <= k < i && too_long_at(*too_long, self.verticies@, edges@[k][0] as int, edges@[k][1] as int)
                        ==> #[trigger] queue@.skip(q0.len() as int).contains(edges@[k]),
                forall|k: int|
                    q0.len() <= k < queue@.len() ==> edges@.contains(#[trigger] queue@[k])
                        && too_long_at(*too_long, self.verticies@, queue@[k][0] as int, queue@[k][1] as int),
            decreases edges@.len() - i,
        {
            let e = edges[i];
            let ghost qb = queue@;
            let long = too_long(self.verticies[e[0]], self.verticies[e[1]]);
            if long {
                queue.push(e);
                proof {
                    assert(edges@.contains(e));
                    assert(queue@.take(q0.len() as int) =~= qb.take(q0.len() as int));
                    assert(queue@.skip(q0.len() as int) =~= qb.skip(q0.len() as int).push(e));
                    assert forall|k: int| 0 <= k < i && too_long_at(*too_long, self.verticies@, edges@[k][0] as int, edges@[k][1] as int)
                        implies #[trigger] queue@.skip(q0.len() as int).contains(edges@[k]) by {
                        lemma_push_contains(qb.skip(q0.len() as int), e, edges@[k]);
                    }
                    lemma_push_contains(qb.skip(q0.len() as int), e, e);
                    assert forall|k: int| q0.len() <= k < queue@.len() implies edges@.contains(#[trigger] queue@[k])
                        && too_long_at(*too_long, self.verticies@, queue@[k][0] as int, queue@[k][1] as int) by {
                        if k < qb.len() {
                            assert(queue@[k] == qb[k]);
                        }
                    }
                }
            }
            i += 1;
        }
    }

    /// Splits at its midpoint (by `midpoint`) every edge that `too_long` finds too long: first the
    /// edges of the mesh, then, oldest first, the edges that each split made or shortened. Entries of
    /// the queue that are no longer edges are passed over. Stops when no such edge is left, returning
    /// true; or, returning false, once `budget` edges were split, or where the faces would outgrow
    /// half the address range. Where it returns true, `too_long` finds no edge of the mesh too long.
    /// The old vertices keep their places and no face is lost; a mesh with no edge too long is left
    /// as it is.
    pub fn subdivide<L: Fn(V, V) -> bool, M: Fn(V, V) -> V>(&mut self, too_long: &L, midpoint: &M, budget: usize) -> (done: bool)
        requires
            old(self).wf(),
            pair_test(*too_long),
            forall|p: V, q: V| #[trigger] midpoint.requires((p, q)),
            old(self).verticies@.len() + budget < usize::MAX,
        ensures
            final(self).wf(),
            final(self).verticies@.take(old(self).verticies@.len() as int) == old(self).verticies@,
            final(self).faces@.len() >= old(self).faces@.len(),
            done ==> none_too_long(*too_long, final(self).verticies@, final(self).faces@),
            !done ==> final(self).verticies@.len() == old(self).verticies@.len() + budget || final(self).faces@.len()
                > usize::MAX / 2,
            none_too_long(*too_long, old(self).verticies@, old(self).faces@) ==> done && *final(self) == *old(self),
            !none_too_long(*too_long, old(self).verticies@, old(self).faces@) && budget > 0 && old(self).faces@.len()
                <= usize::MAX / 2 ==> final(self).faces@.len() > old(self).faces@.len(),
            midpoints_from(*midpoint, final(self).verticies@, old(self).verticies@.len() as int),
    {
        let ghost v0 = self.verticies@;
        let initial = self.edge_list();
        proof {
            assert forall|k: int| 0 <= k < initial@.len() implies (#[trigger] initial@[k])[0] < initial@[k][1] && (initial@[k][1] as int) < self.verticies@.len() by {
                let g = choose|g: int| 0 <= g < self.faces@.len() && #[trigger] has_edge(self.faces@[g], initial@[k][0] as int, initial@[k][1] as int);
                assert(self.faces@[g][0] < self.verticies@.len() && self.faces@[g][1] < self.verticies@.len() && self.faces@[g][2] < self.verticies@.len());
            }
        }
        let mut queue: Vec<[usize; 2]> = Vec::new();
        self.queue_too_long(too_long, &initial, &mut queue);
        proof {
            assert(queue@.skip(0) =~= queue@);
            assert forall|g: int, x: int, y: int|
                0 <= g < self.faces@.len() && x < y && #[trigger] has_edge(self.faces@[g], x, y) && too_long_at(*too_long, self.verticies@, x, y)
                implies queue@.contains([x as usize, y as usize]) by {
                let k = choose|k: int| 0 <= k < initial@.len() && initial@[k] == [x as usize, y as usize];
                assert(queue@.skip(0).contains(initial@[k]));
            }
            assert forall|k: int| 0 <= k < queue@.len() implies (#[trigger] queue@[k])[0] < queue@[k][1]
                && (queue@[k][1] as int) < self.verticies@.len() && is_edge(self.faces@, queue@[k][0] as int, queue@[k][1] as int)
                && too_long_at(*too_long, self.verticies@, queue@[k][0] as int, queue@[k][1] as int) by {
                assert(initial@.contains(queue@[k]));
                let j = choose|j: int| 0 <= j < initial@.len() && initial@[j] == queue@[k];
                assert(initial@[j][0] < initial@[j][1]);
            }
        }
        if queue.len() == 0 {
            return true;
        }
        proof {
            assert(midpoints_from(*midpoint, self.verticies@, v0.len() as int));
        }
        let ghost first = queue@[0];
        proof {
            let g = choose|g: int| 0 <= g < self.faces@.len() && #[trigger] has_edge(self.faces@[g], queue@[0][0] as int, queue@[0][1] as int);
            assert(has_edge(old(self).faces@[g], queue@[0][0] as int, queue@[0][1] as int));
        }
        let mut head: usize = 0;
        let mut steps: usize = 0;
        while head < queue.len()
            invariant
                self.wf(),
                pair_test(*too_long),
                forall|p: V, q: V| #[trigger] midpoint.requires((p, q)),
                v0 == old(self).verticies@,
                midpoints_from(*midpoint, self.verticies@, v0.len() as int),
                !none_too_long(*too_long, old(self).verticies@, old(self).faces@),
                v0.len() + budget < usize::MAX,
                self.verticies@.len() == v0.len() + steps,
                self.verticies@.take(v0.len() as int) == v0,
                self.faces@.len() >= old(self).faces@.len(),
                head <= queue@.len(),
                steps <= budget,
                queue@.len() > 0 && queue@[0] == first,
                is_edge(old(self).faces@, first[0] as int, first[1] as int),
                head == 0 ==> steps == 0 && *self == *old(self),
                head > 0 && budget > 0 && old(self).faces@.len() <= usize::MAX / 2 ==> self.faces@.len() > old(self).faces@.len(),
                forall|k: int| 0 <= k < queue@.len() ==> (#[trigger] queue@[k])[0] < queue@[k][1] && (queue@[k][1] as int)
                    < self.verticies@.len(),
                queued_all(*too_long, self.verticies@, self.faces@, queue@.skip(head as int)),
            decreases budget - steps, queue@.len() - head,
        {
            let e = queue[head];
            let ghost q_before = queue@;
            let ghost h0 = head as int;
            head += 1;
            let a = e[0];
            let b = e[1];
            proof {
                if h0 == 0 {
                    let g = choose|g: int| 0 <= g < self.faces@.len() && #[trigger] has_edge(self.faces@[g], a as int, b as int);
                    assert(edge_listed(self.adjacency(), g, a as int, b as int));
                }
            }
            if !self.contains_edge(a, b) {
                proof {
                    assert forall|g: int, x: int, y: int|
                        0 <= g < self.faces@.len() && x < y && #[trigger] has_edge(self.faces@[g], x, y) && too_long_at(*too_long, self.verticies@, x, y)
                        implies queue@.skip(head as int).contains([x as usize, y as usize]) by {
                        assert(edge_listed(self.adjacency(), g, x, y));
                        lemma_key_decode(x, y);
                        let k = choose|k: int| 0 <= k < q_before.skip(h0).len() && q_before.skip(h0)[k] == [x as usize, y as usize];
                        assert(k != 0);
                        assert(queue@.skip(head as int)[k - 1] == [x as usize, y as usize]);
                    }
                }
                continue;
            }
            if steps == budget {
                return false;
            }
            if self.faces.len() > usize::MAX / 2 {
                return false;
            }
            let ghost faces0 = self.faces@;
            let ghost verts0 = self.verticies@;
            let ghost adj0 = self.adjacency();
            proof {
                let l = adj0[key_of(a as int, b as int)]@;
                assert forall|i: int| 0 <= i < l.len() implies (#[trigger] l[i] as int) < faces0.len() by {}
                lemma_distinct_below(l, faces0.len() as nat);
                if h0 == 0 {
                    let g = choose|g: int| 0 <= g < self.faces@.len() && #[trigger] has_edge(self.faces@[g], a as int, b as int);
                    assert(edge_listed(self.adjacency(), g, a as int, b as int));
                    assert(l.len() > 0);
                }
            }
            let mid = midpoint(self.verticies[a], self.verticies[b]);
            let new_edges = self.divide_edge(e, mid);
            proof {
                let nv = verts0.len() as int;
                assert forall|i: int| v0.len() <= i < self.verticies@.len() implies #[trigger] is_midpoint_of_earlier(
                    *midpoint,
                    self.verticies@,
                    i,
                ) by {
                    if i < nv {
                        assert(is_midpoint_of_earlier(*midpoint, verts0, i));
                        let (x, y) = choose|x: int, y: int| 0 <= x < y < i && #[trigger] midpoint.ensures((verts0[x], verts0[y]), verts0[i]);
                        assert(self.verticies@[x] == verts0[x] && self.verticies@[y] == verts0[y] && self.verticies@[i] == verts0[i]);
                    } else {
                        assert(self.verticies@[a as int] == verts0[a as int] && self.verticies@[b as int] == verts0[b as int]);
                        assert(midpoint.ensures((self.verticies@[a as int], self.verticies@[b as int]), self.verticies@[i]));
                    }
                }
            }
            steps += 1;
            let ghost q_mid = queue@;
            self.queue_too_long(too_long, &new_edges, &mut queue);
            proof {
                assert(queue@[0] == queue@.take(q_mid.len() as int)[0]);
                let tris = adj0[key_of(a as int, b as int)]@;
                let nv = verts0.len() as usize;
                lemma_key_decode(a as int, b as int);
                lemma_split_cover(adj0, faces0, a, b, nv, tris);
                assert(self.verticies@.take(v0.len() as int) =~= v0);
                assert forall|k: int| 0 <= k < queue@.len() implies (#[trigger] queue@[k])[0] < queue@[k][1] && (queue@[k][1] as int)
                    < self.verticies@.len() by {
                    if k < q_mid.len() {
                        assert(queue@[k] == queue@.take(q_mid.len() as int)[k]);
                    } else {
                        let j = choose|j: int| 0 <= j < new_edges@.len() && new_edges@[j] == queue@[k];
                    }
                }
                assert forall|g: int, x: int, y: int|
                    0 <= g < self.faces@.len() && x < y && #[trigger] has_edge(self.faces@[g], x, y) && too_long_at(*too_long, self.verticies@, x, y)
                    implies queue@.skip(head as int).contains([x as usize, y as usize]) by {
                    if new_edges@.contains([x as usize, y as usize]) {
                        let k = choose|k: int| 0 <= k < new_edges@.len() && new_edges@[k] == [x as usize, y as usize];
                        assert(queue@.skip(q_mid.len() as int).contains(new_edges@[k]));
                        let m = choose|m: int| 0 <= m < queue@.skip(q_mid.len() as int).len() && queue@.skip(q_mid.len() as int)[m] == new_edges@[k];
                        assert(queue@.skip(head as int)[m + q_mid.len() - head] == [x as usize, y as usize]);
                    } else {
                        let g0 = choose|g0: int| 0 <= g0 < faces0.len() && #[trigger] has_edge(faces0[g0], x, y);
                        assert(faces0[g0][0] < nv && faces0[g0][1] < nv && faces0[g0][2] < nv);
                        assert(self.verticies@[x] == verts0[x] && self.verticies@[y] == verts0[y]);
                        assert(too_long_at(*too_long, verts0, x, y));
                        let k = choose|k: int| 0 <= k < q_before.skip(h0).len() && q_before.skip(h0)[k] == [x as usize, y as usize];
                        assert(k != 0);
                        assert(queue@[h0 + k] == queue@.take(q_mid.len() as int)[h0 + k]);
                        assert(queue@.skip(head as int)[k - 1] == [x as usize, y as usize]);
                    }
                }
            }
        }
        proof {
            assert forall|g: int, x: int, y: int|
                0 <= g < self.faces@.len() && x < y && #[trigger] has_edge(self.faces@[g], x, y)
                implies !too_long_at(*too_long, self.verticies@, x, y) by {
                if too_long_at(*too_long, self.verticies@, x, y) {
                    assert(queue@.skip(head as int).contains([x as usize, y as usize]));
                }
            }
        }
        true
    }
}

} // verus!
