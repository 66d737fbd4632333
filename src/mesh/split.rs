//! Why the edge map stays exact while the faces of an edge are split at a new vertex.
use crate::mesh::{
    KEY_BASE,
    adjacency_complete,
    adjacency_complete_off,
    adjacency_sound,
    adjacency_unique,
    among,
    distinct_corners,
    edge_key_spec,
    edge_listed,
    faces_valid,
    has_edge,
    has_vertex,
    index_run,
    key_hi,
    key_lo,
    key_of,
    lemma_key_decode,
    lemma_push_contains,
    listed,
    opposite_spec,
    replace_corner_spec,
    split_edges,
    split_faces,
    swap_item,
};
use vstd::prelude::*;

verus! {

/// Every key is the key of the pair it decodes to.
proof fn lemma_key_encode(k: u128)
    ensures
        k == key_of(key_lo(k), key_hi(k)),
{
    vstd::arithmetic::div_mod::lemma_fundamental_div_mod(k as int, KEY_BASE as int);
    assert(k as int == key_lo(k) * KEY_BASE + key_hi(k)) by (nonlinear_arith)
        requires
            k as int == KEY_BASE as int * (k as int / KEY_BASE as int) + k as int % KEY_BASE as int,
    ;
}

/// Replacing an item by one the list does not hold keeps the list free of repeats.
proof fn lemma_swap_unique(s: Seq<usize>, from: usize, to: usize)
    requires
        s.no_duplicates(),
        !s.contains(to),
    ensures
        swap_item(s, from, to).no_duplicates(),
        forall|g: usize| g != from && s.contains(g) ==> #[trigger] swap_item(s, from, to).contains(g),
        s.contains(from) ==> swap_item(s, from, to).contains(to),
{
    let w = swap_item(s, from, to);
    assert forall|i: int, j: int| 0 <= i < w.len() && 0 <= j < w.len() && i != j implies w[i] != w[j] by {
        if s[i] != from && s[j] == from {
            assert(s.contains(s[i]));
        }
        if s[i] == from && s[j] != from {
            assert(s.contains(s[j]));
        }
    }
    assert forall|g: usize| g != from && s.contains(g) implies #[trigger] w.contains(g) by {
        let i = choose|i: int| 0 <= i < s.len() && s[i] == g;
        assert(w[i] == g);
    }
    if s.contains(from) {
        let i = choose|i: int| 0 <= i < s.len() && s[i] == from;
        assert(w[i] == to);
    }
}

/// The state before and after one face `f`, holding the edge `{a, b}`, is split at `nv`.
pub open spec fn split_step(
    adj: Map<u128, Vec<usize>>,
    adj2: Map<u128, Vec<usize>>,
    faces: Seq<[usize; 3]>,
    f: usize,
    a: usize,
    b: usize,
    nv: usize,
) -> bool {
    let c = opposite_spec(faces[f as int], a, b);
    let kbc = edge_key_spec(b, c);
    let kcn = edge_key_spec(c, nv);
    &&& adjacency_sound(adj, faces)
    &&& adjacency_complete_off(adj, faces, a, b, nv)
    &&& adjacency_unique(adj)
    &&& !adj.contains_key(key_of(a as int, b as int))
    &&& (f as int) < faces.len() < usize::MAX
    &&& a < b < nv
    &&& has_vertex(faces[f as int], a as int)
    &&& has_vertex(faces[f as int], b as int)
    &&& distinct_corners(faces[f as int])
    &&& faces[f as int][0] < nv && faces[f as int][1] < nv && faces[f as int][2] < nv
    &&& adj2.dom() == adj.dom().insert(kcn)
    &&& forall|j: u128| j != kbc && j != kcn && #[trigger] adj.contains_key(j) ==> adj2[j] == adj[j]
    &&& adj.contains_key(kbc) ==> adj2[kbc]@ == swap_item(adj[kbc]@, f, faces.len() as usize)
    &&& adj2[kcn]@ == listed(adj, kcn).push(f).push(faces.len() as usize)
}

pub open spec fn split_step_faces(faces: Seq<[usize; 3]>, f: usize, a: usize, b: usize, nv: usize) -> Seq<[usize; 3]> {
    faces.update(f as int, replace_corner_spec(faces[f as int], b, nv)).push(
        [b, nv, opposite_spec(faces[f as int], a, b)],
    )
}

/// Facts of one split step that the three lemmas after it share.
proof fn lemma_step_basics(
    adj: Map<u128, Vec<usize>>,
    adj2: Map<u128, Vec<usize>>,
    faces: Seq<[usize; 3]>,
    f: usize,
    a: usize,
    b: usize,
    nv: usize,
)
    requires
        split_step(adj, adj2, faces, f, a, b, nv),
    ensures
        ({
            let c = opposite_spec(faces[f as int], a, b);
            let kbc = edge_key_spec(b, c);
            let kcn = edge_key_spec(c, nv);
            &&& c != a && c != b && c < nv && has_vertex(faces[f as int], c as int)
            &&& key_lo(kbc) == if b < c { b as int } else { c as int }
            &&& key_hi(kbc) == if b < c { c as int } else { b as int }
            &&& key_lo(kcn) == c && key_hi(kcn) == nv
            &&& adj.contains_key(kbc)
            &&& adj[kbc]@.contains(f)
            &&& kbc != kcn
            &&& kbc != key_of(a as int, b as int) && kcn != key_of(a as int, b as int)
            &&& !listed(adj, kcn).contains(f)
            &&& !listed(adj, kcn).contains(faces.len() as usize)
            &&& !adj[kbc]@.contains(faces.len() as usize)
        }),
{
    let c = opposite_spec(faces[f as int], a, b);
    let old_f = faces[f as int];
    let kbc = edge_key_spec(b, c);
    let kcn = edge_key_spec(c, nv);
    let nt = faces.len() as usize;
    if b < c {
        lemma_key_decode(b as int, c as int);
        assert(has_edge(old_f, b as int, c as int));
        assert(edge_listed(adj, f as int, b as int, c as int));
    } else {
        lemma_key_decode(c as int, b as int);
        assert(has_edge(old_f, c as int, b as int));
        assert(edge_listed(adj, f as int, c as int, b as int));
    }
    lemma_key_decode(c as int, nv as int);
    lemma_key_decode(a as int, b as int);
    if listed(adj, kcn).contains(f) {
        let i = choose|i: int| 0 <= i < adj[kcn]@.len() && adj[kcn]@[i] == f;
        assert(has_edge(faces[adj[kcn]@[i] as int], key_lo(kcn), key_hi(kcn)));
    }
    if listed(adj, kcn).contains(nt) {
        let i = choose|i: int| 0 <= i < adj[kcn]@.len() && adj[kcn]@[i] == nt;
        assert((adj[kcn]@[i] as int) < faces.len());
    }
    if adj[kbc]@.contains(nt) {
        let i = choose|i: int| 0 <= i < adj[kbc]@.len() && adj[kbc]@[i] == nt;
        assert((adj[kbc]@[i] as int) < faces.len());
    }
}

#[verifier::rlimit(100)]
pub(crate) proof fn lemma_step_sound(
    adj: Map<u128, Vec<usize>>,
    adj2: Map<u128, Vec<usize>>,
    faces: Seq<[usize; 3]>,
    f: usize,
    a: usize,
    b: usize,
    nv: usize,
)
    requires
        split_step(adj, adj2, faces, f, a, b, nv),
    ensures
        adjacency_sound(adj2, split_step_faces(faces, f, a, b, nv)),
        !adj2.contains_key(key_of(a as int, b as int)),
{
    lemma_step_basics(adj, adj2, faces, f, a, b, nv);
    let c = opposite_spec(faces[f as int], a, b);
    let old_f = faces[f as int];
    let new_f = replace_corner_spec(old_f, b, nv);
    let faces2 = split_step_faces(faces, f, a, b, nv);
    let kbc = edge_key_spec(b, c);
    let kcn = edge_key_spec(c, nv);
    let nt = faces.len() as usize;
    assert(faces2[f as int] == new_f);
    assert(faces2[nt as int] == [b, nv, c]);
    assert forall|k: u128| #[trigger] adj2.contains_key(k) implies key_lo(k) < key_hi(k) by {
        if k != kcn {
            assert(adj.contains_key(k));
        }
    }
    assert forall|k: u128, i: int| #![trigger adj2[k]@[i]] adj2.contains_key(k) && 0 <= i < adj2[k]@.len() implies {
        &&& (adj2[k]@[i] as int) < faces2.len()
        &&& has_edge(faces2[adj2[k]@[i] as int], key_lo(k), key_hi(k))
    } by {
        let g = adj2[k]@[i];
        if k == kcn {
            let l = listed(adj, kcn);
            if i < l.len() {
                assert(g == adj[kcn]@[i]);
                assert(has_edge(faces[g as int], key_lo(k), key_hi(k)));
                assert(g != f);
                assert(faces2[g as int] == faces[g as int]);
            }
        } else if k == kbc {
            let h = adj[kbc]@[i];
            assert(has_edge(faces[h as int], key_lo(k), key_hi(k)));
            if h != f {
                assert(g == h);
                assert(faces2[g as int] == faces[g as int]);
            }
        } else {
            assert(adj.contains_key(k));
            assert(g == adj[k]@[i]);
            assert(has_edge(faces[g as int], key_lo(k), key_hi(k)));
            if g != f {
                assert(faces2[g as int] == faces[g as int]);
            } else {
                lemma_key_encode(k);
                let x = key_lo(k);
                let y = key_hi(k);
                if (x == b && y == c) || (x == c && y == b) {
                    assert(k == kbc);
                }
                if x == a && y == b {
                    assert(k == key_of(a as int, b as int));
                }
                assert(x != b && y != b);
            }
        }
    }
}

#[verifier::rlimit(100)]
pub(crate) proof fn lemma_step_complete(
    adj: Map<u128, Vec<usize>>,
    adj2: Map<u128, Vec<usize>>,
    faces: Seq<[usize; 3]>,
    f: usize,
    a: usize,
    b: usize,
    nv: usize,
)
    requires
        split_step(adj, adj2, faces, f, a, b, nv),
    ensures
        adjacency_complete_off(adj2, split_step_faces(faces, f, a, b, nv), a, b, nv),
{
    lemma_step_basics(adj, adj2, faces, f, a, b, nv);
    let c = opposite_spec(faces[f as int], a, b);
    let old_f = faces[f as int];
    let new_f = replace_corner_spec(old_f, b, nv);
    let faces2 = split_step_faces(faces, f, a, b, nv);
    let kbc = edge_key_spec(b, c);
    let kcn = edge_key_spec(c, nv);
    let nt = faces.len() as usize;
    lemma_swap_unique(adj[kbc]@, f, nt);
    lemma_push_contains(listed(adj, kcn), f, nt);
    lemma_push_contains(listed(adj, kcn).push(f), nt, nt);
    lemma_push_contains(listed(adj, kcn).push(f), nt, f);
    assert(faces2[f as int] == new_f);
    assert(faces2[nt as int] == [b, nv, c]);
    assert forall|g: int, x: int, y: int|
        0 <= g < faces2.len() && x < y && #[trigger] has_edge(faces2[g], x, y) && !(among(x, a, b, nv) && among(y, a, b, nv))
        implies edge_listed(adj2, g, x, y) by {
        let k = key_of(x, y);
        lemma_key_decode(x, y);
        if g == nt as int {
            if k != kbc {
                assert(k == kcn);
                assert(edge_listed(adj2, g, x, y));
            } else {
                assert(adj2.contains_key(kbc));
                assert(adj2[kbc]@.contains(nt));
            }
        } else if g == f as int {
            if k != kcn {
                // the `{a, c}` side keeps its list
                assert(has_edge(old_f, x, y));
                assert(edge_listed(adj, g, x, y));
                assert(k != kbc);
                assert(adj2[k] == adj[k]);
            } else {
                assert(adj2.contains_key(kcn));
                lemma_push_contains(listed(adj, kcn), f, f);
                lemma_push_contains(listed(adj, kcn).push(f), nt, f);
                assert(adj2[kcn]@.contains(f));
            }
        } else {
            assert(faces2[g] == faces[g]);
            assert(edge_listed(adj, g, x, y));
            if k == kcn {
                lemma_push_contains(listed(adj, kcn), f, g as usize);
                lemma_push_contains(listed(adj, kcn).push(f), nt, g as usize);
            } else if k == kbc {
                assert(swap_item(adj[kbc]@, f, nt).contains(g as usize));
            } else {
                assert(adj2[k] == adj[k]);
            }
        }
    }
}

pub(crate) proof fn lemma_step_unique(
    adj: Map<u128, Vec<usize>>,
    adj2: Map<u128, Vec<usize>>,
    faces: Seq<[usize; 3]>,
    f: usize,
    a: usize,
    b: usize,
    nv: usize,
)
    requires
        split_step(adj, adj2, faces, f, a, b, nv),
    ensures
        adjacency_unique(adj2),
{
    lemma_step_basics(adj, adj2, faces, f, a, b, nv);
    let c = opposite_spec(faces[f as int], a, b);
    let kbc = edge_key_spec(b, c);
    let kcn = edge_key_spec(c, nv);
    let nt = faces.len() as usize;
    lemma_swap_unique(adj[kbc]@, f, nt);
    assert forall|k: u128| #[trigger] adj2.contains_key(k) implies adj2[k]@.no_duplicates() by {
        if k == kcn {
            let l = listed(adj, kcn);
            lemma_push_contains(l, f, nt);
            assert(l.no_duplicates());
            assert(l.push(f).no_duplicates());
        } else if k != kbc {
            assert(adj.contains_key(k));
        }
    }
}

/// One more face of `tris` split, in terms of the faces before it.
pub(crate) proof fn lemma_split_faces_step(faces: Seq<[usize; 3]>, tris: Seq<usize>, i: int, a: usize, b: usize, nv: usize)
    requires
        0 <= i < tris.len(),
        tris.no_duplicates(),
        (tris[i] as int) < faces.len() <= usize::MAX,
    ensures
        split_faces(faces, tris, i, a, b, nv)[tris[i] as int] == faces[tris[i] as int],
        split_faces(faces, tris, i + 1, a, b, nv) == split_step_faces(split_faces(faces, tris, i, a, b, nv), tris[i], a, b, nv),
{
    let f = tris[i];
    let cur = split_faces(faces, tris, i, a, b, nv);
    assert(!tris.take(i).contains(f)) by {
        if tris.take(i).contains(f) {
            let j = choose|j: int| 0 <= j < i && tris.take(i)[j] == f;
            assert(tris[j] == tris[i]);
        }
    }
    assert(tris.take(i + 1) == tris.take(i).push(f));
    assert forall|g: usize| #[trigger] tris.take(i + 1).contains(g) <==> (tris.take(i).contains(g) || g == f) by {
        lemma_push_contains(tris.take(i), f, g);
    }
    let next = split_step_faces(cur, f, a, b, nv);
    let want = split_faces(faces, tris, i + 1, a, b, nv);
    assert(want.len() == next.len());
    assert forall|g: int| 0 <= g < want.len() implies want[g] == next[g] by {
        if g < faces.len() {
            assert(tris.take(i + 1).contains(g as usize) <==> (tris.take(i).contains(g as usize) || g == f));
        }
    }
    assert(want =~= next);
}

/// After every face of the edge `{a, b}` is split at `nv`, listing the faces of `{b, nv}` and `{a, nv}`
/// makes the map exact again.
#[verifier::rlimit(100)]
pub(crate) proof fn lemma_split_finish(
    adj0: Map<u128, Vec<usize>>,
    faces0: Seq<[usize; 3]>,
    adj: Map<u128, Vec<usize>>,
    fin: Map<u128, Vec<usize>>,
    a: usize,
    b: usize,
    nv: usize,
    tris: Seq<usize>,
)
    requires
        faces_valid(nv as int, faces0),
        adjacency_complete(adj0, faces0),
        adjacency_sound(adj0, faces0),
        adjacency_unique(adj0),
        adj0.contains_key(key_of(a as int, b as int)),
        adj0[key_of(a as int, b as int)]@ == tris,
        a < b < nv,
        faces0.len() + tris.len() <= usize::MAX,
        fin.dom() == adj.dom().insert(key_of(b as int, nv as int)).insert(key_of(a as int, nv as int)),
        forall|j: u128| j != key_of(b as int, nv as int) && j != key_of(a as int, nv as int) && #[trigger] adj.contains_key(j) ==> fin[j] == adj[j],
        fin[key_of(b as int, nv as int)]@ == index_run(faces0.len() as int, tris.len() as int),
        fin[key_of(a as int, nv as int)]@ == tris,
        adjacency_sound(adj, split_faces(faces0, tris, tris.len() as int, a, b, nv)),
        adjacency_complete_off(adj, split_faces(faces0, tris, tris.len() as int, a, b, nv), a, b, nv),
        adjacency_unique(adj),
    ensures
        ({
            let faces = split_faces(faces0, tris, tris.len() as int, a, b, nv);
            &&& faces_valid(nv + 1, faces)
            &&& adjacency_sound(fin, faces)
            &&& adjacency_complete(fin, faces)
            &&& adjacency_unique(fin)
        }),
{
    let n0 = faces0.len();
    let faces = split_faces(faces0, tris, tris.len() as int, a, b, nv);
    let kbn = key_of(b as int, nv as int);
    let kan = key_of(a as int, nv as int);
    let kab = key_of(a as int, b as int);
    lemma_key_decode(b as int, nv as int);
    lemma_key_decode(a as int, nv as int);
    lemma_key_decode(a as int, b as int);
    assert(tris.take(tris.len() as int) == tris);
    assert forall|j: int| 0 <= j < tris.len() implies {
        &&& (#[trigger] tris[j] as int) < n0
        &&& has_edge(faces0[tris[j] as int], a as int, b as int)
    } by {
        assert(adj0[kab]@[j] == tris[j]);
    }
    // what each face of the result holds
    assert forall|g: int| 0 <= g < faces.len() implies {
        let h = #[trigger] faces[g];
        &&& h[0] <= nv && h[1] <= nv && h[2] <= nv
        &&& distinct_corners(h)
        &&& !(has_vertex(h, a as int) && has_vertex(h, b as int))
        &&& has_vertex(h, nv as int) ==> (g < n0 && tris.contains(g as usize)) || g >= n0
        &&& (g < n0 && tris.contains(g as usize)) ==> has_vertex(h, a as int) && has_vertex(h, nv as int) && !has_vertex(h, b as int)
        &&& g >= n0 ==> has_vertex(h, b as int) && has_vertex(h, nv as int) && !has_vertex(h, a as int)
    } by {
        if g < n0 {
            assert(faces0[g][0] < nv && faces0[g][1] < nv && faces0[g][2] < nv && distinct_corners(faces0[g]));
            if tris.contains(g as usize) {
                let j = choose|j: int| 0 <= j < tris.len() && tris[j] == g as usize;
                assert(has_edge(faces0[tris[j] as int], a as int, b as int));
            } else {
                if has_vertex(faces0[g], a as int) && has_vertex(faces0[g], b as int) {
                    assert(has_edge(faces0[g], a as int, b as int));
                    assert(edge_listed(adj0, g, a as int, b as int));
                }
            }
        } else {
            let j = g - n0;
            assert(has_edge(faces0[tris[j] as int], a as int, b as int));
            assert(distinct_corners(faces0[tris[j] as int]));
            assert(faces0[tris[j] as int][0] < nv);
            assert(faces0[tris[j] as int][1] < nv);
            assert(faces0[tris[j] as int][2] < nv);
        }
    }
    assert forall|k: u128| #[trigger] fin.contains_key(k) implies key_lo(k) < key_hi(k) by {}
    assert forall|k: u128, i: int| #![trigger fin[k]@[i]] fin.contains_key(k) && 0 <= i < fin[k]@.len() implies {
        &&& (fin[k]@[i] as int) < faces.len()
        &&& has_edge(faces[fin[k]@[i] as int], key_lo(k), key_hi(k))
    } by {
        if k == kan {
            assert(tris.contains(tris[i]));
        } else if k == kbn {
            assert(fin[kbn]@[i] as int == n0 + i);
        } else {
            assert(fin[k] == adj[k]);
        }
    }
    assert forall|g: int, x: int, y: int|
        0 <= g < faces.len() && x < y && #[trigger] has_edge(faces[g], x, y) implies edge_listed(fin, g, x, y) by {
        lemma_key_decode(x, y);
        if among(x, a, b, nv) && among(y, a, b, nv) {
            if x == a && y == nv {
                assert(g < n0);
                assert(fin[kan]@.contains(g as usize));
            } else {
                assert(x == b && y == nv);
                assert(g >= n0);
                assert(fin[kbn]@[g - n0] == g as usize);
            }
        } else {
            assert(edge_listed(adj, g, x, y));
            assert(key_of(x, y) != kan && key_of(x, y) != kbn);
        }
    }
    assert forall|k: u128| #[trigger] fin.contains_key(k) implies fin[k]@.no_duplicates() by {
        if k == kan {
            assert(adj0.contains_key(kab));
        } else if k == kbn {
            assert(fin[kbn]@.no_duplicates());
        } else {
            assert(adj.contains_key(k));
        }
    }
}

/// Each edge after a split is one the split returned, or an edge that some face had before and not
/// the edge that was split.
pub(crate) proof fn lemma_split_cover(
    adj0: Map<u128, Vec<usize>>,
    faces0: Seq<[usize; 3]>,
    a: usize,
    b: usize,
    nv: usize,
    tris: Seq<usize>,
)
    requires
        faces_valid(nv as int, faces0),
        adjacency_complete(adj0, faces0),
        adjacency_sound(adj0, faces0),
        adj0.contains_key(key_of(a as int, b as int)),
        adj0[key_of(a as int, b as int)]@ == tris,
        a < b < nv,
        faces0.len() + tris.len() <= usize::MAX,
    ensures
        forall|g: int, x: int, y: int|
            0 <= g < faces0.len() + tris.len() && x < y && #[trigger] has_edge(
                split_faces(faces0, tris, tris.len() as int, a, b, nv)[g],
                x,
                y,
            ) ==> split_edges(faces0, tris, a, b, nv).contains([x as usize, y as usize]) || (!(x == a && y == b)
                && exists|g0: int| 0 <= g0 < faces0.len() && #[trigger] has_edge(faces0[g0], x, y)),
{
    let n0 = faces0.len();
    let faces = split_faces(faces0, tris, tris.len() as int, a, b, nv);
    let es = split_edges(faces0, tris, a, b, nv);
    let kab = key_of(a as int, b as int);
    lemma_key_decode(a as int, b as int);
    assert(tris.take(tris.len() as int) == tris);
    assert forall|g: int, x: int, y: int|
        0 <= g < n0 + tris.len() && x < y && #[trigger] has_edge(faces[g], x, y) implies es.contains([x as usize, y as usize])
            || (!(x == a && y == b) && exists|g0: int| 0 <= g0 < n0 && #[trigger] has_edge(faces0[g0], x, y)) by {
        if g < n0 {
            let h = faces0[g];
            assert(h[0] < nv && h[1] < nv && h[2] < nv && distinct_corners(h));
            if tris.contains(g as usize) {
                let j = choose|j: int| 0 <= j < tris.len() && tris[j] == g as usize;
                assert(adj0[kab]@[j] == tris[j]);
                assert(has_edge(h, a as int, b as int));
                let c = opposite_spec(h, a, b);
                if x == nv as int || y == nv as int {
                    if x == a as int || y == a as int {
                        assert(es[tris.len() as int + 1] == [x as usize, y as usize]);
                    } else {
                        assert(es[j] == [x as usize, y as usize]);
                    }
                } else {
                    assert(has_edge(faces0[g], x, y));
                }
            } else {
                assert(faces[g] == h);
                if x == a && y == b {
                    assert(edge_listed(adj0, g, a as int, b as int));
                }
                assert(has_edge(faces0[g], x, y));
            }
        } else {
            let j = g - n0;
            let h = faces0[tris[j] as int];
            assert(adj0[kab]@[j] == tris[j]);
            assert(has_edge(h, a as int, b as int));
            assert(h[0] < nv && h[1] < nv && h[2] < nv && distinct_corners(h));
            let c = opposite_spec(h, a, b);
            if x == nv as int || y == nv as int {
                if x == b as int || y == b as int {
                    assert(es[tris.len() as int] == [x as usize, y as usize]);
                } else {
                    assert(es[j] == [x as usize, y as usize]);
                }
            } else {
                assert(has_edge(faces0[tris[j] as int], x, y));
            }
        }
    }
}

} // verus!
