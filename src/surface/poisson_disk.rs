use crate::mesh::{is_neighbor, lemma_distinct_below, pair_test, SpaceQueryMesh};
use vstd::prelude::*;

verus! {

/// `p` is a walk from `s` whose every step goes from a face that passes `pass` to one of its
/// neighbors.
pub open spec fn is_walk(faces: Seq<[usize; 3]>, pass: spec_fn(usize) -> bool, s: usize, p: Seq<usize>) -> bool {
    &&& p.len() > 0
    &&& p[0] == s
    &&& forall|i: int| 0 <= i < p.len() - 1 ==> pass(#[trigger] p[i]) && is_neighbor(faces, p[i] as int, p[i + 1] as int)
}

/// `t` is reached from `s` through faces that pass `pass`.
pub open spec fn reached(faces: Seq<[usize; 3]>, pass: spec_fn(usize) -> bool, s: usize, t: usize) -> bool {
    exists|p: Seq<usize>| #[trigger] is_walk(faces, pass, s, p) && p.last() == t
}

/// The faces for which the test `f` answers yes.
pub open spec fn passes<F: Fn(usize) -> bool>(f: F) -> spec_fn(usize) -> bool {
    |t: usize| f.ensures((t,), true)
}

/// The test `f` answers every face of the mesh, and always the same way.
pub open spec fn face_test<F: Fn(usize) -> bool>(f: F, n: int) -> bool {
    &&& forall|t: usize| (t as int) < n ==> #[trigger] f.requires((t,))
    &&& forall|t: usize, x: bool, y: bool| #[trigger] f.ensures((t,), x) && #[trigger] f.ensures((t,), y) ==> x == y
}

/// Every face of a walk from `s` lies in a set that holds `s` and the neighbors of each of its faces
/// that pass.
proof fn lemma_walk_closed(faces: Seq<[usize; 3]>, pass: spec_fn(usize) -> bool, s: usize, vis: Seq<usize>, p: Seq<usize>, i: int)
    requires
        vis.contains(s),
        forall|v: usize, g: usize| vis.contains(v) && pass(v) && #[trigger] is_neighbor(faces, v as int, g as int) ==> vis.contains(g),
        is_walk(faces, pass, s, p),
        0 <= i < p.len(),
    ensures
        vis.contains(p[i]),
    decreases i,
{
    if i > 0 {
        lemma_walk_closed(faces, pass, s, vis, p, i - 1);
        assert(pass(p[i - 1]) && is_neighbor(faces, p[i - 1] as int, p[(i - 1) + 1] as int));
    }
}

/// A neighbor of a reached face that passes is reached.
proof fn lemma_reach_step(faces: Seq<[usize; 3]>, pass: spec_fn(usize) -> bool, s: usize, f: usize, g: usize)
    requires
        reached(faces, pass, s, f),
        pass(f),
        is_neighbor(faces, f as int, g as int),
    ensures
        reached(faces, pass, s, g),
{
    let p = choose|p: Seq<usize>| #[trigger] is_walk(faces, pass, s, p) && p.last() == f;
    let q = p.push(g);
    assert forall|i: int| 0 <= i < q.len() - 1 implies pass(#[trigger] q[i]) && is_neighbor(faces, q[i] as int, q[i + 1] as int) by {
        if i < p.len() - 1 {
            assert(q[i] == p[i] && q[i + 1] == p[i + 1]);
        } else {
            assert(q[i] == f && q[i + 1] == g);
        }
    }
    assert(is_walk(faces, pass, s, q));
}

fn vec_contains(v: &Vec<usize>, x: usize) -> (r: bool)
    ensures
        r == v@.contains(x),
{
    let mut i: usize = 0;
    while i < v.len()
        invariant
            i <= v@.len(),
            forall|j: int| 0 <= j < i ==> v@[j] != x,
        decreases v@.len() - i,
    {
        if v[i] == x {
            return true;
        }
        i += 1;
    }
    false
}

/// Looks for an accepted sample close to a candidate that fell on face `t_index`. Starting from that
/// face, it walks to the neighbors of each face that `intersects` (the candidate's sphere reaches it),
/// and answers whether some such face has a sample that `has_close` finds too close. Faces the sphere
/// does not reach are not expanded: where every edge is no longer than the radius, no sample beyond
/// them can be in conflict.
pub fn exists_point_within_sphere<V, I: Fn(usize) -> bool, C: Fn(usize) -> bool>(
    mesh: &SpaceQueryMesh<V>,
    t_index: usize,
    intersects: &I,
    has_close: &C,
) -> (r: bool)
    requires
        mesh.wf(),
        t_index < mesh.faces@.len(),
        face_test(*intersects, mesh.faces@.len() as int),
        face_test(*has_close, mesh.faces@.len() as int),
    ensures
        r == exists|t: usize|
            reached(mesh.faces@, passes(*intersects), t_index, t) && #[trigger] intersects.ensures((t,), true)
                && has_close.ensures((t,), true),
        !r ==> forall|t: usize|
            reached(mesh.faces@, passes(*intersects), t_index, t) && #[trigger] intersects.ensures((t,), true)
                ==> has_close.ensures((t,), false),
{
    let ghost faces = mesh.faces@;
    let ghost pass = passes(*intersects);
    let n = mesh.faces.len();
    let mut searching: Vec<usize> = Vec::new();
    searching.push(t_index);
    let mut visited: Vec<usize> = Vec::new();
    visited.push(t_index);
    proof {
        assert(is_walk(faces, pass, t_index, seq![t_index]));
        assert(visited@[0] == t_index);
        assert(searching@[0] == t_index);
        assert(visited@.contains(t_index));
    }
    while searching.len() > 0
        invariant
            faces == mesh.faces@,
            pass == passes(*intersects),
            n == faces.len(),
            mesh.wf(),
            t_index < n,
            face_test(*intersects, n as int),
            face_test(*has_close, n as int),
            visited@.no_duplicates(),
            searching@.no_duplicates(),
            visited@.contains(t_index),
            forall|i: int| 0 <= i < visited@.len() ==> (#[trigger] visited@[i] as int) < n,
            forall|v: usize| #[trigger] searching@.contains(v) ==> visited@.contains(v),
            forall|v: usize| #[trigger] visited@.contains(v) ==> reached(faces, pass, t_index, v),
            forall|v: usize| #[trigger] visited@.contains(v) && !searching@.contains(v) && pass(v) ==> has_close.ensures((v,), false)
                && forall|g: usize| #[trigger] is_neighbor(faces, v as int, g as int) ==> visited@.contains(g),
        decreases 2 * (n - visited@.len()) + searching@.len(),
    {
        proof {
            lemma_distinct_below(visited@, n as nat);
        }
        let ghost s0 = searching@;
        let tri = searching.pop().unwrap();
        proof {
            assert(s0 == searching@.push(tri));
            assert(s0[s0.len() - 1] == tri);
            assert(s0.contains(tri));
            assert forall|v: usize| #[trigger] s0.contains(v) <==> (searching@.contains(v) || v == tri) by {
                crate::mesh::lemma_push_contains(searching@, tri, v);
            }
            assert(searching@.no_duplicates() && !searching@.contains(tri)) by {
                assert forall|i: int| 0 <= i < searching@.len() implies searching@[i] != tri by {
                    assert(s0[i] == searching@[i]);
                    assert(s0[s0.len() - 1] == tri);
                }
                assert forall|i: int, j: int| 0 <= i < searching@.len() && 0 <= j < searching@.len() && i != j implies searching@[i] != searching@[j] by {
                    assert(s0[i] == searching@[i] && s0[j] == searching@[j]);
                }
            }
            assert(visited@.contains(tri));
            assert forall|v: usize| #[trigger] searching@.contains(v) implies visited@.contains(v) by {
                crate::mesh::lemma_push_contains(searching@, tri, v);
                assert(s0.contains(v));
            }
        }
        if intersects(tri) {
            let nb = mesh.neighbors(tri);
            let ghost v0 = visited@;
            let ghost sr0 = searching@;
            let mut j: usize = 0;
            while j < nb.len()
                invariant
                    faces == mesh.faces@,
                    pass == passes(*intersects),
                    n == faces.len(),
                    mesh.wf(),
                    (tri as int) < n,
                    pass(tri),
                    forall|g: usize| #[trigger] nb@.contains(g) <==> is_neighbor(faces, tri as int, g as int),
                    reached(faces, pass, t_index, tri),
                    j <= nb@.len(),
                    forall|k: int| 0 <= k < j ==> visited@.contains(#[trigger] nb@[k]),
                    visited@.no_duplicates(),
                    searching@.no_duplicates(),
                    !searching@.contains(tri),
                    forall|v: usize| #[trigger] v0.contains(v) ==> visited@.contains(v),
                    forall|v: usize| #[trigger] visited@.contains(v) ==> v0.contains(v) || searching@.contains(v),
                    forall|v: usize| #[trigger] sr0.contains(v) ==> searching@.contains(v),
                    visited@.len() - v0.len() == searching@.len() - sr0.len(),
                    visited@.len() >= v0.len(),
                    forall|i: int| 0 <= i < visited@.len() ==> (#[trigger] visited@[i] as int) < n,
                    forall|v: usize| #[trigger] searching@.contains(v) ==> visited@.contains(v),
                    forall|v: usize| #[trigger] visited@.contains(v) ==> reached(faces, pass, t_index, v),
                decreases nb@.len() - j,
            {
                let g = nb[j];
                proof {
                    assert(nb@.contains(g));
                }
                if !vec_contains(&visited, g) {
                    let ghost va = visited@;
                    let ghost sa = searching@;
                    visited.push(g);
                    searching.push(g);
                    proof {
                        assert forall|v: usize| #[trigger] visited@.contains(v) <==> (va.contains(v) || v == g) by {
                            crate::mesh::lemma_push_contains(va, g, v);
                        }
                        assert forall|v: usize| #[trigger] searching@.contains(v) <==> (sa.contains(v) || v == g) by {
                            crate::mesh::lemma_push_contains(sa, g, v);
                        }
                        assert(!sa.contains(g));
                        assert(visited@.no_duplicates()) by {
                            assert forall|i: int| 0 <= i < va.len() implies va[i] != g by {
                                assert(va.contains(va[i]));
                            }
                        }
                        assert(searching@.no_duplicates()) by {
                            assert forall|i: int| 0 <= i < sa.len() implies sa[i] != g by {
                                assert(sa.contains(sa[i]));
                            }
                        }
                        lemma_reach_step(faces, pass, t_index, tri, g);
                        assert(visited@[va.len() as int] == g);
                    }
                }
                j += 1;
            }
            if has_close(tri) {
                return true;
            }
            proof {
                assert forall|g: usize| #[trigger] is_neighbor(faces, tri as int, g as int) implies visited@.contains(g) by {
                    assert(nb@.contains(g));
                    let k = choose|k: int| 0 <= k < nb@.len() && nb@[k] == g;
                }
            }
        }
        proof {
            lemma_distinct_below(visited@, n as nat);
        }
    }
    proof {
        assert forall|t: usize| reached(faces, pass, t_index, t) && #[trigger] intersects.ensures((t,), true) implies has_close.ensures((t,), false) by {
            let p = choose|p: Seq<usize>| #[trigger] is_walk(faces, pass, t_index, p) && p.last() == t;
            assert forall|v: usize, g: usize| visited@.contains(v) && pass(v) && #[trigger] is_neighbor(faces, v as int, g as int) implies visited@.contains(g) by {
                assert(!searching@.contains(v));
            }
            lemma_walk_closed(faces, pass, t_index, visited@, p, p.len() - 1);
            assert(!searching@.contains(t));
        }
    }
    false
}

/// Some sample of `bucket` is too close to `p` by the test `close`.
pub open spec fn any_close<P, C: Fn(P, P) -> bool>(close: C, bucket: Seq<P>, p: P) -> bool {
    exists|i: int| 0 <= i < bucket.len() && #[trigger] close.ensures((bucket[i], p), true)
}

/// Whether some sample of `bucket` is too close to `p`.
fn bucket_has_close<P: Copy, C: Fn(P, P) -> bool>(bucket: &Vec<P>, p: P, close: &C) -> (r: bool)
    requires
        pair_test(*close),
    ensures
        r == any_close(*close, bucket@, p),
{
    let mut i: usize = 0;
    while i < bucket.len()
        invariant
            pair_test(*close),
            i <= bucket@.len(),
            forall|j: int| 0 <= j < i ==> !close.ensures((#[trigger] bucket@[j], p), true),
        decreases bucket@.len() - i,
    {
        if close(bucket[i], p) {
            return true;
        }
        i += 1;
    }
    false
}

/// A face reached from a face of the mesh is a face of the mesh.
proof fn lemma_reached_in_mesh(faces: Seq<[usize; 3]>, pass: spec_fn(usize) -> bool, s: usize, g: usize)
    requires
        (s as int) < faces.len(),
        reached(faces, pass, s, g),
    ensures
        (g as int) < faces.len(),
{
    let p = choose|p: Seq<usize>| #[trigger] is_walk(faces, pass, s, p) && p.last() == g;
    if p.len() > 1 {
        let i = p.len() - 2;
        assert(pass(p[i]) && is_neighbor(faces, p[i] as int, p[i + 1] as int));
    }
}

/// The state of one Poisson-disk run: per face, the samples accepted on it in the order they were
/// accepted; the number of rejections since the last acceptance; the number of acceptances; and the
/// two bounds that end the run.
pub struct PoissonRun<P> {
    pub buckets: Vec<Vec<P>>,
    pub failures: u32,
    pub count: u32,
    pub retries: u32,
    pub max: u32,
}

/// The contents of the buckets.
pub open spec fn bucket_seqs<P>(buckets: Seq<Vec<P>>) -> Seq<Seq<P>> {
    buckets.map_values(|b: Vec<P>| b@)
}

/// Putting one more item into one bucket adds one item to the buckets put together.
proof fn lemma_flatten_update_push<P>(s: Seq<Seq<P>>, t: int, x: P)
    requires
        0 <= t < s.len(),
    ensures
        s.update(t, s[t].push(x)).flatten().len() == s.flatten().len() + 1,
{
    let pre = s.take(t);
    let post = s.skip(t + 1);
    let u = s.update(t, s[t].push(x));
    assert(s =~= pre + seq![s[t]] + post);
    assert(u =~= pre + seq![s[t].push(x)] + post);
    vstd::seq_lib::lemma_flatten_concat(pre + seq![s[t]], post);
    vstd::seq_lib::lemma_flatten_concat(pre, seq![s[t]]);
    vstd::seq_lib::lemma_flatten_concat(pre + seq![s[t].push(x)], post);
    vstd::seq_lib::lemma_flatten_concat(pre, seq![s[t].push(x)]);
    seq![s[t]].lemma_flatten_singleton();
    seq![s[t].push(x)].lemma_flatten_singleton();
}

impl<P> PoissonRun<P> {
    /// The buckets hold `count` samples together, and no more than `max`.
    pub open spec fn wf(&self) -> bool {
        &&& bucket_seqs(self.buckets@).flatten().len() == self.count
        &&& self.count <= self.max
    }
}

impl<P: Copy> PoissonRun<P> {
    /// A run over `tri_count` faces that stops after `retries` rejections in a row or `max`
    /// acceptances.
    pub fn new(tri_count: usize, retries: u32, max: u32) -> (r: Self)
        ensures
            r.buckets@.len() == tri_count,
            forall|t: int| 0 <= t < tri_count ==> (#[trigger] r.buckets@[t])@.len() == 0,
            r.failures == 0,
            r.count == 0,
            r.retries == retries,
            r.max == max,
            r.wf(),
    {
        let mut buckets: Vec<Vec<P>> = Vec::new();
        let mut i: usize = 0;
        while i < tri_count
            invariant
                i <= tri_count,
                buckets@.len() == i,
                forall|t: int| 0 <= t < i ==> (#[trigger] buckets@[t])@.len() == 0,
                bucket_seqs(buckets@).flatten().len() == 0,
            decreases tri_count - i,
        {
            let ghost before = bucket_seqs(buckets@);
            buckets.push(Vec::new());
            proof {
                assert(bucket_seqs(buckets@) =~= before.push(Seq::<P>::empty()));
                before.lemma_flatten_push(Seq::<P>::empty());
            }
            i += 1;
        }
        PoissonRun { buckets, failures: 0, count: 0, retries, max }
    }

    /// The run is over: too many rejections in a row, or enough acceptances.
    pub fn is_done(&self) -> (r: bool)
        ensures
            r == (self.failures >= self.retries || self.count >= self.max),
    {
        self.failures >= self.retries || self.count >= self.max
    }

    /// Records the outcome for a candidate at `position` on face `t`: with a conflict it is rejected
    /// and counts as a failure; otherwise it joins the bucket of `t`, and the failures start over.
    pub fn record(&mut self, t: usize, position: P, conflict: bool)
        requires
            (t as int) < old(self).buckets@.len(),
            !(old(self).failures >= old(self).retries || old(self).count >= old(self).max),
        ensures
            old(self).wf() ==> final(self).wf(),
            final(self).retries == old(self).retries,
            final(self).max == old(self).max,
            conflict ==> final(self).failures == old(self).failures + 1 && final(self).count == old(self).count
                && bucket_seqs(final(self).buckets@) == bucket_seqs(old(self).buckets@),
            !conflict ==> final(self).failures == 0 && final(self).count == old(self).count + 1
                && bucket_seqs(final(self).buckets@) == bucket_seqs(old(self).buckets@).update(
                t as int,
                old(self).buckets@[t as int]@.push(position),
            ),
    {
        if conflict {
            self.failures = self.failures + 1;
            proof {
                assert(bucket_seqs(self.buckets@) =~= bucket_seqs(old(self).buckets@));
            }
        } else {
            let mut b = self.buckets.remove(t);
            b.push(position);
            self.buckets.insert(t, b);
            self.failures = 0;
            self.count = self.count + 1;
            proof {
                assert(bucket_seqs(self.buckets@) =~= bucket_seqs(old(self).buckets@).update(
                    t as int,
                    old(self).buckets@[t as int]@.push(position),
                ));
                lemma_flatten_update_push(bucket_seqs(old(self).buckets@), t as int, position);
            }
        }
    }

    /// Offers a candidate at `position` on face `t`: searches the faces reached from `t` through
    /// faces that `intersects` for a sample that `close` finds too close to it, and records the
    /// outcome. The candidate is accepted exactly when no such sample exists.
    #[verifier::rlimit(60)]
    pub fn try_accept<V, I: Fn(usize) -> bool, C: Fn(P, P) -> bool>(
        &mut self,
        mesh: &SpaceQueryMesh<V>,
        t: usize,
        position: P,
        intersects: &I,
        close: &C,
    ) -> (accepted: bool)
        requires
            mesh.wf(),
            (t as int) < mesh.faces@.len(),
            old(self).buckets@.len() == mesh.faces@.len(),
            face_test(*intersects, mesh.faces@.len() as int),
            pair_test(*close),
            !(old(self).failures >= old(self).retries || old(self).count >= old(self).max),
        ensures
            accepted == !exists|g: usize|
                reached(mesh.faces@, passes(*intersects), t, g) && #[trigger] intersects.ensures((g,), true) && any_close(
                    *close,
                    old(self).buckets@[g as int]@,
                    position,
                ),
            old(self).wf() ==> final(self).wf(),
            final(self).retries == old(self).retries,
            final(self).max == old(self).max,
            !accepted ==> final(self).failures == old(self).failures + 1 && final(self).count == old(self).count
                && bucket_seqs(final(self).buckets@) == bucket_seqs(old(self).buckets@),
            accepted ==> final(self).failures == 0 && final(self).count == old(self).count + 1
                && bucket_seqs(final(self).buckets@) == bucket_seqs(old(self).buckets@).update(
                t as int,
                old(self).buckets@[t as int]@.push(position),
            ),
    {
        let buckets = &self.buckets;
        let has_close = |g: usize| -> (r: bool)
            requires
                (g as int) < buckets@.len(),
            ensures
                r == any_close(*close, buckets@[g as int]@, position),
            { bucket_has_close(&buckets[g], position, close) };
        proof {
            assert forall|g: usize, x: bool, y: bool| #[trigger] has_close.ensures((g,), x) && #[trigger] has_close.ensures((g,), y)
                implies x == y by {}
        }
        let conflict = exists_point_within_sphere(mesh, t, intersects, &has_close);
        proof {
            let n = mesh.faces@.len();
            if conflict {
                let g = choose|g: usize|
                    reached(mesh.faces@, passes(*intersects), t, g) && #[trigger] intersects.ensures((g,), true)
                        && has_close.ensures((g,), true);
                lemma_reached_in_mesh(mesh.faces@, passes(*intersects), t, g);
            } else {
                assert forall|g: usize|
                    reached(mesh.faces@, passes(*intersects), t, g) && #[trigger] intersects.ensures((g,), true) implies !any_close(
                        *close,
                        old(self).buckets@[g as int]@,
                        position,
                    ) by {
                    lemma_reached_in_mesh(mesh.faces@, passes(*intersects), t, g);
                    assert(has_close.ensures((g,), false));
                }
            }
        }
        self.record(t, position, conflict);
        !conflict
    }

    /// The accepted samples: the buckets one after another in face order, each in the order its
    /// samples were accepted.
    pub fn into_points(&self) -> (r: Vec<P>)
        ensures
            r@ == bucket_seqs(self.buckets@).flatten(),
            self.wf() ==> r@.len() == self.count <= self.max,
    {
        let mut r: Vec<P> = Vec::new();
        let mut i: usize = 0;
        while i < self.buckets.len()
            invariant
                i <= self.buckets@.len(),
                r@ == bucket_seqs(self.buckets@).take(i as int).flatten(),
            decreases self.buckets@.len() - i,
        {
            let b = &self.buckets[i];
            let ghost r0 = r@;
            let mut j: usize = 0;
            while j < b.len()
                invariant
                    j <= b@.len(),
                    r@ == r0 + b@.take(j as int),
                decreases b@.len() - j,
            {
                r.push(b[j]);
                proof {
                    assert(b@.take(j + 1) =~= b@.take(j as int).push(b@[j as int]));
                    assert(r@ =~= r0 + b@.take(j + 1));
                }
                j += 1;
            }
            proof {
                let bs = bucket_seqs(self.buckets@);
                assert(b@.take(j as int) =~= b@);
                assert(bs.take(i + 1) =~= bs.take(i as int).push(bs[i as int]));
                bs.take(i as int).lemma_flatten_push(bs[i as int]);
            }
            i += 1;
        }
        proof {
            assert(bucket_seqs(self.buckets@).take(i as int) =~= bucket_seqs(self.buckets@));
        }
        r
    }
}

} // verus!
