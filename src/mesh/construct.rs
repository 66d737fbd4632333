//! Building the edge map face by face, and what each added face keeps true of it.
use crate::mesh::{
    adjacency_complete,
    adjacency_sound,
    adjacency_unique,
    distinct_corners,
    edge_key,
    edge_key_spec,
    edge_listed,
    has_edge,
    key_hi,
    key_lo,
    key_of,
    lemma_key_decode,
    listed,
    shared_before,
};
use std::collections::HashMap;
use vstd::prelude::*;

verus! {

broadcast use vstd::std_specs::hash::group_hash_axioms;

/// Lists the face `t` under the key `k`, unless two faces are listed there already.
fn list_face(adj: &mut HashMap<u128, Vec<usize>>, k: u128, t: usize) -> (ok: bool)
    ensures
        ok == !(old(adj)@.contains_key(k) && old(adj)@[k]@.len() >= 2),
        ok ==> final(adj)@.dom() == old(adj)@.dom().insert(k),
        ok ==> forall|j: u128| j != k && #[trigger] old(adj)@.contains_key(j) ==> final(adj)@[j] == old(adj)@[j],
        ok ==> final(adj)@[k]@ == listed(old(adj)@, k).push(t),
{
    let mut l = match adj.remove(&k) {
        Some(l) => l,
        None => Vec::new(),
    };
    if l.len() >= 2 {
        return false;
    }
    l.push(t);
    adj.insert(k, l);
    true
}





/// A list without repeats that holds two values holds at least two items, unless they are equal.
proof fn lemma_two_members(l: Seq<usize>, a: usize, b: usize)
    requires
        l.contains(a),
        l.contains(b),
        l.len() <= 1,
    ensures
        a == b,
{
}

/// `adj1` is `adj0` with `t` appended under each of the three keys, and nothing else changed.
pub open spec fn grown_by(adj0: Map<u128, Vec<usize>>, adj1: Map<u128, Vec<usize>>, ks: Seq<u128>, t: usize) -> bool {
    &&& adj1.dom() == adj0.dom().union(ks.to_set())
    &&& forall|k: u128| !ks.contains(k) && #[trigger] adj0.contains_key(k) ==> adj1[k] == adj0[k]
    &&& forall|j: int| 0 <= j < ks.len() ==> adj1[#[trigger] ks[j]]@ == listed(adj0, ks[j]).push(t)
}

/// The keys of the three sides of `f`.
pub open spec fn side_keys(f: [usize; 3]) -> Seq<u128> {
    seq![edge_key_spec(f[0], f[1]), edge_key_spec(f[1], f[2]), edge_key_spec(f[2], f[0])]
}

pub(crate) proof fn lemma_side_keys(f: [usize; 3])
    requires
        distinct_corners(f),
    ensures
        forall|j: int| 0 <= j < 3 ==> key_lo(#[trigger] side_keys(f)[j]) < key_hi(side_keys(f)[j])
            && has_edge(f, key_lo(side_keys(f)[j]), key_hi(side_keys(f)[j])),
        side_keys(f)[0] != side_keys(f)[1] && side_keys(f)[1] != side_keys(f)[2] && side_keys(f)[0] != side_keys(f)[2],
        forall|x: int, y: int| x < y && #[trigger] has_edge(f, x, y) ==> side_keys(f).contains(key_of(x, y)),
{
    let a = f[0] as int;
    let b = f[1] as int;
    let c = f[2] as int;
    if a < b { lemma_key_decode(a, b); } else { lemma_key_decode(b, a); }
    if b < c { lemma_key_decode(b, c); } else { lemma_key_decode(c, b); }
    if c < a { lemma_key_decode(c, a); } else { lemma_key_decode(a, c); }
    assert forall|x: int, y: int| x < y && #[trigger] has_edge(f, x, y) implies side_keys(f).contains(key_of(x, y)) by {
        if (x == a && y == b) || (x == b && y == a) {
            assert(side_keys(f)[0] == key_of(x, y));
        } else if (x == b && y == c) || (x == c && y == b) {
            assert(side_keys(f)[1] == key_of(x, y));
        } else {
            assert(side_keys(f)[2] == key_of(x, y));
        }
    }
}

proof fn lemma_grown_sound(adj0: Map<u128, Vec<usize>>, adj1: Map<u128, Vec<usize>>, prev: Seq<[usize; 3]>, f: [usize; 3], t: usize)
    requires
        prev.len() == t,
        distinct_corners(f),
        adjacency_sound(adj0, prev),
        grown_by(adj0, adj1, side_keys(f), t),
    ensures
        adjacency_sound(adj1, prev.push(f)),
{
    lemma_side_keys(f);
    let ks = side_keys(f);
    let next = prev.push(f);
    assert forall|k: u128| #[trigger] adj1.contains_key(k) implies key_lo(k) < key_hi(k) by {
        if !ks.contains(k) {
            assert(adj0.contains_key(k));
        }
    }
    assert forall|k: u128, i: int| #![trigger adj1[k]@[i]] adj1.contains_key(k) && 0 <= i < adj1[k]@.len() implies {
        &&& (adj1[k]@[i] as int) < next.len()
        &&& has_edge(next[adj1[k]@[i] as int], key_lo(k), key_hi(k))
    } by {
        if ks.contains(k) {
            let j = choose|j: int| 0 <= j < 3 && ks[j] == k;
            assert(adj1[ks[j]]@ == listed(adj0, ks[j]).push(t));
            assert(key_lo(ks[j]) < key_hi(ks[j]));
            if i < adj1[k]@.len() - 1 {
                assert(adj1[k]@[i] == adj0[k]@[i]);
                assert(next[adj0[k]@[i] as int] == prev[adj0[k]@[i] as int]);
            } else {
                assert(adj1[k]@[i] == t);
            }
        } else {
            assert(adj0.contains_key(k));
            assert(adj1[k] == adj0[k]);
            assert(next[adj0[k]@[i] as int] == prev[adj0[k]@[i] as int]);
            assert(key_lo(k) < key_hi(k));
        }
    }
}

proof fn lemma_grown_unique(adj0: Map<u128, Vec<usize>>, adj1: Map<u128, Vec<usize>>, prev: Seq<[usize; 3]>, f: [usize; 3], t: usize)
    requires
        prev.len() == t,
        distinct_corners(f),
        adjacency_sound(adj0, prev),
        adjacency_unique(adj0),
        grown_by(adj0, adj1, side_keys(f), t),
    ensures
        adjacency_unique(adj1),
{
    let ks = side_keys(f);
    assert forall|k: u128| #[trigger] adj1.contains_key(k) implies adj1[k]@.no_duplicates() by {
        if ks.contains(k) {
            let j = choose|j: int| 0 <= j < 3 && ks[j] == k;
            assert(adj1[ks[j]]@ == listed(adj0, ks[j]).push(t));
            if adj0.contains_key(k) {
                assert(forall|i: int| 0 <= i < adj0[k]@.len() ==> (#[trigger] adj0[k]@[i] as int) < t);
                assert(!adj0[k]@.contains(t));
            }
        } else {
            assert(adj0.contains_key(k));
        }
    }
}

proof fn lemma_grown_complete(adj0: Map<u128, Vec<usize>>, adj1: Map<u128, Vec<usize>>, prev: Seq<[usize; 3]>, f: [usize; 3], t: usize)
    requires
        prev.len() == t,
        distinct_corners(f),
        adjacency_complete(adj0, prev),
        grown_by(adj0, adj1, side_keys(f), t),
    ensures
        adjacency_complete(adj1, prev.push(f)),
{
    lemma_side_keys(f);
    let ks = side_keys(f);
    let next = prev.push(f);
    assert forall|g: int, x: int, y: int|
        0 <= g < next.len() && x < y && #[trigger] has_edge(next[g], x, y) implies edge_listed(adj1, g, x, y) by {
        let k = key_of(x, y);
        if g < t {
            assert(next[g] == prev[g]);
            assert(edge_listed(adj0, g, x, y));
            if ks.contains(k) {
                let j = choose|j: int| 0 <= j < 3 && ks[j] == k;
                assert(adj1[ks[j]]@ == listed(adj0, ks[j]).push(t));
                let i = choose|i: int| 0 <= i < adj0[k]@.len() && adj0[k]@[i] == g as usize;
                assert(adj1[k]@[i] == g as usize);
            }
        } else {
            assert(next[g] == f);
            let j = choose|j: int| 0 <= j < 3 && ks[j] == k;
            assert(adj1[ks[j]]@ == listed(adj0, ks[j]).push(t));
            assert(adj1[k]@.last() == t);
        }
    }
}

/// Lists the face `f`, number `prev.len()`, under its three edges.
#[verifier::rlimit(60)]
pub(crate) fn add_face(adj: &mut HashMap<u128, Vec<usize>>, f: [usize; 3], t: usize, Ghost(prev): Ghost<Seq<[usize; 3]>>) -> (ok: bool)
    requires
        prev.len() == t,
        distinct_corners(f),
        adjacency_sound(old(adj)@, prev),
        adjacency_complete(old(adj)@, prev),
        adjacency_unique(old(adj)@),
    ensures
        ok == !shared_before(prev, f),
        ok ==> adjacency_sound(final(adj)@, prev.push(f)),
        ok ==> adjacency_complete(final(adj)@, prev.push(f)),
        ok ==> adjacency_unique(final(adj)@),
{
    let ghost adj0 = adj@;
    let k0 = edge_key(f[0], f[1]);
    let k1 = edge_key(f[1], f[2]);
    let k2 = edge_key(f[2], f[0]);
    proof {
        lemma_side_keys(f);
        if side_full(adj0, f) {
            lemma_full_side_shared(adj0, prev, f);
        }
        if shared_before(prev, f) {
            lemma_shared_full_side(adj0, prev, f);
        }
    }
    if !list_face(adj, k0, t) {
        return false;
    }
    let ghost adj1 = adj@;
    if !list_face(adj, k1, t) {
        return false;
    }
    let ghost adj2 = adj@;
    if !list_face(adj, k2, t) {
        return false;
    }
    proof {
        let adj3 = adj@;
        let ks = side_keys(f);
        assert forall|k: u128| !ks.contains(k) && #[trigger] adj0.contains_key(k) implies adj3[k] == adj0[k] by {
            assert(k != ks[0] && k != ks[1] && k != ks[2]);
            assert(adj1.contains_key(k));
            assert(adj2.contains_key(k));
        }
        assert(adj1.contains_key(k0) && adj2.contains_key(k0) && adj2.contains_key(k1));
        assert(adj3[k0] == adj1[k0]);
        assert(adj3[k1] == adj2[k1]);
        assert(adj3.dom() =~= adj0.dom().union(ks.to_set())) by {
            assert(ks.to_set() =~= set![k0, k1, k2]) by {
                assert(ks.contains(k0) && ks.contains(k1) && ks.contains(k2));
            }
        }
        assert(grown_by(adj0, adj3, ks, t));
        lemma_grown_sound(adj0, adj3, prev, f, t);
        lemma_grown_unique(adj0, adj3, prev, f, t);
        lemma_grown_complete(adj0, adj3, prev, f, t);
    }
    true
}

/// Some side of `f` has two faces listed before `f` is added.
pub open spec fn side_full(adj0: Map<u128, Vec<usize>>, f: [usize; 3]) -> bool {
    exists|j: int| 0 <= j < 3 && adj0.contains_key(#[trigger] side_keys(f)[j]) && adj0[side_keys(f)[j]]@.len() >= 2
}

proof fn lemma_full_side_shared(adj0: Map<u128, Vec<usize>>, prev: Seq<[usize; 3]>, f: [usize; 3])
    requires
        distinct_corners(f),
        adjacency_sound(adj0, prev),
        adjacency_unique(adj0),
        side_full(adj0, f),
    ensures
        shared_before(prev, f),
{
    lemma_side_keys(f);
    let ks = side_keys(f);
    let j = choose|j: int| 0 <= j < 3 && adj0.contains_key(#[trigger] side_keys(f)[j]) && adj0[side_keys(f)[j]]@.len() >= 2;
    let k = ks[j];
    let a = adj0[k]@[0];
    let b = adj0[k]@[1];
    let x = key_lo(k);
    let y = key_hi(k);
    assert(has_edge(prev[a as int], x, y));
    assert(has_edge(prev[b as int], x, y));
    assert(has_edge(f, x, y));
    assert(a != b);
    if a < b {
        assert(has_edge(prev[a as int], x, y) && has_edge(prev[b as int], x, y));
    } else {
        assert(has_edge(prev[b as int], x, y) && has_edge(prev[a as int], x, y));
    }
}

#[verifier::rlimit(60)]
proof fn lemma_shared_full_side(adj0: Map<u128, Vec<usize>>, prev: Seq<[usize; 3]>, f: [usize; 3])
    requires
        distinct_corners(f),
        prev.len() <= usize::MAX,
        adjacency_complete(adj0, prev),
        shared_before(prev, f),
    ensures
        side_full(adj0, f),
{
    lemma_side_keys(f);
    let ks = side_keys(f);
    let (f1, f2, x, y) = choose|f1: int, f2: int, x: int, y: int|
        0 <= f1 < f2 < prev.len() && x < y && #[trigger] has_edge(prev[f1], x, y) && #[trigger] has_edge(
            prev[f2],
            x,
            y,
        ) && has_edge(f, x, y);
    assert(edge_listed(adj0, f1, x, y));
    assert(edge_listed(adj0, f2, x, y));
    let k = key_of(x, y);
    assert(ks.contains(k));
    let j = choose|j: int| 0 <= j < 3 && ks[j] == k;
    if adj0[k]@.len() <= 1 {
        lemma_two_members(adj0[k]@, f1 as usize, f2 as usize);
    }
    assert(adj0.contains_key(side_keys(f)[j]) && adj0[side_keys(f)[j]]@.len() >= 2);
}

} // verus!
