//! Mesh edges and the faces that share them, and the choice of the edges
//! that a comic-style outline draws.
use vstd::prelude::*;
use vstd::std_specs::hash::group_hash_axioms;

use std::collections::HashMap;

use crate::obj::{Face, ints};

verus! {

broadcast use group_hash_axioms;

/// An undirected edge between vertices `a <= b`, with the faces that have
/// it, once for each time a face has it, in face order.
#[derive(Clone, Debug)]
pub struct EdgeFaces {
    pub a: usize,
    pub b: usize,
    pub faces: Vec<usize>,
}

/// The edge between vertices `i` and `j`, smaller index first.
pub open spec fn edge_key(i: usize, j: usize) -> (int, int) {
    if i < j {
        (i as int, j as int)
    } else {
        (j as int, i as int)
    }
}

/// The edges `v0-v1`, `v1-v2` and `v2-v0` of a face.
pub open spec fn face_edges(f: Face) -> Seq<(int, int)> {
    let v = f.vertex_indices;
    seq![edge_key(v[0], v[1]), edge_key(v[1], v[2]), edge_key(v[2], v[0])]
}

/// Each edge of each face, with the index of the face, face by face.
pub open spec fn edge_uses(fs: Seq<Face>) -> Seq<((int, int), int)>
    decreases fs.len(),
{
    if fs.len() == 0 {
        seq![]
    } else {
        let k = fs.len() - 1;
        let e = face_edges(fs.last());
        edge_uses(fs.drop_last()) + seq![(e[0], k), (e[1], k), (e[2], k)]
    }
}

/// The faces that `uses` lists for the edge `e`, in order.
pub open spec fn faces_of_edge(uses: Seq<((int, int), int)>, e: (int, int)) -> Seq<int>
    decreases uses.len(),
{
    if uses.len() == 0 {
        seq![]
    } else {
        let r = faces_of_edge(uses.drop_last(), e);
        if uses.last().0 == e {
            r.push(uses.last().1)
        } else {
            r
        }
    }
}

pub open spec fn edge_of(e: EdgeFaces) -> (int, int) {
    (e.a as int, e.b as int)
}

/// `edges` lists each edge of `uses` once, with its faces.
pub open spec fn lists_edges(edges: Seq<EdgeFaces>, uses: Seq<((int, int), int)>) -> bool {
    &&& forall|i: int, j: int|
        0 <= i < j < edges.len() ==> edge_of(#[trigger] edges[i]) != edge_of(#[trigger] edges[j])
    &&& forall|i: int|
        0 <= i < edges.len() ==> ints((#[trigger] edges[i]).faces@) == faces_of_edge(
            uses,
            edge_of(edges[i]),
        ) && faces_of_edge(uses, edge_of(edges[i])).len() > 0
    &&& forall|u: int| 0 <= u < uses.len() ==> edge_listed(edges, (#[trigger] uses[u]).0)
}

/// Some entry of `edges` is for the edge `e`.
pub open spec fn edge_listed(edges: Seq<EdgeFaces>, e: (int, int)) -> bool {
    exists|i: int| 0 <= i < edges.len() && edge_of(#[trigger] edges[i]) == e
}

spec fn key_of(a: int, b: int) -> int {
    a * 0x1_0000_0000_0000_0000 + b
}

proof fn lemma_key_injective(a: int, b: int, c: int, d: int)
    requires
        0 <= b < 0x1_0000_0000_0000_0000,
        0 <= d < 0x1_0000_0000_0000_0000,
        0 <= a,
        0 <= c,
        key_of(a, b) == key_of(c, d),
    ensures
        a == c && b == d,
{
    if a < c {
        assert(a * 0x1_0000_0000_0000_0000 + b < c * 0x1_0000_0000_0000_0000 + d) by (nonlinear_arith)
            requires
                a < c,
                0 <= b < 0x1_0000_0000_0000_0000,
                0 <= d,
        ;
    } else if a > c {
        assert(a * 0x1_0000_0000_0000_0000 + b > c * 0x1_0000_0000_0000_0000 + d) by (nonlinear_arith)
            requires
                a > c,
                0 <= d < 0x1_0000_0000_0000_0000,
                0 <= b,
        ;
    }
}

proof fn lemma_faces_of_edge_push(uses: Seq<((int, int), int)>, u: ((int, int), int), e: (int, int))
    ensures
        faces_of_edge(uses.push(u), e) == if u.0 == e {
            faces_of_edge(uses, e).push(u.1)
        } else {
            faces_of_edge(uses, e)
        },
{
    assert(uses.push(u).drop_last() =~= uses);
}

/// The edges of `faces`, each once, with the faces that have it.
pub fn edge_faces(faces: &[Face]) -> (edges: Vec<EdgeFaces>)
    ensures
        lists_edges(edges@, edge_uses(faces@)),
{
    assert(vstd::std_specs::hash::obeys_key_model::<u128>());
    let mut edges: Vec<EdgeFaces> = Vec::new();
    let mut slots: HashMap<u128, usize> = HashMap::new();
    let ghost mut uses: Seq<((int, int), int)> = seq![];
    let mut k: usize = 0;
    while k < faces.len()
        invariant
            0 <= k <= faces.len(),
            uses == edge_uses(faces@.take(k as int)),
            lists_edges(edges@, uses),
            forall|i: int|
                0 <= i < edges.len() ==> slots@.contains_key(
                    key_of((#[trigger] edges@[i]).a as int, edges@[i].b as int) as u128,
                ) && slots@[key_of(edges@[i].a as int, edges@[i].b as int) as u128] == i,
            forall|key: u128|
                #[trigger] slots@.contains_key(key) ==> slots@[key] < edges.len() && key
                    == key_of(edges@[slots@[key] as int].a as int, edges@[slots@[key] as int].b as int),
            forall|i: int| 0 <= i < edges.len() ==> (#[trigger] edges@[i]).a <= edges@[i].b,
        decreases faces.len() - k,
    {
        let f = faces[k];
        let ends = [
            (f.vertex_indices[0], f.vertex_indices[1]),
            (f.vertex_indices[1], f.vertex_indices[2]),
            (f.vertex_indices[2], f.vertex_indices[0]),
        ];
        let ghost start_uses = uses;
        let mut j: usize = 0;
        while j < 3
            invariant
                0 <= j <= 3,
                k < faces.len(),
                f == faces@[k as int],
                ends@ == seq![
                    (f.vertex_indices[0], f.vertex_indices[1]),
                    (f.vertex_indices[1], f.vertex_indices[2]),
                    (f.vertex_indices[2], f.vertex_indices[0]),
                ],
                uses == start_uses + Seq::new(j as nat, |t: int| (face_edges(f)[t], k as int)),
                lists_edges(edges@, uses),
                forall|i: int|
                    0 <= i < edges.len() ==> slots@.contains_key(
                        key_of((#[trigger] edges@[i]).a as int, edges@[i].b as int) as u128,
                    ) && slots@[key_of(edges@[i].a as int, edges@[i].b as int) as u128] == i,
                forall|key: u128|
                    #[trigger] slots@.contains_key(key) ==> slots@[key] < edges.len() && key
                        == key_of(
                        edges@[slots@[key] as int].a as int,
                        edges@[slots@[key] as int].b as int,
                    ),
                forall|i: int| 0 <= i < edges.len() ==> (#[trigger] edges@[i]).a <= edges@[i].b,
            decreases 3 - j,
        {
            let (p, q) = ends[j];
            let (a, b) = if p < q {
                (p, q)
            } else {
                (q, p)
            };
            let ghost e = (a as int, b as int);
            assert(e == face_edges(f)[j as int]);
            let key: u128 = (a as u128) * 0x1_0000_0000_0000_0000 + (b as u128);
            assert(key == key_of(a as int, b as int)) by (nonlinear_arith)
                requires
                    key == (a as u128) * 0x1_0000_0000_0000_0000 + (b as u128),
            ;
            let ghost u = (e, k as int);
            let ghost old_edges = edges@;
            let ghost old_uses = uses;
            match slots.get(&key) {
                Some(slot) => {
                    let i = *slot;
                    proof {
                        lemma_key_injective(a as int, b as int, edges@[i as int].a as int, edges@[i as int].b as int);
                    }
                    let mut list = edges[i].faces.clone();
                    proof {
                        assert(list@ == edges@[i as int].faces@);
                    }
                    list.push(k);
                    let entry = EdgeFaces { a: edges[i].a, b: edges[i].b, faces: list };
                    edges.set(i, entry);
                    proof {
                        uses = uses.push(u);
                        assert forall|t: int| 0 <= t < edges.len() implies ints(
                            (#[trigger] edges@[t]).faces@,
                        ) == faces_of_edge(uses, edge_of(edges@[t])) && faces_of_edge(uses, edge_of(edges@[t])).len() > 0 by {
                            lemma_faces_of_edge_push(old_uses, u, edge_of(edges@[t]));
                            if t == i {
                                assert(ints(edges@[t].faces@) =~= ints(old_edges[t].faces@).push(k as int));
                            } else {
                                assert(edges@[t] == old_edges[t]);
                            }
                        }
                        assert forall|v: int| 0 <= v < uses.len() implies edge_listed(edges@, (#[trigger] uses[v]).0) by {
                            if v < old_uses.len() {
                                assert(uses[v] == old_uses[v]);
                                assert(edge_listed(old_edges, old_uses[v].0));
                                let t = choose|t: int| 0 <= t < old_edges.len() && edge_of(#[trigger] old_edges[t]) == old_uses[v].0;
                                assert(edge_of(edges@[t]) == edge_of(old_edges[t]));
                                assert(edge_of(edges@[t]) == uses[v].0);
                            } else {
                                assert(edge_of(edges@[i as int]) == uses[v].0);
                            }
                        }
                        assert forall|s: int, t: int| 0 <= s < t < edges.len() implies edge_of(#[trigger] edges@[s]) != edge_of(#[trigger] edges@[t]) by {
                            assert(edge_of(edges@[s]) == edge_of(old_edges[s]));
                            assert(edge_of(edges@[t]) == edge_of(old_edges[t]));
                        }
                        assert(lists_edges(edges@, uses));
                    }
                },
                None => {
                    let mut list: Vec<usize> = Vec::new();
                    list.push(k);
                    let n = edges.len();
                    edges.push(EdgeFaces { a, b, faces: list });
                    slots.insert(key, n);
                    proof {
                        uses = uses.push(u);
                        assert forall|t: int| 0 <= t < old_edges.len() implies edge_of(old_edges[t]) != e by {
                            if edge_of(old_edges[t]) == e {
                                assert(slots@.contains_key(key));
                            }
                        }
                        assert forall|t: int| 0 <= t < edges.len() implies ints(
                            (#[trigger] edges@[t]).faces@,
                        ) == faces_of_edge(uses, edge_of(edges@[t])) && faces_of_edge(uses, edge_of(edges@[t])).len() > 0 by {
                            lemma_faces_of_edge_push(old_uses, u, edge_of(edges@[t]));
                            if t == n {
                                assert(faces_of_edge(old_uses, e) =~= seq![]) by {
                                    lemma_no_faces_of_unlisted_edge(old_edges, old_uses, e);
                                }
                                assert(ints(edges@[t].faces@) =~= seq![k as int]);
                            } else {
                                assert(edges@[t] == old_edges[t]);
                            }
                        }
                        assert forall|v: int| 0 <= v < uses.len() implies edge_listed(edges@, (#[trigger] uses[v]).0) by {
                            if v < old_uses.len() {
                                assert(uses[v] == old_uses[v]);
                                assert(edge_listed(old_edges, old_uses[v].0));
                                let t = choose|t: int| 0 <= t < old_edges.len() && edge_of(#[trigger] old_edges[t]) == old_uses[v].0;
                                assert(edges@[t] == old_edges[t]);
                            } else {
                                assert(edge_of(edges@[n as int]) == uses[v].0);
                            }
                        }
                        assert forall|s: int, t: int| 0 <= s < t < edges.len() implies edge_of(#[trigger] edges@[s]) != edge_of(#[trigger] edges@[t]) by {
                            if t == n {
                                assert(edges@[s] == old_edges[s]);
                            } else {
                                assert(edges@[s] == old_edges[s]);
                                assert(edges@[t] == old_edges[t]);
                            }
                        }
                        assert(lists_edges(edges@, uses));
                        assert forall|key2: u128| #[trigger] slots@.contains_key(key2) implies slots@[key2] < edges.len() && key2
                            == key_of(edges@[slots@[key2] as int].a as int, edges@[slots@[key2] as int].b as int) by {
                            if key2 != key {
                                assert(edges@[slots@[key2] as int] == old_edges[slots@[key2] as int]);
                            }
                        }
                    }
                },
            }
            proof {
                assert(uses =~= start_uses + Seq::new((j + 1) as nat, |t: int| (face_edges(f)[t], k as int)));
            }
            j += 1;
        }
        proof {
            assert(faces@.take(k + 1).drop_last() =~= faces@.take(k as int));
            assert(faces@.take(k + 1).last() == f);
            assert(uses =~= edge_uses(faces@.take(k + 1)));
        }
        k += 1;
    }
    assert(faces@.take(k as int) =~= faces@);
    edges
}

/// Face `f` is marked as facing the viewer.
pub open spec fn front_at(is_front: Seq<bool>, f: int) -> bool {
    0 <= f < is_front.len() && is_front[f]
}

/// The outline draws an edge of a single face where that face faces the
/// viewer, and an edge of two faces where exactly one of them does.
pub open spec fn draws_edge(faces: Seq<int>, is_front: Seq<bool>) -> bool {
    if faces.len() == 1 {
        front_at(is_front, faces[0])
    } else if faces.len() == 2 {
        front_at(is_front, faces[0]) != front_at(is_front, faces[1])
    } else {
        false
    }
}

/// The edges of `edges` that the outline draws, in order.
pub open spec fn outline(edges: Seq<EdgeFaces>, is_front: Seq<bool>) -> Seq<(usize, usize)>
    decreases edges.len(),
{
    if edges.len() == 0 {
        seq![]
    } else {
        let r = outline(edges.drop_last(), is_front);
        let e = edges.last();
        if draws_edge(ints(e.faces@), is_front) {
            r.push((e.a, e.b))
        } else {
            r
        }
    }
}

fn front(is_front: &[bool], f: usize) -> (r: bool)
    ensures
        r == front_at(is_front@, f as int),
{
    f < is_front.len() && is_front[f]
}

/// The edges that a comic-style outline draws, given which faces face the
/// viewer: the silhouette and the border of the mesh.
pub fn outline_edges(edges: &[EdgeFaces], is_front: &[bool]) -> (r: Vec<(usize, usize)>)
    ensures
        r@ == outline(edges@, is_front@),
{
    let mut r: Vec<(usize, usize)> = Vec::new();
    let mut k: usize = 0;
    while k < edges.len()
        invariant
            0 <= k <= edges.len(),
            r@ == outline(edges@.take(k as int), is_front@),
        decreases edges.len() - k,
    {
        let e = &edges[k];
        let n = e.faces.len();
        let ghost fl = ints(e.faces@);
        assert(fl.len() == n);
        let draw = if n == 1 {
            front(is_front, e.faces[0])
        } else if n == 2 {
            front(is_front, e.faces[0]) != front(is_front, e.faces[1])
        } else {
            false
        };
        assert(draw == draws_edge(fl, is_front@));
        if draw {
            r.push((e.a, e.b));
        }
        proof {
            assert(edges@.take(k + 1).drop_last() =~= edges@.take(k as int));
            assert(edges@.take(k + 1).last() == edges@[k as int]);
        }
        k += 1;
    }
    assert(edges@.take(k as int) =~= edges@);
    r
}

proof fn lemma_no_faces_of_unlisted_edge(
    edges: Seq<EdgeFaces>,
    uses: Seq<((int, int), int)>,
    e: (int, int),
)
    requires
        lists_edges(edges, uses),
        forall|t: int| 0 <= t < edges.len() ==> edge_of(#[trigger] edges[t]) != e,
    ensures
        faces_of_edge(uses, e) == Seq::<int>::empty(),
{
    assert forall|u: int| 0 <= u < uses.len() implies (#[trigger] uses[u]).0 != e by {
        assert(edge_listed(edges, uses[u].0));
    }
    lemma_faces_of_edge_none(uses, e);
}

proof fn lemma_faces_of_edge_none(uses: Seq<((int, int), int)>, e: (int, int))
    requires
        forall|u: int| 0 <= u < uses.len() ==> (#[trigger] uses[u]).0 != e,
    ensures
        faces_of_edge(uses, e) == Seq::<int>::empty(),
    decreases uses.len(),
{
    if uses.len() > 0 {
        let q = uses.drop_last();
        assert forall|u: int| 0 <= u < q.len() implies (#[trigger] q[u]).0 != e by {
            assert(q[u] == uses[u]);
        }
        lemma_faces_of_edge_none(q, e);
        assert(uses.last() == uses[uses.len() - 1]);
    }
}

} // verus!
