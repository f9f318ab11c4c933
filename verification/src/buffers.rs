//! From a mesh to an indexed vertex buffer: each vertex once, and each
//! triangle as three places in the list of vertices.

use std::collections::BTreeMap;
use vstd::prelude::*;
use crate::canonical::{canonical, loaded_vertex};
use crate::falkvbo::{position_file, write_falkvbo};
use crate::mesh::ObjFile;
use crate::scalar::lane;
use crate::vertex::{Triangle, Vertex};

verus! {

broadcast use {vstd::std_specs::btree::group_btree_axioms, vstd::laws_cmp::group_laws_cmp};

/// Why a mesh could not be turned into buffers.
#[derive(Clone, Copy, Debug, PartialEq, Eq, Structural)]
pub enum BufferError {
    /// The mesh has more than `u32::MAX` vertices, so that an index triple
    /// cannot name each of them.
    IndexOverflow,
    /// There is not one brightness for each triangle of the mesh.
    BrightnessCount,
}

/// The corners of the triangles, in order: the three of the first
/// triangle, then the three of the second, and so on.
pub open spec fn corners(ts: Seq<Triangle>) -> Seq<Vertex>
    decreases ts.len(),
{
    if ts.len() == 0 {
        Seq::empty()
    } else {
        corners(ts.drop_last()).push(ts.last().0).push(ts.last().1).push(ts.last().2)
    }
}

/// Whether `vs` lists a vertex that is the same as `v`.
pub open spec fn listed(vs: Seq<Vertex>, v: Vertex) -> bool {
    exists|i: int| 0 <= i < vs.len() && (#[trigger] vs[i]).same(v)
}

/// `vs` with `v` behind it, unless `vs` lists the same vertex already.
pub open spec fn seen(vs: Seq<Vertex>, v: Vertex) -> Seq<Vertex> {
    if listed(vs, v) {
        vs
    } else {
        vs.push(v)
    }
}

/// The vertices of `cs` in the order in which each is met first. Of
/// vertices that are the same, the one met first stands for all.
pub open spec fn first_seen(cs: Seq<Vertex>) -> Seq<Vertex>
    decreases cs.len(),
{
    if cs.len() == 0 {
        Seq::empty()
    } else {
        seen(first_seen(cs.drop_last()), cs.last())
    }
}

/// The vertex list of a mesh: each vertex of its triangles once, in the
/// order in which the triangles meet them.
pub open spec fn unique_vertices(ts: Seq<Triangle>) -> Seq<Vertex> {
    first_seen(corners(ts))
}

/// The first place in `vs` of a vertex that is the same as `v`, or the
/// length of `vs` where there is none.
pub open spec fn slot_of(vs: Seq<Vertex>, v: Vertex) -> int
    decreases vs.len(),
{
    if vs.len() == 0 {
        0
    } else {
        let k = slot_of(vs.drop_last(), v);
        if k < vs.len() - 1 {
            k
        } else if vs.last().same(v) {
            vs.len() - 1
        } else {
            vs.len() as int
        }
    }
}

/// The places in `vs` of the three corners of `t`.
pub open spec fn triangle_slots(vs: Seq<Vertex>, t: Triangle) -> (u32, u32, u32) {
    (slot_of(vs, t.0) as u32, slot_of(vs, t.1) as u32, slot_of(vs, t.2) as u32)
}

/// The index triples of a mesh: for each triangle, in order, the places
/// of its corners in the vertex list.
pub open spec fn index_triples(ts: Seq<Triangle>) -> Seq<(u32, u32, u32)> {
    Seq::new(ts.len(), |t: int| triangle_slots(unique_vertices(ts), ts[t]))
}

/// The positions of the vertices, without their brightness.
pub open spec fn positions(vs: Seq<Vertex>) -> Seq<(u32, u32, u32)> {
    Seq::new(vs.len(), |j: int| (vs[j].0, vs[j].1, vs[j].2))
}

/// Whether the index triple names the vertex at place `j`.
pub open spec fn uses(t: (u32, u32, u32), j: int) -> bool {
    t.0 == j || t.1 == j || t.2 == j
}

/// The last of the index triples that names the vertex at place `j`, or
/// -1 where none does.
pub open spec fn last_use(is: Seq<(u32, u32, u32)>, j: int) -> int
    decreases is.len(),
{
    if is.len() == 0 {
        -1
    } else if uses(is.last(), j) {
        is.len() - 1
    } else {
        last_use(is.drop_last(), j)
    }
}

/// The vertex `v` of place `j` with the brightness of the last triangle
/// that names it; unchanged where no triangle does.
pub open spec fn lit(v: Vertex, is: Seq<(u32, u32, u32)>, bs: Seq<u32>, j: int) -> Vertex {
    if last_use(is, j) >= 0 {
        Vertex(v.0, v.1, v.2, bs[last_use(is, j)])
    } else {
        v
    }
}

/// The vertex list after each triangle, in order, wrote its brightness
/// into the three vertices it names: where triangles share a vertex, the
/// last of them decides, and nothing is averaged.
pub open spec fn lit_vertices(vs: Seq<Vertex>, is: Seq<(u32, u32, u32)>, bs: Seq<u32>) -> Seq<
    Vertex,
> {
    Seq::new(vs.len(), |j: int| lit(vs[j], is, bs, j))
}

/// The slot of `v` is the place of the first vertex that is the same.
pub proof fn lemma_slot_of(vs: Seq<Vertex>, v: Vertex)
    ensures
        0 <= slot_of(vs, v) <= vs.len(),
        slot_of(vs, v) < vs.len() <==> listed(vs, v),
        slot_of(vs, v) < vs.len() ==> vs[slot_of(vs, v)].same(v),
        forall|i: int| 0 <= i < slot_of(vs, v) ==> !(#[trigger] vs[i]).same(v),
    decreases vs.len(),
{
    if vs.len() > 0 {
        let head = vs.drop_last();
        lemma_slot_of(head, v);
        let k = slot_of(head, v);
        assert forall|i: int| 0 <= i < slot_of(vs, v) implies !(#[trigger] vs[i]).same(v) by {
            if i < head.len() {
                assert(head[i] == vs[i]);
            }
        }
        if k < head.len() {
            assert(head[k] == vs[k]);
            assert(vs[k].same(v));
        }
        if listed(vs, v) && slot_of(vs, v) == vs.len() {
            let i = choose|i: int| 0 <= i < vs.len() && (#[trigger] vs[i]).same(v);
            if i < head.len() {
                assert(head[i] == vs[i]);
                assert(listed(head, v));
            }
        }
    }
}

/// The slot of `v` is `at` where `at` is the first place of a vertex that
/// is the same.
pub proof fn lemma_slot_is(vs: Seq<Vertex>, v: Vertex, at: int)
    requires
        0 <= at < vs.len(),
        vs[at].same(v),
        forall|i: int| 0 <= i < at ==> !(#[trigger] vs[i]).same(v),
    ensures
        slot_of(vs, v) == at,
{
    lemma_slot_of(vs, v);
    let k = slot_of(vs, v);
    assert(listed(vs, v));
    if k < at {
        assert(vs[k].same(v));
    }
}

/// A vertex that is listed stays listed, at the same slot, when another
/// vertex is seen.
pub proof fn lemma_seen_keeps(vs: Seq<Vertex>, w: Vertex, v: Vertex)
    requires
        listed(vs, v),
    ensures
        listed(seen(vs, w), v),
        slot_of(seen(vs, w), v) == slot_of(vs, v),
{
    lemma_slot_of(vs, v);
    let k = slot_of(vs, v);
    let next = seen(vs, w);
    if !listed(vs, w) {
        assert(next.drop_last() =~= vs);
        assert(next[k] == vs[k]);
        assert forall|i: int| 0 <= i < k implies !(#[trigger] next[i]).same(v) by {
            assert(next[i] == vs[i]);
        }
        lemma_slot_is(next, v, k);
    }
}

/// After a vertex is seen it is listed.
pub proof fn lemma_seen_lists(vs: Seq<Vertex>, v: Vertex)
    ensures
        listed(seen(vs, v), v),
{
    if !listed(vs, v) {
        let next = vs.push(v);
        assert(next[vs.len() as int].same(v));
    }
}

/// The corners of `n` triangles are `3 * n` vertices, three to a triangle.
pub proof fn lemma_corners(ts: Seq<Triangle>)
    ensures
        corners(ts).len() == 3 * ts.len(),
        forall|t: int|
            0 <= t < ts.len() ==> {
                &&& corners(ts)[3 * t] == (#[trigger] ts[t]).0
                &&& corners(ts)[3 * t + 1] == ts[t].1
                &&& corners(ts)[3 * t + 2] == ts[t].2
            },
    decreases ts.len(),
{
    if ts.len() > 0 {
        let head = ts.drop_last();
        lemma_corners(head);
        assert forall|t: int| 0 <= t < ts.len() implies {
            &&& corners(ts)[3 * t] == (#[trigger] ts[t]).0
            &&& corners(ts)[3 * t + 1] == ts[t].1
            &&& corners(ts)[3 * t + 2] == ts[t].2
        } by {
            if t < head.len() {
                assert(head[t] == ts[t]);
            }
        }
    }
}

/// Seeing more corners never shortens the list.
pub proof fn lemma_first_seen_grows(cs: Seq<Vertex>, k: int)
    requires
        0 <= k <= cs.len(),
    ensures
        first_seen(cs.take(k)).len() <= first_seen(cs).len(),
    decreases cs.len(),
{
    if k == cs.len() {
        assert(cs.take(k) =~= cs);
    } else {
        let head = cs.drop_last();
        assert(head.take(k) =~= cs.take(k));
        lemma_first_seen_grows(head, k);
    }
}

/// Every corner is listed among the vertices met first.
pub proof fn lemma_first_seen_lists(cs: Seq<Vertex>, k: int)
    requires
        0 <= k < cs.len(),
    ensures
        listed(first_seen(cs), cs[k]),
    decreases cs.len(),
{
    let head = cs.drop_last();
    let prev = first_seen(head);
    if k < head.len() {
        assert(head[k] == cs[k]);
        lemma_first_seen_lists(head, k);
        lemma_seen_keeps(prev, cs.last(), cs[k]);
    } else {
        lemma_seen_lists(prev, cs.last());
    }
}

/// No two of the vertices met first are the same.
pub proof fn lemma_first_seen_distinct(cs: Seq<Vertex>, i: int, j: int)
    requires
        0 <= i < j < first_seen(cs).len(),
    ensures
        !first_seen(cs)[i].same(first_seen(cs)[j]),
    decreases cs.len(),
{
    let out = first_seen(cs);
    if cs.len() > 0 {
        let head = cs.drop_last();
        let prev = first_seen(head);
        if j < prev.len() {
            lemma_first_seen_distinct(head, i, j);
            assert(out[i] == prev[i] && out[j] == prev[j]);
        } else {
            assert(out[i] == prev[i]);
            assert(out[j] == cs.last());
            if out[i].same(out[j]) {
                assert(prev[i].same(cs.last()));
                assert(listed(prev, cs.last()));
            }
        }
    }
}

/// Each of the vertices met first is one of the corners.
pub proof fn lemma_first_seen_from(cs: Seq<Vertex>, i: int) -> (k: int)
    requires
        0 <= i < first_seen(cs).len(),
    ensures
        0 <= k < cs.len(),
        cs[k] == first_seen(cs)[i],
    decreases cs.len(),
{
    let head = cs.drop_last();
    let prev = first_seen(head);
    if i < prev.len() {
        let k = lemma_first_seen_from(head, i);
        assert(head[k] == cs[k]);
        k
    } else {
        cs.len() - 1
    }
}

/// A listed vertex has a slot that fits an index, and the vertex at that
/// slot is the same.
pub proof fn lemma_listed_slot(vs: Seq<Vertex>, v: Vertex)
    requires
        listed(vs, v),
        vs.len() <= u32::MAX,
    ensures
        slot_of(vs, v) as u32 == slot_of(vs, v),
        0 <= slot_of(vs, v) < vs.len(),
        vs[slot_of(vs, v)].same(v),
{
    lemma_slot_of(vs, v);
}

/// Index validity: every index of every triple names a vertex of the
/// list, and that vertex is the same as the corner it stands for.
pub proof fn lemma_indices_valid(ts: Seq<Triangle>, t: int)
    requires
        0 <= t < ts.len(),
        unique_vertices(ts).len() <= u32::MAX,
    ensures
        index_triples(ts)[t].0 < unique_vertices(ts).len(),
        index_triples(ts)[t].1 < unique_vertices(ts).len(),
        index_triples(ts)[t].2 < unique_vertices(ts).len(),
        unique_vertices(ts)[index_triples(ts)[t].0 as int].same(ts[t].0),
        unique_vertices(ts)[index_triples(ts)[t].1 as int].same(ts[t].1),
        unique_vertices(ts)[index_triples(ts)[t].2 as int].same(ts[t].2),
{
    let vs = unique_vertices(ts);
    let cs = corners(ts);
    lemma_corners(ts);
    assert(cs[3 * t] == ts[t].0 && cs[3 * t + 1] == ts[t].1 && cs[3 * t + 2] == ts[t].2);
    lemma_first_seen_lists(cs, 3 * t);
    lemma_first_seen_lists(cs, 3 * t + 1);
    lemma_first_seen_lists(cs, 3 * t + 2);
    lemma_listed_slot(vs, ts[t].0);
    lemma_listed_slot(vs, ts[t].1);
    lemma_listed_slot(vs, ts[t].2);
}

/// The last use of a vertex lies within the triples, and at or behind
/// every triple that names the vertex.
pub proof fn lemma_last_use(is: Seq<(u32, u32, u32)>, j: int, t: int)
    requires
        0 <= t < is.len(),
    ensures
        -1 <= last_use(is, j) < is.len(),
        uses(is[t], j) ==> t <= last_use(is, j),
    decreases is.len(),
{
    if !uses(is.last(), j) {
        let head = is.drop_last();
        if t < head.len() {
            assert(head[t] == is[t]);
            lemma_last_use(head, j, t);
        } else if head.len() > 0 {
            lemma_last_use(head, j, 0);
        } else {
            assert(last_use(head, j) == -1);
        }
    }
}

/// Every vertex of the list is named by an index triple. So each vertex
/// of a lit list carries the brightness of one of the triangles.
pub proof fn lemma_every_vertex_used(ts: Seq<Triangle>, j: int)
    requires
        0 <= j < unique_vertices(ts).len(),
        unique_vertices(ts).len() <= u32::MAX,
    ensures
        0 <= last_use(index_triples(ts), j) < ts.len(),
{
    let vs = unique_vertices(ts);
    let cs = corners(ts);
    lemma_corners(ts);
    let k = lemma_first_seen_from(cs, j);
    let t = k / 3;
    assert(0 <= t < ts.len());
    assert(cs[3 * t] == ts[t].0 && cs[3 * t + 1] == ts[t].1 && cs[3 * t + 2] == ts[t].2);
    assert(vs[j] == ts[t].0 || vs[j] == ts[t].1 || vs[j] == ts[t].2);
    assert forall|i: int| 0 <= i < j implies !(#[trigger] vs[i]).same(vs[j]) by {
        lemma_first_seen_distinct(cs, i, j);
    }
    lemma_slot_is(vs, vs[j], j);
    assert(uses(index_triples(ts)[t], j));
    lemma_last_use(index_triples(ts), j, t);
}

/// Every vertex of the list of a mesh can stand in a mesh: it is a corner
/// of one of the triangles.
pub proof fn lemma_listed_vertex_loaded(ts: Seq<Triangle>, j: int)
    requires
        canonical(ts),
        0 <= j < unique_vertices(ts).len(),
    ensures
        loaded_vertex(unique_vertices(ts)[j]),
{
    let cs = corners(ts);
    lemma_corners(ts);
    let k = lemma_first_seen_from(cs, j);
    let t = k / 3;
    assert(0 <= t < ts.len());
    assert(cs[3 * t] == ts[t].0 && cs[3 * t + 1] == ts[t].1 && cs[3 * t + 2] == ts[t].2);
}

/// No position occurs twice in the vertex list of a mesh: two vertices
/// of the list differ, as numbers, in `x`, `y` or `z`.
pub proof fn lemma_positions_once(ts: Seq<Triangle>, i: int, j: int)
    requires
        canonical(ts),
        0 <= i < j < unique_vertices(ts).len(),
    ensures
        ({
            let a = unique_vertices(ts)[i];
            let b = unique_vertices(ts)[j];
            lane(a.0) != lane(b.0) || lane(a.1) != lane(b.1) || lane(a.2) != lane(b.2)
        }),
{
    lemma_listed_vertex_loaded(ts, i);
    lemma_listed_vertex_loaded(ts, j);
    lemma_first_seen_distinct(corners(ts), i, j);
}

/// A mesh without triangles has no vertices and no index triples, and its
/// file is two counts of zero.
pub proof fn lemma_empty_mesh()
    ensures
        unique_vertices(Seq::empty()) == Seq::<Vertex>::empty(),
        index_triples(Seq::empty()) == Seq::<(u32, u32, u32)>::empty(),
        position_file(Seq::empty(), Seq::empty()) == Seq::new(16, |i: int| 0u8),
{
    reveal(crate::bytes::le32);
    reveal(crate::bytes::le64);
    assert(index_triples(Seq::empty()) =~= Seq::<(u32, u32, u32)>::empty());
    assert(position_file(Seq::empty(), Seq::empty()) =~= Seq::new(16, |i: int| 0u8));
}

/// The buffers of a mesh depend on its content alone: two results that
/// `vbo_and_triangles` may give for meshes of one content and one list of
/// brightness are the same vertices, in the same order, with the same
/// brightness, and the same index triples.
pub proof fn lemma_conversion_is_determined(
    ts: Seq<Triangle>,
    bs: Seq<u32>,
    first: (Seq<Vertex>, Seq<(u32, u32, u32)>),
    second: (Seq<Vertex>, Seq<(u32, u32, u32)>),
)
    requires
        first.1 == index_triples(ts),
        first.0 == lit_vertices(unique_vertices(ts), first.1, bs),
        second.1 == index_triples(ts),
        second.0 == lit_vertices(unique_vertices(ts), second.1, bs),
    ensures
        first == second,
{
}

/// Whether `m` gives, for the key of each vertex of `vs`, the place of
/// that vertex, and holds no other key.
spec fn indexed(vs: Seq<Vertex>, m: Map<u128, u32>) -> bool {
    &&& forall|j: int|
        0 <= j < vs.len() ==> m.contains_key((#[trigger] vs[j]).key() as u128) && m[vs[j].key() as u128]
            == j
    &&& forall|k: u128| #[trigger]
        m.contains_key(k) ==> m[k] < vs.len() && vs[m[k] as int].key() == k
}

/// A listed vertex stays listed, at the same slot, when three more
/// vertices are seen.
proof fn lemma_seen_thrice_keeps(vs: Seq<Vertex>, w: Triangle, v: Vertex)
    requires
        listed(vs, v),
    ensures
        listed(seen(seen(seen(vs, w.0), w.1), w.2), v),
        slot_of(seen(seen(seen(vs, w.0), w.1), w.2), v) == slot_of(vs, v),
{
    lemma_seen_keeps(vs, w.0, v);
    lemma_seen_keeps(seen(vs, w.0), w.1, v);
    lemma_seen_keeps(seen(seen(vs, w.0), w.1), w.2, v);
}

/// Seeing the next corner: the vertices met first among `k + 1` corners
/// are those met among `k`, and then the corner at `k`.
proof fn lemma_first_seen_next(cs: Seq<Vertex>, k: int)
    requires
        0 <= k < cs.len(),
    ensures
        first_seen(cs.take(k + 1)) == seen(first_seen(cs.take(k)), cs[k]),
{
    assert(cs.take(k + 1).drop_last() =~= cs.take(k));
}

/// Finds the place of `v` in `vertices`, putting it behind them if none
/// is the same. Gives `None` where `v` is new and the list is full.
fn intern(vertices: &mut Vec<Vertex>, slots: &mut BTreeMap<u128, u32>, v: Vertex) -> (r: Option<u32>)
    requires
        indexed(old(vertices)@, old(slots)@),
        old(vertices)@.len() <= u32::MAX,
    ensures
        r is Some ==> {
            &&& final(vertices)@ == seen(old(vertices)@, v)
            &&& indexed(final(vertices)@, final(slots)@)
            &&& final(vertices)@.len() <= u32::MAX
            &&& r->Some_0 == slot_of(final(vertices)@, v)
        },
        r is None ==> {
            &&& !listed(old(vertices)@, v)
            &&& old(vertices)@.len() == u32::MAX
        },
{
    let k: u128 = v.sort_key();
    let ghost vs = vertices@;
    proof {
        v.lemma_key_range();
        v.lemma_key_orders(v);
        assert forall|j: int| 0 <= j < vs.len() implies (vs[j].same(v) <==> vs[j].key() as u128
            == k) by {
            vs[j].lemma_key_range();
            vs[j].lemma_key_orders(v);
        }
    }
    let found: Option<&u32> = slots.get(&k);
    match found {
        Some(at) => {
            let i: u32 = *at;
            proof {
                assert(slots@.contains_key(k) && slots@[k] == i);
                assert(vs[i as int].same(v));
                assert forall|j: int| 0 <= j < i implies !(#[trigger] vs[j]).same(v) by {
                    if vs[j].same(v) {
                        assert(slots@[vs[j].key() as u128] == j);
                    }
                }
                lemma_slot_is(vs, v, i as int);
                assert(listed(vs, v));
            }
            Some(i)
        },
        None => {
            proof {
                assert(!slots@.contains_key(k));
                if listed(vs, v) {
                    let j = choose|j: int| 0 <= j < vs.len() && (#[trigger] vs[j]).same(v);
                    assert(slots@.contains_key(vs[j].key() as u128));
                }
            }
            if vertices.len() >= u32::MAX as usize {
                return None;
            }
            let i: u32 = vertices.len() as u32;
            slots.insert(k, i);
            vertices.push(v);
            proof {
                let next = vertices@;
                assert(next == vs.push(v));
                assert forall|j: int| 0 <= j < next.len() implies slots@.contains_key(
                    (#[trigger] next[j]).key() as u128,
                ) && slots@[next[j].key() as u128] == j by {
                    if j < vs.len() {
                        assert(next[j] == vs[j]);
                        assert(!vs[j].same(v));
                    }
                }
                assert forall|q: u128| #[trigger] slots@.contains_key(q) implies slots@[q]
                    < next.len() && next[slots@[q] as int].key() == q by {
                    if q != k {
                        assert(old(slots)@.contains_key(q));
                        assert(next[old(slots)@[q] as int] == vs[old(slots)@[q] as int]);
                    }
                }
                assert forall|j: int| 0 <= j < vs.len() implies !(#[trigger] next[j]).same(v) by {
                    assert(next[j] == vs[j]);
                }
                lemma_slot_is(next, v, vs.len() as int);
            }
            Some(i)
        },
    }
}

impl ObjFile {
    /// Turns the mesh into a vertex list and index triples.
    ///
    /// The vertex list holds each vertex of the mesh once, in the order in
    /// which the triangles, taken in canonical order, meet them. There is
    /// one index triple for each triangle, in that order, and it names the
    /// places of the triangle's corners in winding order. Two calls on one
    /// mesh give the same lists. Fails exactly when the mesh has more
    /// than `u32::MAX` vertices.
    pub fn to_indexed_buffers(&self) -> (r: Result<
        (Vec<Vertex>, Vec<(u32, u32, u32)>),
        BufferError,
    >)
        ensures
            match r {
                Ok((vs, is)) => {
                    &&& vs@ == unique_vertices(self@)
                    &&& is@ == index_triples(self@)
                    &&& vs@.len() <= u32::MAX
                    &&& forall|t: int|
                        0 <= t < is@.len() ==> (#[trigger] is@[t]).0 < vs@.len() && is@[t].1
                            < vs@.len() && is@[t].2 < vs@.len()
                },
                Err(e) => e == BufferError::IndexOverflow && unique_vertices(self@).len()
                    > u32::MAX,
            },
    {
        let mut vertices: Vec<Vertex> = Vec::new();
        let mut slots: BTreeMap<u128, u32> = BTreeMap::new();
        let mut indices: Vec<(u32, u32, u32)> = Vec::new();
        let ghost cs = corners(self@);
        let triangles: Vec<Triangle> = self.triangles();
        let n: usize = triangles.len();
        proof {
            lemma_corners(self@);
            assert(cs.take(0) =~= Seq::<Vertex>::empty());
        }
        let mut t: usize = 0;
        while t < n
            invariant
                t <= n,
                n == self@.len(),
                triangles@ == self@,
                cs == corners(self@),
                cs.len() == 3 * n,
                vertices@ == first_seen(cs.take(3 * t)),
                vertices@.len() <= u32::MAX,
                indexed(vertices@, slots@),
                indices@.len() == t,
                forall|u: int|
                    0 <= u < t ==> {
                        &&& listed(vertices@, (#[trigger] self@[u]).0)
                        &&& listed(vertices@, self@[u].1)
                        &&& listed(vertices@, self@[u].2)
                        &&& indices@[u] == triangle_slots(vertices@, self@[u])
                    },
            decreases n - t,
        {
            let tri: Triangle = triangles[t];
            let ghost v0 = vertices@;
            let ghost v1 = seen(v0, tri.0);
            let ghost v2 = seen(v1, tri.1);
            let ghost v3 = seen(v2, tri.2);
            proof {
                lemma_corners(self@);
                assert(cs[3 * t] == tri.0 && cs[3 * t + 1] == tri.1 && cs[3 * t + 2] == tri.2);
                lemma_first_seen_next(cs, 3 * t);
                lemma_first_seen_next(cs, 3 * t + 1);
                lemma_first_seen_next(cs, 3 * t + 2);
                lemma_first_seen_grows(cs, 3 * t + 1);
                lemma_first_seen_grows(cs, 3 * t + 2);
                lemma_first_seen_grows(cs, 3 * t + 3);
            }
            let a: u32 = match intern(&mut vertices, &mut slots, tri.0) {
                Some(a) => a,
                None => {
                    return Err(BufferError::IndexOverflow);
                },
            };
            let b: u32 = match intern(&mut vertices, &mut slots, tri.1) {
                Some(b) => b,
                None => {
                    return Err(BufferError::IndexOverflow);
                },
            };
            let c: u32 = match intern(&mut vertices, &mut slots, tri.2) {
                Some(c) => c,
                None => {
                    return Err(BufferError::IndexOverflow);
                },
            };
            proof {
                assert(vertices@ == v3);
                lemma_seen_lists(v0, tri.0);
                lemma_seen_keeps(v1, tri.1, tri.0);
                lemma_seen_keeps(v2, tri.2, tri.0);
                lemma_seen_lists(v1, tri.1);
                lemma_seen_keeps(v2, tri.2, tri.1);
                lemma_seen_lists(v2, tri.2);
                assert forall|u: int| 0 <= u < t implies {
                    &&& listed(v3, (#[trigger] self@[u]).0)
                    &&& listed(v3, self@[u].1)
                    &&& listed(v3, self@[u].2)
                    &&& indices@[u] == triangle_slots(v3, self@[u])
                } by {
                    lemma_seen_thrice_keeps(v0, tri, self@[u].0);
                    lemma_seen_thrice_keeps(v0, tri, self@[u].1);
                    lemma_seen_thrice_keeps(v0, tri, self@[u].2);
                }
            }
            indices.push((a, b, c));
            t += 1;
        }
        proof {
            assert(cs.take(3 * n) =~= cs);
            assert(indices@ =~= index_triples(self@));
            assert forall|u: int| 0 <= u < indices@.len() implies (#[trigger] indices@[u]).0
                < vertices@.len() && indices@[u].1 < vertices@.len() && indices@[u].2
                < vertices@.len() by {
                lemma_indices_valid(self@, u);
            }
        }
        Ok((vertices, indices))
    }

    /// Turns the mesh into a vertex list and index triples, and lights
    /// the vertices.
    ///
    /// `brightness` holds one number for each triangle of the mesh, in
    /// canonical order. The lists are those of `to_indexed_buffers`, but
    /// that each vertex carries the brightness of the last triangle that
    /// names it.
    pub fn vbo_and_triangles(&self, brightness: &Vec<u32>) -> (r: Result<
        (Vec<Vertex>, Vec<(u32, u32, u32)>),
        BufferError,
    >)
        ensures
            match r {
                Ok((vs, is)) => {
                    &&& brightness@.len() == self@.len()
                    &&& unique_vertices(self@).len() <= u32::MAX
                    &&& is@ == index_triples(self@)
                    &&& vs@ == lit_vertices(unique_vertices(self@), is@, brightness@)
                    &&& forall|t: int|
                        0 <= t < is@.len() ==> (#[trigger] is@[t]).0 < vs@.len() && is@[t].1
                            < vs@.len() && is@[t].2 < vs@.len()
                },
                Err(BufferError::BrightnessCount) => brightness@.len() != self@.len(),
                Err(BufferError::IndexOverflow) => brightness@.len() == self@.len()
                    && unique_vertices(self@).len() > u32::MAX,
            },
    {
        if brightness.len() != self.len() {
            return Err(BufferError::BrightnessCount);
        }
        let (mut vertices, indices) = match self.to_indexed_buffers() {
            Ok(buffers) => buffers,
            Err(e) => {
                return Err(e);
            },
        };
        let ghost base = vertices@;
        let n: usize = indices.len();
        proof {
            assert(indices@.take(0) =~= Seq::<(u32, u32, u32)>::empty());
            assert(vertices@ =~= lit_vertices(base, indices@.take(0), brightness@));
        }
        let mut t: usize = 0;
        while t < n
            invariant
                t <= n,
                n == indices@.len(),
                n == brightness@.len(),
                base.len() == vertices@.len(),
                forall|u: int|
                    0 <= u < n ==> (#[trigger] indices@[u]).0 < base.len() && indices@[u].1
                        < base.len() && indices@[u].2 < base.len(),
                vertices@ == lit_vertices(base, indices@.take(t as int), brightness@),
            decreases n - t,
        {
            let tri: (u32, u32, u32) = indices[t];
            let b: u32 = brightness[t];
            let ghost before = vertices@;
            shade(&mut vertices, tri.0 as usize, b);
            shade(&mut vertices, tri.1 as usize, b);
            shade(&mut vertices, tri.2 as usize, b);
            proof {
                let done = indices@.take(t as int);
                let next = indices@.take(t + 1);
                assert(next.drop_last() =~= done);
                assert(next.last() == tri);
                assert forall|j: int| 0 <= j < base.len() implies vertices@[j] == lit(
                    base[j],
                    next,
                    brightness@,
                    j,
                ) by {
                    assert(before[j] == lit(base[j], done, brightness@, j));
                    if t > 0 {
                        lemma_last_use(done, j, 0);
                    }
                }
                assert(vertices@ =~= lit_vertices(base, next, brightness@));
            }
            t += 1;
        }
        proof {
            assert(indices@.take(n as int) =~= indices@);
        }
        Ok((vertices, indices))
    }

    /// Writes the mesh as a file of positions and index triples: the
    /// lists of `to_indexed_buffers`, each vertex without its brightness.
    pub fn write_vbo_index(&self) -> (r: Result<Vec<u8>, BufferError>)
        ensures
            match r {
                Ok(bytes) => unique_vertices(self@).len() <= u32::MAX && bytes@ == position_file(
                    positions(unique_vertices(self@)),
                    index_triples(self@),
                ),
                Err(e) => e == BufferError::IndexOverflow && unique_vertices(self@).len()
                    > u32::MAX,
            },
    {
        let (vertices, indices) = match self.to_indexed_buffers() {
            Ok(buffers) => buffers,
            Err(e) => {
                return Err(e);
            },
        };
        let places: Vec<(u32, u32, u32)> = positions_of(&vertices);
        Ok(write_falkvbo(&places, &indices))
    }
}

/// Gives the vertex at place `i` the brightness `b`.
fn shade(vertices: &mut Vec<Vertex>, i: usize, b: u32)
    requires
        i < old(vertices)@.len(),
    ensures
        final(vertices)@ == old(vertices)@.update(
            i as int,
            Vertex(old(vertices)@[i as int].0, old(vertices)@[i as int].1, old(vertices)@[i as int].2, b),
        ),
{
    let v: Vertex = vertices[i];
    vertices.set(i, Vertex(v.0, v.1, v.2, b));
}

/// The positions of the vertices, without their brightness.
pub fn positions_of(vertices: &Vec<Vertex>) -> (ps: Vec<(u32, u32, u32)>)
    ensures
        ps@ == positions(vertices@),
{
    let mut ps: Vec<(u32, u32, u32)> = Vec::new();
    let mut i: usize = 0;
    while i < vertices.len()
        invariant
            i <= vertices.len(),
            ps@ == positions(vertices@.take(i as int)),
        decreases vertices.len() - i,
    {
        let v: Vertex = vertices[i];
        ps.push((v.0, v.1, v.2));
        i += 1;
        assert(ps@ =~= positions(vertices@.take(i as int)));
    }
    assert(vertices@.take(i as int) =~= vertices@);
    ps
}

} // verus!
