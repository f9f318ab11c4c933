//! The mesh: a set of triangles that an ordered map of std keeps in
//! canonical order.

use std::collections::BTreeMap;
use vstd::prelude::*;
use vstd::std_specs::btree::increasing_seq;
use vstd::std_specs::cmp::OrdSpec;
use vstd::std_specs::iter::IteratorSpec;
use crate::canonical::{
    canonical, holds, lemma_one_order, lemma_rank_parts, lemma_with_triangle_canonical,
    loaded_triangle, rank, with_triangle,
};
use crate::vertex::{
    corner_keys, keys_before, lemma_corner_keys, triangle_before, triangle_keys, triangle_same,
    Triangle,
};

verus! {

broadcast use {vstd::std_specs::btree::group_btree_axioms, vstd::laws_cmp::group_laws_cmp};

/// Whether the map `m` of a mesh holds the triangles of `s`, each under
/// the keys of its corners, and nothing else.
spec fn agrees(m: Map<(u128, u128, u128), Triangle>, s: Seq<Triangle>) -> bool {
    &&& m.dom().finite()
    &&& m.dom().len() == s.len()
    &&& forall|i: int|
        0 <= i < s.len() ==> m.contains_key(corner_keys(#[trigger] s[i])) && m[corner_keys(s[i])]
            == s[i]
    &&& forall|k: (u128, u128, u128)| #[trigger]
        m.contains_key(k) ==> corner_keys(m[k]) == k && s.contains(m[k])
}

/// A map that agrees with a canonical sequence has the keys of `t`
/// exactly where the sequence holds `t`.
proof fn lemma_agrees_holds(
    m: Map<(u128, u128, u128), Triangle>,
    s: Seq<Triangle>,
    t: Triangle,
)
    requires
        agrees(m, s),
    ensures
        m.contains_key(corner_keys(t)) <==> holds(s, t),
{
    let k = corner_keys(t);
    if m.contains_key(k) {
        assert(s.contains(m[k]));
        let i = choose|i: int| 0 <= i < s.len() && s[i] == m[k];
        lemma_corner_keys(s[i], t);
        assert(triangle_same(s[i], t));
    }
    if holds(s, t) {
        let i = choose|i: int| 0 <= i < s.len() && triangle_same(#[trigger] s[i], t);
        lemma_corner_keys(s[i], t);
    }
}

/// A map and a sequence that agree still agree after a new triangle was
/// put into both.
proof fn lemma_agrees_insert(
    m: Map<(u128, u128, u128), Triangle>,
    s: Seq<Triangle>,
    t: Triangle,
)
    requires
        agrees(m, s),
        canonical(s),
        !holds(s, t),
    ensures
        agrees(m.insert(corner_keys(t), t), with_triangle(s, t)),
{
    lemma_agrees_holds(m, s, t);
    lemma_rank_parts(s, t);
    let k = corner_keys(t);
    let r = rank(s, t);
    let n = m.insert(k, t);
    let u = s.insert(r, t);
    assert(n.dom() =~= m.dom().insert(k));
    assert forall|i: int| 0 <= i < u.len() implies n.contains_key(corner_keys(#[trigger] u[i]))
        && n[corner_keys(u[i])] == u[i] by {
        if i < r {
            assert(u[i] == s[i]);
        } else if i > r {
            assert(u[i] == s[i - 1]);
        }
    }
    assert forall|q: (u128, u128, u128)| #[trigger] n.contains_key(q) implies corner_keys(n[q])
        == q && u.contains(n[q]) by {
        if q == k {
            assert(u[r] == t);
        } else {
            assert(s.contains(m[q]));
            let i = choose|i: int| 0 <= i < s.len() && s[i] == m[q];
            let j = if i < r {
                i
            } else {
                i + 1
            };
            assert(u[j] == s[i]);
        }
    }
}

/// The triangles that an ordered map hands out, in its order, are the
/// sequence that agrees with the map.
proof fn lemma_walk_is_order(
    m: Map<(u128, u128, u128), Triangle>,
    s: Seq<Triangle>,
    walk: Seq<(&(u128, u128, u128), &Triangle)>,
    ts: Seq<Triangle>,
)
    requires
        agrees(m, s),
        canonical(s),
        walk.len() == m.dom().len(),
        forall|i: int|
            0 <= i < walk.len() ==> m.contains_key(*(#[trigger] walk[i]).0) && m[*walk[i].0]
                == *walk[i].1,
        forall|k: (u128, u128, u128)| #[trigger] m.contains_key(k) ==> walk.contains((&k, &m[k])),
        increasing_seq(walk.map_values(|kv: (&(u128, u128, u128), &Triangle)| *kv.0)),
        ts.len() == walk.len(),
        forall|i: int| 0 <= i < ts.len() ==> ts[i] == *(#[trigger] walk[i]).1,
    ensures
        ts == s,
{
    let keys = walk.map_values(|kv: (&(u128, u128, u128), &Triangle)| *kv.0);
    assert forall|i: int, j: int| 0 <= i < j < ts.len() implies triangle_before(ts[i], ts[j]) by {
        assert(keys[i] == *walk[i].0 && keys[j] == *walk[j].0);
        assert(keys[i].cmp_spec(&keys[j]) is Less);
        assert(keys_before(keys[i], keys[j]));
        assert(m.contains_key(keys[i]) && m.contains_key(keys[j]));
        lemma_corner_keys(ts[i], ts[j]);
    }
    assert forall|i: int| 0 <= i < s.len() implies ts.contains(#[trigger] s[i]) by {
        let k = corner_keys(s[i]);
        assert(m.contains_key(k));
        assert(walk.contains((&k, &m[k])));
        let p = choose|p: int| 0 <= p < walk.len() && walk[p] == (&k, &m[k]);
        assert(ts[p] == s[i]);
    }
    assert forall|i: int| 0 <= i < ts.len() implies s.contains(#[trigger] ts[i]) by {
        assert(m.contains_key(*walk[i].0));
    }
    assert forall|i: int| 0 <= i < s.len() implies s[i] == ts[i] by {
        lemma_one_order(s, ts, i);
    }
    assert(ts =~= s);
}

/// A mesh: the canonical set of the triangles loaded into it.
///
/// The triangles lie in an ordered map of std, each under the keys of
/// its corners, so that the map keeps them in canonical order.
pub struct ObjFile {
    triangles: BTreeMap<(u128, u128, u128), Triangle>,
    order: Ghost<Seq<Triangle>>,
}

impl View for ObjFile {
    type V = Seq<Triangle>;

    /// The triangles of the mesh in their canonical order.
    closed spec fn view(&self) -> Seq<Triangle> {
        self.order@
    }
}

impl Default for ObjFile {
    /// A mesh without triangles.
    fn default() -> (m: ObjFile)
        ensures
            m@ == Seq::<Triangle>::empty(),
    {
        ObjFile::new()
    }
}

impl ObjFile {
    /// What holds of every mesh: its content is canonical, and its map
    /// holds that content.
    #[verifier::type_invariant]
    pub(crate) closed spec fn in_order(&self) -> bool {
        canonical(self.order@) && agrees(self.triangles@, self.order@)
    }

    /// What holds of every mesh makes its content canonical.
    pub(crate) proof fn lemma_in_order(&self)
        requires
            self.in_order(),
        ensures
            canonical(self@),
    {
    }

    /// A mesh without triangles.
    pub fn new() -> (m: ObjFile)
        ensures
            m@ == Seq::<Triangle>::empty(),
    {
        ObjFile { triangles: BTreeMap::new(), order: Ghost(Seq::empty()) }
    }

    /// The number of triangles in the mesh.
    pub fn len(&self) -> (n: usize)
        ensures
            n == self@.len(),
    {
        proof {
            use_type_invariant(self);
        }
        self.triangles.len()
    }

    /// The triangles of the mesh in their canonical order.
    pub fn triangles(&self) -> (ts: Vec<Triangle>)
        ensures
            ts@ == self@,
            canonical(self@),
    {
        proof {
            use_type_invariant(self);
        }
        let mut ts: Vec<Triangle> = Vec::new();
        for kv in it: self.triangles.iter()
            invariant
                it.seq() == self.triangles.iter().remaining(),
                increasing_seq(
                    it.seq().map_values(|kv: (&(u128, u128, u128), &Triangle)| *kv.0),
                ),
                ts@.len() == it.index(),
                forall|i: int| 0 <= i < ts@.len() ==> ts@[i] == *(#[trigger] it.seq()[i]).1,
        {
            ts.push(*kv.1);
        }
        proof {
            lemma_walk_is_order(
                self.triangles@,
                self.order@,
                self.triangles.iter().remaining(),
                ts@,
            );
        }
        ts
    }

    /// Puts `t` into the mesh, unless the mesh holds the same triangle
    /// already. Says whether the mesh grew.
    pub(crate) fn insert(&mut self, t: Triangle) -> (grew: bool)
        requires
            loaded_triangle(t),
        ensures
            canonical(final(self)@),
            final(self)@ == with_triangle(old(self)@, t),
            grew == !holds(old(self)@, t),
    {
        let k: (u128, u128, u128) = triangle_keys(&t);
        proof {
            use_type_invariant(&*self);
            lemma_agrees_holds(self.triangles@, self.order@, t);
            lemma_with_triangle_canonical(self.order@, t);
        }
        if self.triangles.contains_key(&k) {
            false
        } else {
            proof {
                lemma_agrees_insert(self.triangles@, self.order@, t);
            }
            // The map and the order change together: the mesh is taken
            // apart and put together again.
            let mut taken: ObjFile = ObjFile::new();
            core::mem::swap(self, &mut taken);
            let ObjFile { triangles, order } = taken;
            let mut triangles = triangles;
            triangles.insert(k, t);
            *self = ObjFile { triangles, order: Ghost(with_triangle(order@, t)) };
            true
        }
    }
}

} // verus!
