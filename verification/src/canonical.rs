//! The content of a mesh: a sequence of triangles in canonical order,
//! and what putting a triangle into it does.

use vstd::prelude::*;
use crate::scalar::{is_nan, HALF_BITS};
use crate::vertex::{lemma_triangle_order, triangle_before, triangle_same, Triangle, Vertex};

verus! {

/// Whether `v` can stand in a mesh: its position holds no NaN, and its
/// brightness is the one half that loading gives every vertex.
pub open spec fn loaded_vertex(v: Vertex) -> bool {
    &&& !is_nan(v.0)
    &&& !is_nan(v.1)
    &&& !is_nan(v.2)
    &&& v.3 == HALF_BITS
}

/// Whether the three corners of `t` can stand in a mesh.
pub open spec fn loaded_triangle(t: Triangle) -> bool {
    loaded_vertex(t.0) && loaded_vertex(t.1) && loaded_vertex(t.2)
}

/// Whether `s` is the content of a mesh: every triangle can stand in one,
/// and each comes before the next. So no triangle occurs twice.
pub open spec fn canonical(s: Seq<Triangle>) -> bool {
    &&& forall|i: int| 0 <= i < s.len() ==> loaded_triangle(#[trigger] s[i])
    &&& forall|i: int, j: int| 0 <= i < j < s.len() ==> triangle_before(s[i], s[j])
}

/// Whether `s` holds a triangle that is the same as `t`.
pub open spec fn holds(s: Seq<Triangle>, t: Triangle) -> bool {
    exists|i: int| 0 <= i < s.len() && triangle_same(#[trigger] s[i], t)
}

/// Where `t` belongs in the canonical sequence `s`: behind the triangles
/// that come before it.
pub open spec fn rank(s: Seq<Triangle>, t: Triangle) -> int
    decreases s.len(),
{
    if s.len() == 0 {
        0
    } else if triangle_before(s.last(), t) {
        s.len() as int
    } else {
        rank(s.drop_last(), t)
    }
}

/// The canonical sequence `s` after `t` was put into it: unchanged where
/// `s` holds the same triangle already, else with `t` at its rank.
pub open spec fn with_triangle(s: Seq<Triangle>, t: Triangle) -> Seq<Triangle> {
    if holds(s, t) {
        s
    } else {
        s.insert(rank(s, t), t)
    }
}

/// A canonical sequence without its last triangle is canonical.
pub proof fn lemma_canonical_head(s: Seq<Triangle>)
    requires
        canonical(s),
        s.len() > 0,
    ensures
        canonical(s.drop_last()),
{
    let head = s.drop_last();
    assert forall|i: int| 0 <= i < head.len() implies loaded_triangle(#[trigger] head[i]) by {
        assert(head[i] == s[i]);
    }
    assert forall|i: int, j: int| 0 <= i < j < head.len() implies triangle_before(
        head[i],
        head[j],
    ) by {
        assert(head[i] == s[i] && head[j] == s[j]);
    }
}

/// The rank lies within the sequence, the triangles in front of it come
/// before `t`, and those from it on do not.
pub proof fn lemma_rank_parts(s: Seq<Triangle>, t: Triangle)
    requires
        canonical(s),
    ensures
        0 <= rank(s, t) <= s.len(),
        forall|i: int| 0 <= i < rank(s, t) ==> triangle_before(#[trigger] s[i], t),
        forall|i: int| rank(s, t) <= i < s.len() ==> !triangle_before(#[trigger] s[i], t),
    decreases s.len(),
{
    if s.len() > 0 {
        let head = s.drop_last();
        if triangle_before(s.last(), t) {
            assert forall|i: int| 0 <= i < s.len() implies triangle_before(#[trigger] s[i], t) by {
                if i < s.len() - 1 {
                    assert(triangle_before(s[i], s.last()));
                }
            }
        } else {
            lemma_canonical_head(s);
            lemma_rank_parts(head, t);
            assert forall|i: int| 0 <= i < rank(s, t) implies triangle_before(
                #[trigger] s[i],
                t,
            ) by {
                assert(head[i] == s[i]);
            }
            assert forall|i: int| rank(s, t) <= i < s.len() implies !triangle_before(
                #[trigger] s[i],
                t,
            ) by {
                if i < s.len() - 1 {
                    assert(head[i] == s[i]);
                }
            }
        }
    }
}

/// A canonical sequence holds `t` exactly where the triangle at the rank
/// of `t` is the same as `t`.
pub proof fn lemma_holds_at_rank(s: Seq<Triangle>, t: Triangle)
    requires
        canonical(s),
    ensures
        holds(s, t) <==> (rank(s, t) < s.len() && triangle_same(s[rank(s, t)], t)),
{
    lemma_rank_parts(s, t);
    let r = rank(s, t);
    if holds(s, t) {
        let i = choose|i: int| 0 <= i < s.len() && triangle_same(#[trigger] s[i], t);
        lemma_triangle_order(s[i], t);
        assert(!triangle_before(s[i], t));
        if i > r {
            assert(triangle_before(s[r], s[i]));
        }
        assert(i == r);
    }
    if r < s.len() && triangle_same(s[r], t) {
        assert(holds(s, t));
    }
}

/// Putting a triangle into a canonical sequence leaves it canonical.
pub proof fn lemma_with_triangle_canonical(s: Seq<Triangle>, t: Triangle)
    requires
        canonical(s),
        loaded_triangle(t),
    ensures
        canonical(with_triangle(s, t)),
        holds(with_triangle(s, t), t),
{
    lemma_rank_parts(s, t);
    lemma_holds_at_rank(s, t);
    let r = rank(s, t);
    let u = with_triangle(s, t);
    if !holds(s, t) {
        if r < s.len() {
            lemma_triangle_order(s[r], t);
        }
        assert forall|i: int, j: int| 0 <= i < j < u.len() implies triangle_before(
            u[i],
            u[j],
        ) by {
            if j == r {
                assert(u[i] == s[i]);
            } else if i == r {
                assert(u[j] == s[j - 1]);
                assert(!triangle_before(s[j - 1], t));
                if j - 1 > r {
                    assert(triangle_before(s[r], s[j - 1]));
                }
            } else {
                let a = if i < r { i } else { i - 1 };
                let b = if j < r { j } else { j - 1 };
                assert(u[i] == s[a] && u[j] == s[b]);
            }
        }
        assert forall|i: int| 0 <= i < u.len() implies loaded_triangle(#[trigger] u[i]) by {
            if i < r {
                assert(u[i] == s[i]);
            } else if i > r {
                assert(u[i] == s[i - 1]);
            }
        }
        lemma_triangle_order(t, t);
        assert(triangle_same(u[r], t));
    }
}

/// A triangle that a canonical sequence holds is still held after another
/// was put into it.
pub proof fn lemma_with_triangle_keeps(s: Seq<Triangle>, t: Triangle, x: Triangle)
    requires
        canonical(s),
        holds(s, x),
    ensures
        holds(with_triangle(s, t), x),
{
    if !holds(s, t) {
        lemma_rank_parts(s, t);
        let r = rank(s, t);
        let u = with_triangle(s, t);
        let i = choose|i: int| 0 <= i < s.len() && triangle_same(#[trigger] s[i], x);
        let j = if i < r {
            i
        } else {
            i + 1
        };
        assert(u[j] == s[i]);
        assert(triangle_same(u[j], x));
    }
}

/// A canonical sequence holds no triangle twice: two places whose
/// triangles are the same as `t` are one place.
pub proof fn lemma_held_once(s: Seq<Triangle>, t: Triangle, i: int, j: int)
    requires
        canonical(s),
        0 <= i < s.len(),
        0 <= j < s.len(),
        triangle_same(s[i], t),
        triangle_same(s[j], t),
    ensures
        i == j,
{
    lemma_triangle_order(s[i], t);
    lemma_triangle_order(s[j], t);
    if i < j {
        assert(triangle_before(s[i], s[j]));
    }
    if j < i {
        assert(triangle_before(s[j], s[i]));
    }
}

/// Putting a triangle in makes the sequence longer by one, or leaves it
/// as it is where the triangle was held.
pub proof fn lemma_with_triangle_len(s: Seq<Triangle>, t: Triangle)
    requires
        canonical(s),
    ensures
        holds(s, t) ==> with_triangle(s, t) == s,
        !holds(s, t) ==> with_triangle(s, t).len() == s.len() + 1,
{
    lemma_rank_parts(s, t);
}

/// Loading a triangle twice is loading it once: the second time changes
/// nothing, and the mesh holds the triangle at one place.
pub proof fn lemma_insert_twice(s: Seq<Triangle>, t: Triangle)
    requires
        canonical(s),
        loaded_triangle(t),
    ensures
        with_triangle(with_triangle(s, t), t) == with_triangle(s, t),
        holds(with_triangle(s, t), t),
        forall|i: int, j: int|
            #![trigger with_triangle(s, t)[i], with_triangle(s, t)[j]]
            0 <= i < with_triangle(s, t).len() && 0 <= j < with_triangle(s, t).len()
                && triangle_same(with_triangle(s, t)[i], t) && triangle_same(
                with_triangle(s, t)[j],
                t,
            ) ==> i == j,
{
    lemma_with_triangle_canonical(s, t);
    let u = with_triangle(s, t);
    assert forall|i: int, j: int|
        #![trigger u[i], u[j]]
        0 <= i < u.len() && 0 <= j < u.len() && triangle_same(u[i], t) && triangle_same(
            u[j],
            t,
        ) implies i == j by {
        lemma_held_once(u, t, i, j);
    }
}

/// The winding order matters: `(a, b, c)` and `(b, c, a)` are the same
/// triangle only where the three corners are the same vertex. Where they
/// are not, a mesh into which both were put holds them at two places.
pub proof fn lemma_winding_matters(s: Seq<Triangle>, a: Vertex, b: Vertex, c: Vertex)
    requires
        canonical(s),
        loaded_triangle((a, b, c)),
    ensures
        triangle_same((a, b, c), (b, c, a)) <==> a.same(b) && b.same(c),
        holds(with_triangle(with_triangle(s, (a, b, c)), (b, c, a)), (a, b, c)),
        holds(with_triangle(with_triangle(s, (a, b, c)), (b, c, a)), (b, c, a)),
        triangle_same((a, b, c), (b, c, a)) ==> with_triangle(
            with_triangle(s, (a, b, c)),
            (b, c, a),
        ) == with_triangle(s, (a, b, c)),
        !triangle_same((a, b, c), (b, c, a)) ==> exists|i: int, j: int|
            #![trigger with_triangle(with_triangle(s, (a, b, c)), (b, c, a))[i], with_triangle(with_triangle(s, (a, b, c)), (b, c, a))[j]]
            {
                let u = with_triangle(with_triangle(s, (a, b, c)), (b, c, a));
                &&& 0 <= i < u.len()
                &&& 0 <= j < u.len()
                &&& i != j
                &&& triangle_same(u[i], (a, b, c))
                &&& triangle_same(u[j], (b, c, a))
            },
{
    let t1 = (a, b, c);
    let t2 = (b, c, a);
    let u1 = with_triangle(s, t1);
    let u = with_triangle(u1, t2);
    lemma_with_triangle_canonical(s, t1);
    lemma_with_triangle_canonical(u1, t2);
    lemma_with_triangle_keeps(u1, t2, t1);
    let i = choose|i: int| 0 <= i < u.len() && triangle_same(#[trigger] u[i], t1);
    let j = choose|j: int| 0 <= j < u.len() && triangle_same(#[trigger] u[j], t2);
    if triangle_same(t1, t2) {
        let k = choose|k: int| 0 <= k < u1.len() && triangle_same(#[trigger] u1[k], t1);
        assert(triangle_same(u1[k], t2));
        assert(holds(u1, t2));
    } else {
        if i == j {
            assert(triangle_same(t1, t2));
        }
        assert(triangle_same(u[i], t1) && triangle_same(u[j], t2) && i != j);
    }
}

/// Two sequences in which each triangle comes before the next, and
/// which hold the same triangles, are one sequence.
pub proof fn lemma_one_order(a: Seq<Triangle>, b: Seq<Triangle>, i: int)
    requires
        a.len() == b.len(),
        0 <= i < a.len(),
        forall|i: int, j: int| 0 <= i < j < a.len() ==> triangle_before(a[i], a[j]),
        forall|i: int, j: int| 0 <= i < j < b.len() ==> triangle_before(b[i], b[j]),
        forall|i: int| 0 <= i < a.len() ==> b.contains(#[trigger] a[i]),
        forall|i: int| 0 <= i < b.len() ==> a.contains(#[trigger] b[i]),
    ensures
        a[i] == b[i],
    decreases i,
{
    assert forall|j: int| 0 <= j < i implies a[j] == b[j] by {
        lemma_one_order(a, b, j);
    }
    assert(b.contains(a[i]));
    assert(a.contains(b[i]));
    let p = choose|p: int| 0 <= p < b.len() && b[p] == a[i];
    let q = choose|q: int| 0 <= q < a.len() && a[q] == b[i];
    if p < i {
        assert(a[p] == b[p]);
        assert(triangle_before(a[p], a[i]));
    }
    if q < i {
        assert(a[q] == b[q]);
        assert(triangle_before(b[q], b[i]));
    }
    if p > i {
        assert(triangle_before(b[i], b[p]));
        if q > i {
            assert(triangle_before(a[i], a[q]));
        }
    }
}

/// What a canonical sequence contains after a triangle was put into it:
/// what it contained, and the triangle where none was the same.
pub proof fn lemma_with_triangle_contains(s: Seq<Triangle>, t: Triangle, x: Triangle)
    requires
        canonical(s),
    ensures
        with_triangle(s, t).contains(x) <==> s.contains(x) || (!holds(s, t) && x == t),
        holds(with_triangle(s, t), x) <==> holds(s, x) || (!holds(s, t) && triangle_same(t, x)),
{
    lemma_rank_parts(s, t);
    let r = rank(s, t);
    let u = with_triangle(s, t);
    if !holds(s, t) {
        assert(u[r] == t);
        if s.contains(x) {
            let i = choose|i: int| 0 <= i < s.len() && s[i] == x;
            assert(u[if i < r { i } else { i + 1 }] == x);
        }
        if u.contains(x) {
            let j = choose|j: int| 0 <= j < u.len() && u[j] == x;
            if j < r {
                assert(s[j] == x);
            } else if j > r {
                assert(s[j - 1] == x);
            }
        }
        if holds(s, x) {
            let i = choose|i: int| 0 <= i < s.len() && triangle_same(#[trigger] s[i], x);
            assert(triangle_same(u[if i < r { i } else { i + 1 }], x));
        }
        if holds(u, x) {
            let j = choose|j: int| 0 <= j < u.len() && triangle_same(#[trigger] u[j], x);
            if j < r {
                assert(triangle_same(s[j], x));
            } else if j > r {
                assert(triangle_same(s[j - 1], x));
            }
        }
    }
}

/// The order in which two triangles are put into a mesh does not matter,
/// unless they are the same triangle: then the one that came first stays.
pub proof fn lemma_any_order(s: Seq<Triangle>, a: Triangle, b: Triangle)
    requires
        canonical(s),
        loaded_triangle(a),
        loaded_triangle(b),
        !triangle_same(a, b),
    ensures
        with_triangle(with_triangle(s, a), b) == with_triangle(with_triangle(s, b), a),
{
    let sa = with_triangle(s, a);
    let sb = with_triangle(s, b);
    let u = with_triangle(sa, b);
    let v = with_triangle(sb, a);
    lemma_with_triangle_canonical(s, a);
    lemma_with_triangle_canonical(s, b);
    lemma_with_triangle_canonical(sa, b);
    lemma_with_triangle_canonical(sb, a);
    lemma_with_triangle_contains(s, a, b);
    lemma_with_triangle_contains(s, b, a);
    lemma_with_triangle_len(s, a);
    lemma_with_triangle_len(s, b);
    lemma_with_triangle_len(sa, b);
    lemma_with_triangle_len(sb, a);
    assert(triangle_same(b, a) == triangle_same(a, b));
    assert(u.len() == v.len());
    assert forall|i: int| 0 <= i < u.len() implies v.contains(#[trigger] u[i]) by {
        lemma_with_triangle_contains(sa, b, u[i]);
        lemma_with_triangle_contains(s, a, u[i]);
        lemma_with_triangle_contains(sb, a, u[i]);
        lemma_with_triangle_contains(s, b, u[i]);
    }
    assert forall|i: int| 0 <= i < v.len() implies u.contains(#[trigger] v[i]) by {
        lemma_with_triangle_contains(sa, b, v[i]);
        lemma_with_triangle_contains(s, a, v[i]);
        lemma_with_triangle_contains(sb, a, v[i]);
        lemma_with_triangle_contains(s, b, v[i]);
    }
    assert forall|i: int| 0 <= i < u.len() implies u[i] == v[i] by {
        lemma_one_order(u, v, i);
    }
    assert(u =~= v);
}

} // verus!
