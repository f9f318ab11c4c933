//! Vertices and triangles, and the order in which a mesh keeps them.

use vstd::prelude::*;
use crate::scalar::{encodes_nan, is_nan, lane, lane_of, lemma_lane_range};

verus! {

/// A vertex: a position `x`, `y`, `z` and a brightness, each the bit
/// pattern of a single-precision number.
#[derive(Clone, Copy, Debug)]
pub struct Vertex(pub u32, pub u32, pub u32, pub u32);

/// A triangle: three vertices in the winding order of its source.
pub type Triangle = (Vertex, Vertex, Vertex);

/// The weight of one lane in a vertex key: two to the power 32.
pub open spec fn lane_base() -> int {
    0x1_0000_0000
}

/// The weight of one vertex key in a triangle key: two to the power 128.
pub open spec fn key_base() -> int {
    0x1_0000_0000_0000_0000_0000_0000_0000_0000int
}

impl Default for Vertex {
    /// The vertex at the origin, with brightness zero.
    fn default() -> (v: Vertex)
        ensures
            v == Vertex(0, 0, 0, 0),
    {
        Vertex(0, 0, 0, 0)
    }
}

impl Vertex {
    /// Whether one of the four components is a NaN.
    pub open spec fn has_nan(self) -> bool {
        is_nan(self.0) || is_nan(self.1) || is_nan(self.2) || is_nan(self.3)
    }

    /// Whether the two vertices are equal as numbers, component by
    /// component. Two vertices that differ only in the sign of a zero are
    /// the same vertex.
    pub open spec fn same(self, other: Vertex) -> bool {
        &&& lane(self.0) == lane(other.0)
        &&& lane(self.1) == lane(other.1)
        &&& lane(self.2) == lane(other.2)
        &&& lane(self.3) == lane(other.3)
    }

    /// Whether `self` comes before `other`: the lexicographic order of the
    /// four components, each compared as a number.
    pub open spec fn before(self, other: Vertex) -> bool {
        ||| lane(self.0) < lane(other.0)
        ||| lane(self.0) == lane(other.0) && lane(self.1) < lane(other.1)
        ||| lane(self.0) == lane(other.0) && lane(self.1) == lane(other.1) && lane(self.2) < lane(
            other.2,
        )
        ||| lane(self.0) == lane(other.0) && lane(self.1) == lane(other.1) && lane(self.2) == lane(
            other.2,
        ) && lane(self.3) < lane(other.3)
    }

    /// The four lanes read as the digits of one number, most significant
    /// first. Comparing keys compares vertices: see `lemma_key_orders`.
    #[verifier::opaque]
    pub open spec fn key(self) -> int {
        ((lane(self.0) * lane_base() + lane(self.1)) * lane_base() + lane(self.2)) * lane_base() + lane(
            self.3,
        )
    }

    /// A key fits in 128 bits.
    pub proof fn lemma_key_range(self)
        ensures
            0 < self.key() < key_base(),
    {
        reveal(Vertex::key);
        lemma_lane_range(self.0);
        lemma_lane_range(self.1);
        lemma_lane_range(self.2);
        lemma_lane_range(self.3);
    }

    /// Keys are ordered as vertices are, and equal where vertices are the same.
    pub proof fn lemma_key_orders(self, other: Vertex)
        ensures
            self.key() == other.key() <==> self.same(other),
            self.key() < other.key() <==> self.before(other),
    {
        reveal(Vertex::key);
        lemma_lane_range(self.0);
        lemma_lane_range(self.1);
        lemma_lane_range(self.2);
        lemma_lane_range(self.3);
        lemma_lane_range(other.0);
        lemma_lane_range(other.1);
        lemma_lane_range(other.2);
        lemma_lane_range(other.3);
    }

    /// Tells whether a component is a NaN.
    pub fn contains_nan(&self) -> (r: bool)
        ensures
            r == self.has_nan(),
    {
        encodes_nan(self.0) || encodes_nan(self.1) || encodes_nan(self.2) || encodes_nan(self.3)
    }

    /// Computes the key of the vertex.
    pub fn sort_key(&self) -> (k: u128)
        ensures
            k == self.key(),
    {
        let a: u128 = lane_of(self.0) as u128;
        let b: u128 = lane_of(self.1) as u128;
        let c: u128 = lane_of(self.2) as u128;
        let d: u128 = lane_of(self.3) as u128;
        proof {
            reveal(Vertex::key);
        }
        ((a * 0x1_0000_0000 + b) * 0x1_0000_0000 + c) * 0x1_0000_0000 + d
    }
}

/// Whether the two triangles have the same three vertices in the same
/// winding order. Nothing is rotated or reflected: `(a, b, c)` and
/// `(b, c, a)` are the same triangle only where they are equal corner by
/// corner.
pub open spec fn triangle_same(s: Triangle, t: Triangle) -> bool {
    s.0.same(t.0) && s.1.same(t.1) && s.2.same(t.2)
}

/// The three vertex keys read as the digits of one number, first corner
/// most significant.
#[verifier::opaque]
pub open spec fn triangle_key(t: Triangle) -> int {
    (t.0.key() * key_base() + t.1.key()) * key_base() + t.2.key()
}

/// Whether `s` comes before `t` in a mesh: the lexicographic order of the
/// three corners, as `lemma_triangle_order` shows.
pub open spec fn triangle_before(s: Triangle, t: Triangle) -> bool {
    triangle_key(s) < triangle_key(t)
}

/// Triangle keys compare as the three vertex keys do, first corner first.
pub proof fn lemma_triangle_key_digits(s: Triangle, t: Triangle)
    ensures
        triangle_key(s) == triangle_key(t) <==> {
            &&& s.0.key() == t.0.key()
            &&& s.1.key() == t.1.key()
            &&& s.2.key() == t.2.key()
        },
        triangle_key(s) < triangle_key(t) <==> {
            ||| s.0.key() < t.0.key()
            ||| s.0.key() == t.0.key() && s.1.key() < t.1.key()
            ||| s.0.key() == t.0.key() && s.1.key() == t.1.key() && s.2.key() < t.2.key()
        },
{
    reveal(triangle_key);
    s.0.lemma_key_range();
    s.1.lemma_key_range();
    s.2.lemma_key_range();
    t.0.lemma_key_range();
    t.1.lemma_key_range();
    t.2.lemma_key_range();
}

/// Triangle keys are equal where triangles are the same, and order
/// triangles corner by corner.
pub proof fn lemma_triangle_order(s: Triangle, t: Triangle)
    ensures
        triangle_key(s) == triangle_key(t) <==> triangle_same(s, t),
        triangle_before(s, t) <==> {
            ||| s.0.before(t.0)
            ||| s.0.same(t.0) && s.1.before(t.1)
            ||| s.0.same(t.0) && s.1.same(t.1) && s.2.before(t.2)
        },
{
    lemma_triangle_key_digits(s, t);
    s.0.lemma_key_orders(t.0);
    s.1.lemma_key_orders(t.1);
    s.2.lemma_key_orders(t.2);
}

/// The keys of the three corners, by which an ordered map of std keeps
/// a triangle: tuples of integers are ordered lexicographically.
pub open spec fn corner_keys(t: Triangle) -> (u128, u128, u128) {
    (t.0.key() as u128, t.1.key() as u128, t.2.key() as u128)
}

/// Whether `a` comes before `b` in the lexicographic order of tuples.
pub open spec fn keys_before(a: (u128, u128, u128), b: (u128, u128, u128)) -> bool {
    a.0 < b.0 || (a.0 == b.0 && (a.1 < b.1 || (a.1 == b.1 && a.2 < b.2)))
}

/// Corner keys are equal where triangles are the same, and ordered as
/// triangles are.
pub proof fn lemma_corner_keys(s: Triangle, t: Triangle)
    ensures
        corner_keys(s) == corner_keys(t) <==> triangle_same(s, t),
        keys_before(corner_keys(s), corner_keys(t)) <==> triangle_before(s, t),
{
    lemma_triangle_key_digits(s, t);
    lemma_triangle_order(s, t);
    s.0.lemma_key_range();
    s.1.lemma_key_range();
    s.2.lemma_key_range();
    t.0.lemma_key_range();
    t.1.lemma_key_range();
    t.2.lemma_key_range();
}

/// The keys of the three corners of a triangle.
pub fn triangle_keys(t: &Triangle) -> (k: (u128, u128, u128))
    ensures
        k == corner_keys(*t),
{
    proof {
        t.0.lemma_key_range();
        t.1.lemma_key_range();
        t.2.lemma_key_range();
    }
    (t.0.sort_key(), t.1.sort_key(), t.2.sort_key())
}

} // verus!
