//! `==` and `<` on vertices, with the meaning they have on numbers: a NaN
//! is equal to nothing and ordered with nothing, and the two zeros are
//! equal.

use core::cmp::Ordering;
use vstd::prelude::*;
use vstd::std_specs::cmp::{PartialEqSpec, PartialOrdSpec};
use crate::scalar::{encodes_nan, is_nan, lane, lane_of};
use crate::vertex::Vertex;

verus! {

/// Whether the two encodings are equal as numbers.
pub open spec fn scalar_equal(a: u32, b: u32) -> bool {
    !is_nan(a) && !is_nan(b) && lane(a) == lane(b)
}

/// How the two encodings are ordered as numbers: not at all where one
/// is a NaN.
pub open spec fn scalar_order(a: u32, b: u32) -> Option<Ordering> {
    if is_nan(a) || is_nan(b) {
        None
    } else if lane(a) < lane(b) {
        Some(Ordering::Less)
    } else if lane(a) == lane(b) {
        Some(Ordering::Equal)
    } else {
        Some(Ordering::Greater)
    }
}

/// The order of the first pair of numbers that is not a pair of equals;
/// `rest` where there is no such pair in front of it.
pub open spec fn order_then(first: Option<Ordering>, rest: Option<Ordering>) -> Option<Ordering> {
    match first {
        Some(Ordering::Equal) => rest,
        _ => first,
    }
}

/// Orders two encodings as numbers.
pub fn order_of(a: u32, b: u32) -> (r: Option<Ordering>)
    ensures
        r == scalar_order(a, b),
{
    if encodes_nan(a) || encodes_nan(b) {
        None
    } else {
        let x: u32 = lane_of(a);
        let y: u32 = lane_of(b);
        if x < y {
            Some(Ordering::Less)
        } else if x == y {
            Some(Ordering::Equal)
        } else {
            Some(Ordering::Greater)
        }
    }
}

impl PartialEq for Vertex {
    /// Whether the two vertices are equal as numbers, component by
    /// component.
    fn eq(&self, other: &Vertex) -> (r: bool) {
        !encodes_nan(self.0) && !encodes_nan(other.0) && lane_of(self.0) == lane_of(other.0)
            && !encodes_nan(self.1) && !encodes_nan(other.1) && lane_of(self.1) == lane_of(other.1)
            && !encodes_nan(self.2) && !encodes_nan(other.2) && lane_of(self.2) == lane_of(other.2)
            && !encodes_nan(self.3) && !encodes_nan(other.3) && lane_of(self.3) == lane_of(other.3)
    }
}

impl vstd::std_specs::cmp::PartialEqSpecImpl for Vertex {
    open spec fn obeys_eq_spec() -> bool {
        true
    }

    open spec fn eq_spec(&self, other: &Vertex) -> bool {
        &&& scalar_equal(self.0, other.0)
        &&& scalar_equal(self.1, other.1)
        &&& scalar_equal(self.2, other.2)
        &&& scalar_equal(self.3, other.3)
    }
}

impl PartialOrd for Vertex {
    /// Orders two vertices lexicographically, each component as a
    /// number. A NaN in the first components that are not equal leaves
    /// the vertices unordered.
    fn partial_cmp(&self, other: &Vertex) -> (r: Option<Ordering>) {
        match order_of(self.0, other.0) {
            Some(Ordering::Equal) => match order_of(self.1, other.1) {
                Some(Ordering::Equal) => match order_of(self.2, other.2) {
                    Some(Ordering::Equal) => order_of(self.3, other.3),
                    o => o,
                },
                o => o,
            },
            o => o,
        }
    }
}

impl vstd::std_specs::cmp::PartialOrdSpecImpl for Vertex {
    open spec fn obeys_partial_cmp_spec() -> bool {
        true
    }

    open spec fn partial_cmp_spec(&self, other: &Vertex) -> Option<Ordering> {
        order_then(
            scalar_order(self.0, other.0),
            order_then(
                scalar_order(self.1, other.1),
                order_then(scalar_order(self.2, other.2), scalar_order(self.3, other.3)),
            ),
        )
    }
}

/// On vertices without a NaN, `==` is `same` and `<` is `before`: the
/// order of a mesh is the order of the numbers.
pub proof fn lemma_order_agrees(a: Vertex, b: Vertex)
    requires
        !a.has_nan(),
        !b.has_nan(),
    ensures
        a.eq_spec(&b) <==> a.same(b),
        a.partial_cmp_spec(&b) == Some(Ordering::Equal) <==> a.same(b),
        a.partial_cmp_spec(&b) == Some(Ordering::Less) <==> a.before(b),
        a.partial_cmp_spec(&b) == Some(Ordering::Greater) <==> b.before(a),
{
}

} // verus!
