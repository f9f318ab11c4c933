//! Loading: from the records of a mesh description to the triangles of a
//! mesh.

use vstd::prelude::*;
use crate::canonical::{canonical, lemma_with_triangle_canonical, loaded_triangle, with_triangle};
use crate::mesh::ObjFile;
use crate::scalar::{encodes_nan, is_nan, HALF_BITS};
use crate::vertex::{Triangle, Vertex};

verus! {

/// One record of a mesh description, its numbers already read.
#[derive(Clone, Copy, Debug, PartialEq, Eq, Structural)]
pub enum Record {
    /// A vertex: the bit patterns of `x`, `y` and `z`.
    Vertex(u32, u32, u32),
    /// A face: the numbers of its three corners, where 1 is the first
    /// vertex of the description.
    Face(usize, usize, usize),
}

/// What is wrong with a face.
#[derive(Clone, Copy, Debug, PartialEq, Eq, Structural)]
pub enum Fault {
    /// The face names a corner 0, or a vertex that no record in front of
    /// it defines.
    IndexOutOfRange,
    /// The face names a vertex with a NaN in its position: such a vertex
    /// compares with nothing, so that no mesh can hold it.
    NotANumber,
}

/// Why the records could not be loaded: the place of the first record that
/// is wrong, the first record being 0, and what is wrong with it.
#[derive(Clone, Copy, Debug, PartialEq, Eq, Structural)]
pub struct LoadError {
    pub record: usize,
    pub fault: Fault,
}

/// The vertex that a vertex record defines: its position, and the
/// brightness one half.
pub open spec fn fresh_vertex(x: u32, y: u32, z: u32) -> Vertex {
    Vertex(x, y, z, HALF_BITS)
}

/// The vertices that the records define, in order.
pub open spec fn vertex_table(rs: Seq<Record>) -> Seq<Vertex>
    decreases rs.len(),
{
    if rs.len() == 0 {
        Seq::empty()
    } else {
        match rs.last() {
            Record::Vertex(x, y, z) => vertex_table(rs.drop_last()).push(fresh_vertex(x, y, z)),
            Record::Face(_, _, _) => vertex_table(rs.drop_last()),
        }
    }
}

/// Whether `i` numbers one of the vertices of `table`, counted from 1.
pub open spec fn names(table: Seq<Vertex>, i: usize) -> bool {
    1 <= i <= table.len()
}

/// The triangle of a face whose corners `table` defines.
pub open spec fn face_triangle(table: Seq<Vertex>, a: usize, b: usize, c: usize) -> Triangle {
    (table[a - 1], table[b - 1], table[c - 1])
}

/// Whether a position holds a NaN.
pub open spec fn position_has_nan(v: Vertex) -> bool {
    is_nan(v.0) || is_nan(v.1) || is_nan(v.2)
}

/// What is wrong with the record `r`, which follows the vertices of
/// `table`. A vertex record is never wrong, whatever its numbers are; a
/// face is wrong where a corner is not defined yet, else where a corner
/// that it names holds a NaN.
pub open spec fn fault_of(table: Seq<Vertex>, r: Record) -> Option<Fault> {
    match r {
        Record::Vertex(_, _, _) => None,
        Record::Face(a, b, c) => if !(names(table, a) && names(table, b) && names(table, c)) {
            Some(Fault::IndexOutOfRange)
        } else if position_has_nan(table[a - 1]) || position_has_nan(table[b - 1])
            || position_has_nan(table[c - 1]) {
            Some(Fault::NotANumber)
        } else {
            None
        },
    }
}

/// The error of the first record that is wrong, if one is.
pub open spec fn first_error(rs: Seq<Record>) -> Option<LoadError>
    decreases rs.len(),
{
    if rs.len() == 0 {
        None
    } else {
        match first_error(rs.drop_last()) {
            Some(e) => Some(e),
            None => match fault_of(vertex_table(rs.drop_last()), rs.last()) {
                Some(fault) => Some(LoadError { record: (rs.len() - 1) as usize, fault }),
                None => None,
            },
        }
    }
}

/// The triangles of the faces among the records, in order. Each face
/// names vertices that records in front of it define.
pub open spec fn face_triangles(rs: Seq<Record>) -> Seq<Triangle>
    decreases rs.len(),
{
    if rs.len() == 0 {
        Seq::empty()
    } else {
        match rs.last() {
            Record::Vertex(_, _, _) => face_triangles(rs.drop_last()),
            Record::Face(a, b, c) => face_triangles(rs.drop_last()).push(
                face_triangle(vertex_table(rs.drop_last()), a, b, c),
            ),
        }
    }
}

/// The canonical sequence `s` after the triangles `ts` were put into it,
/// one after the other.
pub open spec fn with_triangles(s: Seq<Triangle>, ts: Seq<Triangle>) -> Seq<Triangle>
    decreases ts.len(),
{
    if ts.len() == 0 {
        s
    } else {
        with_triangle(with_triangles(s, ts.drop_last()), ts.last())
    }
}

/// Tells whether a position holds a NaN.
fn position_nan(v: &Vertex) -> (r: bool)
    ensures
        r == position_has_nan(*v),
{
    encodes_nan(v.0) || encodes_nan(v.1) || encodes_nan(v.2)
}

/// Reads the records into triangles, or finds the first that is wrong.
pub fn triangles_of(records: &Vec<Record>) -> (r: Result<Vec<Triangle>, LoadError>)
    ensures
        match r {
            Ok(ts) => {
                &&& first_error(records@) is None
                &&& ts@ == face_triangles(records@)
                &&& forall|i: int| 0 <= i < ts@.len() ==> loaded_triangle(#[trigger] ts@[i])
            },
            Err(e) => first_error(records@) == Some(e),
        },
{
    let mut table: Vec<Vertex> = Vec::new();
    let mut staged: Vec<Triangle> = Vec::new();
    let mut i: usize = 0;
    while i < records.len()
        invariant
            i <= records.len(),
            first_error(records@.take(i as int)) is None,
            table@ == vertex_table(records@.take(i as int)),
            staged@ == face_triangles(records@.take(i as int)),
            forall|j: int|
                0 <= j < table@.len() ==> (#[trigger] table@[j]).3 == HALF_BITS,
            forall|j: int| 0 <= j < staged@.len() ==> loaded_triangle(#[trigger] staged@[j]),
        decreases records.len() - i,
    {
        proof {
            assert(records@.take(i + 1).drop_last() =~= records@.take(i as int));
            assert(records@.take(i + 1).last() == records@[i as int]);
        }
        match records[i] {
            Record::Vertex(x, y, z) => {
                table.push(Vertex(x, y, z, HALF_BITS));
            },
            Record::Face(a, b, c) => {
                let n: usize = table.len();
                if a < 1 || a > n || b < 1 || b > n || c < 1 || c > n {
                    proof {
                        lemma_first_error_stays(records@, i + 1);
                    }
                    return Err(LoadError { record: i, fault: Fault::IndexOutOfRange });
                }
                let t: Triangle = (table[a - 1], table[b - 1], table[c - 1]);
                if position_nan(&t.0) || position_nan(&t.1) || position_nan(&t.2) {
                    proof {
                        lemma_first_error_stays(records@, i + 1);
                    }
                    return Err(LoadError { record: i, fault: Fault::NotANumber });
                }
                staged.push(t);
            },
        }
        i += 1;
    }
    proof {
        assert(records@.take(i as int) =~= records@);
    }
    Ok(staged)
}

/// An error among the first `k` records is the error of all of them.
pub proof fn lemma_first_error_stays(rs: Seq<Record>, k: int)
    requires
        0 <= k <= rs.len(),
        first_error(rs.take(k)) is Some,
    ensures
        first_error(rs) == first_error(rs.take(k)),
    decreases rs.len(),
{
    if k == rs.len() {
        assert(rs.take(k) =~= rs);
    } else {
        let head = rs.drop_last();
        assert(head.take(k) =~= rs.take(k));
        lemma_first_error_stays(head, k);
    }
}

/// Putting triangles that can stand in a mesh into a canonical sequence
/// leaves it canonical.
pub proof fn lemma_with_triangles_canonical(s: Seq<Triangle>, ts: Seq<Triangle>)
    requires
        canonical(s),
        forall|i: int| 0 <= i < ts.len() ==> loaded_triangle(#[trigger] ts[i]),
    ensures
        canonical(with_triangles(s, ts)),
    decreases ts.len(),
{
    if ts.len() > 0 {
        let head = ts.drop_last();
        assert forall|i: int| 0 <= i < head.len() implies loaded_triangle(#[trigger] head[i]) by {
            assert(head[i] == ts[i]);
        }
        lemma_with_triangles_canonical(s, head);
        lemma_with_triangle_canonical(with_triangles(s, head), ts.last());
    }
}

/// Loading one description and then another is loading the triangles of
/// both, those of the first description first.
pub proof fn lemma_loads_accumulate(s: Seq<Triangle>, first: Seq<Triangle>, second: Seq<Triangle>)
    ensures
        with_triangles(with_triangles(s, first), second) == with_triangles(s, first + second),
    decreases second.len(),
{
    if second.len() == 0 {
        assert(first + second =~= first);
    } else {
        lemma_loads_accumulate(s, first, second.drop_last());
        assert((first + second).drop_last() =~= first + second.drop_last());
    }
}

impl ObjFile {
    /// Loads the records of one mesh description into the mesh.
    ///
    /// The records are taken in order. A vertex record defines the next
    /// vertex of this description, the first being number 1. A face names
    /// three of the vertices defined so far; its triangle is put into the
    /// mesh, unless the mesh holds the same triangle already. Triangles of
    /// earlier calls stay. Where a record is wrong, the call fails with the
    /// error of the first such record, and leaves the mesh as it was.
    pub fn load(&mut self, records: &Vec<Record>) -> (r: Result<(), LoadError>)
        ensures
            canonical(final(self)@),
            match r {
                Ok(()) => {
                    &&& first_error(records@) is None
                    &&& final(self)@ == with_triangles(old(self)@, face_triangles(records@))
                },
                Err(e) => first_error(records@) == Some(e) && final(self)@ == old(self)@,
            },
    {
        proof {
            use_type_invariant(&*self);
            self.lemma_in_order();
        }
        let staged: Vec<Triangle> = match triangles_of(records) {
            Ok(staged) => staged,
            Err(e) => {
                return Err(e);
            },
        };
        let mut i: usize = 0;
        while i < staged.len()
            invariant
                i <= staged.len(),
                canonical(self@),
                self@ == with_triangles(old(self)@, staged@.take(i as int)),
                forall|j: int| 0 <= j < staged@.len() ==> loaded_triangle(#[trigger] staged@[j]),
            decreases staged.len() - i,
        {
            proof {
                assert(staged@.take(i + 1).drop_last() =~= staged@.take(i as int));
            }
            self.insert(staged[i]);
            i += 1;
        }
        proof {
            assert(staged@.take(i as int) =~= staged@);
        }
        Ok(())
    }
}

} // verus!
