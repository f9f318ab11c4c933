//! The vertex-buffer file: a count and that many vertices, then a count
//! and that many index triples, every number little-endian.
//!
//! A vertex is written with three numbers (its position) or with four (its
//! position and brightness). The file does not say which: writer and reader
//! agree on it beforehand.

use vstd::prelude::*;
use crate::vertex::Vertex;
use crate::bytes::{
    de32, de64, le32, le64, lemma_de32_le32, lemma_de64_le64, lemma_le32_de32, lemma_le64_de64,
    push_u32, push_u64, read_u32, read_u64,
};

verus! {

/// Why a file could not be read: where it ends too early.
#[derive(Clone, Copy, Debug, PartialEq, Eq, Structural)]
pub enum ReadError {
    /// The file is shorter than the vertex count itself.
    VertexCount,
    /// The file ends before the vertices that it declares, or before the
    /// triangle count that follows them.
    Vertices,
    /// The file ends before the index triples that it declares.
    Triangles,
}

/// The twelve bytes of a triple of numbers.
pub open spec fn triple_bytes(t: (u32, u32, u32)) -> Seq<u8> {
    le32(t.0) + le32(t.1) + le32(t.2)
}

/// The bytes of a run of triples, one after the other.
pub open spec fn triples_bytes(ts: Seq<(u32, u32, u32)>) -> Seq<u8>
    decreases ts.len(),
{
    if ts.len() == 0 {
        Seq::empty()
    } else {
        triples_bytes(ts.drop_last()) + triple_bytes(ts.last())
    }
}

/// The triple whose twelve bytes start at `at`.
pub open spec fn triple_at(b: Seq<u8>, at: int) -> (u32, u32, u32) {
    (
        de32(b.subrange(at, at + 4)),
        de32(b.subrange(at + 4, at + 8)),
        de32(b.subrange(at + 8, at + 12)),
    )
}

/// The `n` triples that start at `at`.
pub open spec fn triples_at(b: Seq<u8>, at: int, n: int) -> Seq<(u32, u32, u32)> {
    Seq::new(n as nat, |i: int| triple_at(b, at + 12 * i))
}

/// The file that holds the positions `vs` and the index triples `is`.
pub open spec fn position_file(vs: Seq<(u32, u32, u32)>, is: Seq<(u32, u32, u32)>) -> Seq<u8> {
    le64(vs.len() as u64) + triples_bytes(vs) + le64(is.len() as u64) + triples_bytes(is)
}

/// What a reader finds in `b`, read as a file of positions: the two lists,
/// or the place where `b` ends too early. Bytes after the last declared
/// triple are not looked at.
pub open spec fn parse_position_file(b: Seq<u8>) -> Result<
    (Seq<(u32, u32, u32)>, Seq<(u32, u32, u32)>),
    ReadError,
> {
    if b.len() < 8 {
        Err(ReadError::VertexCount)
    } else {
        let n = de64(b.subrange(0, 8)) as int;
        let mid = 8 + 12 * n;
        if b.len() < mid + 8 {
            Err(ReadError::Vertices)
        } else {
            let m = de64(b.subrange(mid, mid + 8)) as int;
            if b.len() < mid + 8 + 12 * m {
                Err(ReadError::Triangles)
            } else {
                Ok((triples_at(b, 8, n), triples_at(b, mid + 8, m)))
            }
        }
    }
}

/// How many bytes of a well-formed file `b` belong to it.
pub open spec fn position_file_len(b: Seq<u8>) -> int
    recommends
        parse_position_file(b) is Ok,
{
    let n = de64(b.subrange(0, 8)) as int;
    let m = de64(b.subrange(8 + 12 * n, 16 + 12 * n)) as int;
    16 + 12 * n + 12 * m
}

/// A run of `n` triples takes `12 * n` bytes.
pub proof fn lemma_triples_bytes_len(ts: Seq<(u32, u32, u32)>)
    ensures
        triples_bytes(ts).len() == 12 * ts.len(),
    decreases ts.len(),
{
    if ts.len() > 0 {
        lemma_triples_bytes_len(ts.drop_last());
        lemma_de32_le32(ts.last().0);
        lemma_de32_le32(ts.last().1);
        lemma_de32_le32(ts.last().2);
    }
}

/// A triple is read back from where its bytes lie.
pub proof fn lemma_triple_at_bytes(b: Seq<u8>, at: int, t: (u32, u32, u32))
    requires
        0 <= at,
        at + 12 <= b.len(),
        b.subrange(at, at + 12) == triple_bytes(t),
    ensures
        triple_at(b, at) == t,
{
    lemma_de32_le32(t.0);
    lemma_de32_le32(t.1);
    lemma_de32_le32(t.2);
    let w = b.subrange(at, at + 12);
    assert(b.subrange(at, at + 4) =~= w.subrange(0, 4));
    assert(b.subrange(at + 4, at + 8) =~= w.subrange(4, 8));
    assert(b.subrange(at + 8, at + 12) =~= w.subrange(8, 12));
    assert(w.subrange(0, 4) =~= le32(t.0));
    assert(w.subrange(4, 8) =~= le32(t.1));
    assert(w.subrange(8, 12) =~= le32(t.2));
}

/// The bytes of the triple found at `at` are the bytes found there.
pub proof fn lemma_bytes_triple_at(b: Seq<u8>, at: int)
    requires
        0 <= at,
        at + 12 <= b.len(),
    ensures
        triple_bytes(triple_at(b, at)) == b.subrange(at, at + 12),
{
    lemma_le32_de32(b.subrange(at, at + 4));
    lemma_le32_de32(b.subrange(at + 4, at + 8));
    lemma_le32_de32(b.subrange(at + 8, at + 12));
    assert(triple_bytes(triple_at(b, at)) =~= b.subrange(at, at + 12));
}

/// A run of triples is read back from where its bytes lie.
pub proof fn lemma_triples_at_bytes(b: Seq<u8>, at: int, ts: Seq<(u32, u32, u32)>)
    requires
        0 <= at,
        at + 12 * ts.len() <= b.len(),
        b.subrange(at, at + 12 * ts.len()) == triples_bytes(ts),
    ensures
        triples_at(b, at, ts.len() as int) == ts,
    decreases ts.len(),
{
    if ts.len() > 0 {
        let k = ts.len() - 1;
        let head = ts.drop_last();
        lemma_triples_bytes_len(head);
        lemma_triples_bytes_len(ts);
        let w = b.subrange(at, at + 12 * ts.len());
        assert(b.subrange(at, at + 12 * k) =~= w.subrange(0, 12 * k));
        assert(w.subrange(0, 12 * k) =~= triples_bytes(head));
        lemma_triples_at_bytes(b, at, head);
        assert(b.subrange(at + 12 * k, at + 12 * k + 12) =~= w.subrange(12 * k, 12 * k + 12));
        assert(w.subrange(12 * k, 12 * k + 12) =~= triple_bytes(ts.last()));
        lemma_triple_at_bytes(b, at + 12 * k, ts.last());
        assert forall|i: int| 0 <= i < ts.len() implies triples_at(b, at, ts.len() as int)[i] == ts[i] by {
            if i < k {
                assert(triples_at(b, at, head.len() as int)[i] == head[i]);
            }
        }
    }
    assert(triples_at(b, at, ts.len() as int) =~= ts);
}

/// The bytes of the run of triples found at `at` are the bytes found there.
pub proof fn lemma_bytes_triples_at(b: Seq<u8>, at: int, n: int)
    requires
        0 <= at,
        0 <= n,
        at + 12 * n <= b.len(),
    ensures
        triples_bytes(triples_at(b, at, n)) == b.subrange(at, at + 12 * n),
    decreases n,
{
    let ts = triples_at(b, at, n);
    if n > 0 {
        let k = n - 1;
        assert(ts.drop_last() =~= triples_at(b, at, k));
        lemma_bytes_triples_at(b, at, k);
        lemma_bytes_triple_at(b, at + 12 * k);
        assert(ts.last() == triple_at(b, at + 12 * k));
        assert(b.subrange(at, at + 12 * k) + b.subrange(at + 12 * k, at + 12 * k + 12)
            =~= b.subrange(at, at + 12 * n));
    } else {
        assert(triples_bytes(ts) =~= b.subrange(at, at + 12 * n));
    }
}

/// Reading undoes writing: a reader of the file written from `vs` and `is`
/// finds `vs` and `is`, whatever follows the file.
pub proof fn lemma_read_after_write(
    vs: Seq<(u32, u32, u32)>,
    is: Seq<(u32, u32, u32)>,
    rest: Seq<u8>,
)
    requires
        vs.len() <= u64::MAX,
        is.len() <= u64::MAX,
    ensures
        parse_position_file(position_file(vs, is) + rest) == Ok::<_, ReadError>((vs, is)),
        position_file_len(position_file(vs, is) + rest) == position_file(vs, is).len(),
{
    let n = vs.len() as int;
    let m = is.len() as int;
    let b = position_file(vs, is) + rest;
    lemma_de64_le64(n as u64);
    lemma_de64_le64(m as u64);
    lemma_triples_bytes_len(vs);
    lemma_triples_bytes_len(is);
    let mid = 8 + 12 * n;
    assert(b.subrange(0, 8) =~= le64(n as u64));
    assert(b.subrange(8, 8 + 12 * n) =~= triples_bytes(vs));
    assert(b.subrange(mid, mid + 8) =~= le64(m as u64));
    assert(b.subrange(mid + 8, mid + 8 + 12 * m) =~= triples_bytes(is));
    lemma_triples_at_bytes(b, 8, vs);
    lemma_triples_at_bytes(b, mid + 8, is);
}

/// Writing undoes reading: what a reader finds in `b`, written again, is
/// the part of `b` that was read, byte for byte.
pub proof fn lemma_write_after_read(b: Seq<u8>)
    requires
        parse_position_file(b) is Ok,
    ensures
        0 <= position_file_len(b) <= b.len(),
        position_file(parse_position_file(b)->Ok_0.0, parse_position_file(b)->Ok_0.1)
            == b.subrange(0, position_file_len(b)),
{
    let n = de64(b.subrange(0, 8)) as int;
    let mid = 8 + 12 * n;
    let m = de64(b.subrange(mid, mid + 8)) as int;
    let end = mid + 8 + 12 * m;
    let vs = triples_at(b, 8, n);
    let is = triples_at(b, mid + 8, m);
    let count_a = le64(vs.len() as u64);
    let run_a = triples_bytes(vs);
    let count_b = le64(is.len() as u64);
    let run_b = triples_bytes(is);
    assert(count_a == b.subrange(0, 8)) by {
        lemma_le64_de64(b.subrange(0, 8));
    }
    assert(run_a == b.subrange(8, mid)) by {
        lemma_bytes_triples_at(b, 8, n);
    }
    assert(count_b == b.subrange(mid, mid + 8)) by {
        lemma_le64_de64(b.subrange(mid, mid + 8));
    }
    assert(run_b == b.subrange(mid + 8, end)) by {
        lemma_bytes_triples_at(b, mid + 8, m);
    }
    lemma_join_four(b, 8, mid, mid + 8, end);
}

/// Four adjoining ranges of `b`, joined, are one range.
proof fn lemma_join_four(b: Seq<u8>, i: int, j: int, k: int, l: int)
    requires
        0 <= i <= j <= k <= l <= b.len(),
    ensures
        b.subrange(0, i) + b.subrange(i, j) + b.subrange(j, k) + b.subrange(k, l) == b.subrange(
            0,
            l,
        ),
{
    assert(b.subrange(0, i) + b.subrange(i, j) + b.subrange(j, k) + b.subrange(k, l)
        =~= b.subrange(0, l));
}

/// Appends the bytes of a run of triples to `out`.
pub fn push_triples(out: &mut Vec<u8>, ts: &Vec<(u32, u32, u32)>)
    ensures
        final(out)@ == old(out)@ + triples_bytes(ts@),
{
    let mut i: usize = 0;
    while i < ts.len()
        invariant
            i <= ts.len(),
            out@ == old(out)@ + triples_bytes(ts@.take(i as int)),
        decreases ts.len() - i,
    {
        let t: (u32, u32, u32) = ts[i];
        push_u32(out, t.0);
        push_u32(out, t.1);
        push_u32(out, t.2);
        proof {
            let next = ts@.take(i + 1);
            assert(next.drop_last() =~= ts@.take(i as int));
            assert(next.last() == t);
            assert(out@ =~= old(out)@ + triples_bytes(next));
        }
        i += 1;
    }
    proof {
        assert(ts@.take(ts.len() as int) =~= ts@);
    }
}

/// Reads the `n` triples that start at `at`.
pub fn read_triples(bytes: &[u8], at: usize, n: usize) -> (ts: Vec<(u32, u32, u32)>)
    requires
        at + 12 * n <= bytes.len(),
    ensures
        ts@ == triples_at(bytes@, at as int, n as int),
{
    let mut ts: Vec<(u32, u32, u32)> = Vec::new();
    let mut i: usize = 0;
    while i < n
        invariant
            i <= n,
            at + 12 * n <= bytes.len(),
            ts@ == triples_at(bytes@, at as int, i as int),
        decreases n - i,
    {
        let p: usize = at + 12 * i;
        let a: u32 = read_u32(bytes, p);
        let b: u32 = read_u32(bytes, p + 4);
        let c: u32 = read_u32(bytes, p + 8);
        ts.push((a, b, c));
        i += 1;
        assert(ts@ =~= triples_at(bytes@, at as int, i as int));
    }
    ts
}

/// Writes the file that holds the positions `vertices` and the index
/// triples `indices`.
pub fn write_falkvbo(vertices: &Vec<(u32, u32, u32)>, indices: &Vec<(u32, u32, u32)>) -> (out:
    Vec<u8>)
    ensures
        out@ == position_file(vertices@, indices@),
{
    let mut out: Vec<u8> = Vec::new();
    push_u64(&mut out, vertices.len() as u64);
    push_triples(&mut out, vertices);
    push_u64(&mut out, indices.len() as u64);
    push_triples(&mut out, indices);
    assert(out@ =~= position_file(vertices@, indices@));
    out
}

/// Reads a file of positions and index triples.
///
/// Succeeds exactly when `bytes` is long enough for the two counts and for
/// what they declare; otherwise says where `bytes` ends too early.
pub fn load_falkvbo(bytes: &[u8]) -> (r: Result<
    (Vec<(u32, u32, u32)>, Vec<(u32, u32, u32)>),
    ReadError,
>)
    ensures
        match r {
            Ok((vs, is)) => parse_position_file(bytes@) == Ok::<_, ReadError>((vs@, is@)),
            Err(e) => parse_position_file(bytes@) == Err::<
                (Seq<(u32, u32, u32)>, Seq<(u32, u32, u32)>),
                _,
            >(e),
        },
{
    let len: usize = bytes.len();
    if len < 8 {
        return Err(ReadError::VertexCount);
    }
    let n: u64 = read_u64(bytes, 0);
    if len < 16 || n > ((len - 16) / 12) as u64 {
        return Err(ReadError::Vertices);
    }
    let count: usize = n as usize;
    let mid: usize = 8 + 12 * count;
    let vs: Vec<(u32, u32, u32)> = read_triples(bytes, 8, count);
    let m: u64 = read_u64(bytes, mid);
    if m > ((len - mid - 8) / 12) as u64 {
        return Err(ReadError::Triangles);
    }
    let is: Vec<(u32, u32, u32)> = read_triples(bytes, mid + 8, m as usize);
    Ok((vs, is))
}

/// The sixteen bytes of a vertex: position and brightness.
pub open spec fn vertex_bytes(v: Vertex) -> Seq<u8> {
    le32(v.0) + le32(v.1) + le32(v.2) + le32(v.3)
}

/// The bytes of a run of vertices, one after the other.
pub open spec fn vertices_bytes(vs: Seq<Vertex>) -> Seq<u8>
    decreases vs.len(),
{
    if vs.len() == 0 {
        Seq::empty()
    } else {
        vertices_bytes(vs.drop_last()) + vertex_bytes(vs.last())
    }
}

/// The vertex whose sixteen bytes start at `at`.
pub open spec fn vertex_at(b: Seq<u8>, at: int) -> Vertex {
    Vertex(
        de32(b.subrange(at, at + 4)),
        de32(b.subrange(at + 4, at + 8)),
        de32(b.subrange(at + 8, at + 12)),
        de32(b.subrange(at + 12, at + 16)),
    )
}

/// The `n` vertices that start at `at`.
pub open spec fn vertices_at(b: Seq<u8>, at: int, n: int) -> Seq<Vertex> {
    Seq::new(n as nat, |i: int| vertex_at(b, at + 16 * i))
}

/// The file that holds the vertices `vs`, each with its brightness, and
/// the index triples `is`.
pub open spec fn lit_file(vs: Seq<Vertex>, is: Seq<(u32, u32, u32)>) -> Seq<u8> {
    le64(vs.len() as u64) + vertices_bytes(vs) + le64(is.len() as u64) + triples_bytes(is)
}

/// What a reader finds in `b`, read as a file of vertices with their
/// brightness: the two lists, or the place where `b` ends too early.
pub open spec fn parse_lit_file(b: Seq<u8>) -> Result<
    (Seq<Vertex>, Seq<(u32, u32, u32)>),
    ReadError,
> {
    if b.len() < 8 {
        Err(ReadError::VertexCount)
    } else {
        let n = de64(b.subrange(0, 8)) as int;
        let mid = 8 + 16 * n;
        if b.len() < mid + 8 {
            Err(ReadError::Vertices)
        } else {
            let m = de64(b.subrange(mid, mid + 8)) as int;
            if b.len() < mid + 8 + 12 * m {
                Err(ReadError::Triangles)
            } else {
                Ok((vertices_at(b, 8, n), triples_at(b, mid + 8, m)))
            }
        }
    }
}

/// How many bytes of a well-formed file `b` belong to it.
pub open spec fn lit_file_len(b: Seq<u8>) -> int
    recommends
        parse_lit_file(b) is Ok,
{
    let n = de64(b.subrange(0, 8)) as int;
    let m = de64(b.subrange(8 + 16 * n, 16 + 16 * n)) as int;
    16 + 16 * n + 12 * m
}

/// A run of `n` vertices takes `16 * n` bytes.
pub proof fn lemma_vertices_bytes_len(vs: Seq<Vertex>)
    ensures
        vertices_bytes(vs).len() == 16 * vs.len(),
    decreases vs.len(),
{
    if vs.len() > 0 {
        lemma_vertices_bytes_len(vs.drop_last());
        lemma_de32_le32(vs.last().0);
        lemma_de32_le32(vs.last().1);
        lemma_de32_le32(vs.last().2);
        lemma_de32_le32(vs.last().3);
    }
}

/// A vertex is read back from where its bytes lie.
pub proof fn lemma_vertex_at_bytes(b: Seq<u8>, at: int, v: Vertex)
    requires
        0 <= at,
        at + 16 <= b.len(),
        b.subrange(at, at + 16) == vertex_bytes(v),
    ensures
        vertex_at(b, at) == v,
{
    lemma_de32_le32(v.0);
    lemma_de32_le32(v.1);
    lemma_de32_le32(v.2);
    lemma_de32_le32(v.3);
    let w = b.subrange(at, at + 16);
    assert(b.subrange(at, at + 4) =~= w.subrange(0, 4));
    assert(b.subrange(at + 4, at + 8) =~= w.subrange(4, 8));
    assert(b.subrange(at + 8, at + 12) =~= w.subrange(8, 12));
    assert(b.subrange(at + 12, at + 16) =~= w.subrange(12, 16));
    assert(w.subrange(0, 4) =~= le32(v.0));
    assert(w.subrange(4, 8) =~= le32(v.1));
    assert(w.subrange(8, 12) =~= le32(v.2));
    assert(w.subrange(12, 16) =~= le32(v.3));
}

/// The bytes of the vertex found at `at` are the bytes found there.
pub proof fn lemma_bytes_vertex_at(b: Seq<u8>, at: int)
    requires
        0 <= at,
        at + 16 <= b.len(),
    ensures
        vertex_bytes(vertex_at(b, at)) == b.subrange(at, at + 16),
{
    lemma_le32_de32(b.subrange(at, at + 4));
    lemma_le32_de32(b.subrange(at + 4, at + 8));
    lemma_le32_de32(b.subrange(at + 8, at + 12));
    lemma_le32_de32(b.subrange(at + 12, at + 16));
    assert(vertex_bytes(vertex_at(b, at)) =~= b.subrange(at, at + 16));
}

/// A run of vertices is read back from where its bytes lie.
pub proof fn lemma_vertices_at_bytes(b: Seq<u8>, at: int, vs: Seq<Vertex>)
    requires
        0 <= at,
        at + 16 * vs.len() <= b.len(),
        b.subrange(at, at + 16 * vs.len()) == vertices_bytes(vs),
    ensures
        vertices_at(b, at, vs.len() as int) == vs,
    decreases vs.len(),
{
    if vs.len() > 0 {
        let k = vs.len() - 1;
        let head = vs.drop_last();
        lemma_vertices_bytes_len(head);
        lemma_vertices_bytes_len(vs);
        let w = b.subrange(at, at + 16 * vs.len());
        assert(b.subrange(at, at + 16 * k) =~= w.subrange(0, 16 * k));
        assert(w.subrange(0, 16 * k) =~= vertices_bytes(head));
        lemma_vertices_at_bytes(b, at, head);
        assert(b.subrange(at + 16 * k, at + 16 * k + 16) =~= w.subrange(16 * k, 16 * k + 16));
        assert(w.subrange(16 * k, 16 * k + 16) =~= vertex_bytes(vs.last()));
        lemma_vertex_at_bytes(b, at + 16 * k, vs.last());
        assert forall|i: int| 0 <= i < vs.len() implies vertices_at(b, at, vs.len() as int)[i]
            == vs[i] by {
            if i < k {
                assert(vertices_at(b, at, head.len() as int)[i] == head[i]);
            }
        }
    }
    assert(vertices_at(b, at, vs.len() as int) =~= vs);
}

/// The bytes of the run of vertices found at `at` are the bytes found
/// there.
pub proof fn lemma_bytes_vertices_at(b: Seq<u8>, at: int, n: int)
    requires
        0 <= at,
        0 <= n,
        at + 16 * n <= b.len(),
    ensures
        vertices_bytes(vertices_at(b, at, n)) == b.subrange(at, at + 16 * n),
    decreases n,
{
    let vs = vertices_at(b, at, n);
    if n > 0 {
        let k = n - 1;
        assert(vs.drop_last() =~= vertices_at(b, at, k));
        lemma_bytes_vertices_at(b, at, k);
        lemma_bytes_vertex_at(b, at + 16 * k);
        assert(vs.last() == vertex_at(b, at + 16 * k));
        assert(b.subrange(at, at + 16 * k) + b.subrange(at + 16 * k, at + 16 * k + 16)
            =~= b.subrange(at, at + 16 * n));
    } else {
        assert(vertices_bytes(vs) =~= b.subrange(at, at + 16 * n));
    }
}

/// Reading undoes writing, for vertices with their brightness.
pub proof fn lemma_read_after_write_lit(
    vs: Seq<Vertex>,
    is: Seq<(u32, u32, u32)>,
    rest: Seq<u8>,
)
    requires
        vs.len() <= u64::MAX,
        is.len() <= u64::MAX,
    ensures
        parse_lit_file(lit_file(vs, is) + rest) == Ok::<_, ReadError>((vs, is)),
        lit_file_len(lit_file(vs, is) + rest) == lit_file(vs, is).len(),
{
    let n = vs.len() as int;
    let m = is.len() as int;
    let b = lit_file(vs, is) + rest;
    lemma_de64_le64(n as u64);
    lemma_de64_le64(m as u64);
    lemma_vertices_bytes_len(vs);
    lemma_triples_bytes_len(is);
    let mid = 8 + 16 * n;
    assert(b.subrange(0, 8) =~= le64(n as u64));
    assert(b.subrange(8, 8 + 16 * n) =~= vertices_bytes(vs));
    assert(b.subrange(mid, mid + 8) =~= le64(m as u64));
    assert(b.subrange(mid + 8, mid + 8 + 12 * m) =~= triples_bytes(is));
    lemma_vertices_at_bytes(b, 8, vs);
    lemma_triples_at_bytes(b, mid + 8, is);
}

/// Writing undoes reading, for vertices with their brightness.
pub proof fn lemma_write_after_read_lit(b: Seq<u8>)
    requires
        parse_lit_file(b) is Ok,
    ensures
        0 <= lit_file_len(b) <= b.len(),
        lit_file(parse_lit_file(b)->Ok_0.0, parse_lit_file(b)->Ok_0.1) == b.subrange(
            0,
            lit_file_len(b),
        ),
{
    let n = de64(b.subrange(0, 8)) as int;
    let mid = 8 + 16 * n;
    let m = de64(b.subrange(mid, mid + 8)) as int;
    let end = mid + 8 + 12 * m;
    let vs = vertices_at(b, 8, n);
    let is = triples_at(b, mid + 8, m);
    let count_a = le64(vs.len() as u64);
    let run_a = vertices_bytes(vs);
    let count_b = le64(is.len() as u64);
    let run_b = triples_bytes(is);
    assert(count_a == b.subrange(0, 8)) by {
        lemma_le64_de64(b.subrange(0, 8));
    }
    assert(run_a == b.subrange(8, mid)) by {
        lemma_bytes_vertices_at(b, 8, n);
    }
    assert(count_b == b.subrange(mid, mid + 8)) by {
        lemma_le64_de64(b.subrange(mid, mid + 8));
    }
    assert(run_b == b.subrange(mid + 8, end)) by {
        lemma_bytes_triples_at(b, mid + 8, m);
    }
    lemma_join_four(b, 8, mid, mid + 8, end);
}

/// Appends the bytes of a run of vertices to `out`.
pub fn push_vertices(out: &mut Vec<u8>, vs: &Vec<Vertex>)
    ensures
        final(out)@ == old(out)@ + vertices_bytes(vs@),
{
    let mut i: usize = 0;
    while i < vs.len()
        invariant
            i <= vs.len(),
            out@ == old(out)@ + vertices_bytes(vs@.take(i as int)),
        decreases vs.len() - i,
    {
        let v: Vertex = vs[i];
        push_u32(out, v.0);
        push_u32(out, v.1);
        push_u32(out, v.2);
        push_u32(out, v.3);
        proof {
            let next = vs@.take(i + 1);
            assert(next.drop_last() =~= vs@.take(i as int));
            assert(next.last() == v);
            assert(out@ =~= old(out)@ + vertices_bytes(next));
        }
        i += 1;
    }
    proof {
        assert(vs@.take(vs.len() as int) =~= vs@);
    }
}

/// Reads the `n` vertices that start at `at`.
pub fn read_vertices(bytes: &[u8], at: usize, n: usize) -> (vs: Vec<Vertex>)
    requires
        at + 16 * n <= bytes.len(),
    ensures
        vs@ == vertices_at(bytes@, at as int, n as int),
{
    let mut vs: Vec<Vertex> = Vec::new();
    let mut i: usize = 0;
    while i < n
        invariant
            i <= n,
            at + 16 * n <= bytes.len(),
            vs@ == vertices_at(bytes@, at as int, i as int),
        decreases n - i,
    {
        let p: usize = at + 16 * i;
        let x: u32 = read_u32(bytes, p);
        let y: u32 = read_u32(bytes, p + 4);
        let z: u32 = read_u32(bytes, p + 8);
        let w: u32 = read_u32(bytes, p + 12);
        vs.push(Vertex(x, y, z, w));
        i += 1;
        assert(vs@ =~= vertices_at(bytes@, at as int, i as int));
    }
    vs
}

/// Writes the file that holds the vertices `vertices`, each with its
/// brightness, and the index triples `indices`.
pub fn write_lit_falkvbo(vertices: &Vec<Vertex>, indices: &Vec<(u32, u32, u32)>) -> (out: Vec<u8>)
    ensures
        out@ == lit_file(vertices@, indices@),
{
    let mut out: Vec<u8> = Vec::new();
    push_u64(&mut out, vertices.len() as u64);
    push_vertices(&mut out, vertices);
    push_u64(&mut out, indices.len() as u64);
    push_triples(&mut out, indices);
    assert(out@ =~= lit_file(vertices@, indices@));
    out
}

/// Reads a file of vertices with their brightness and index triples.
///
/// Succeeds exactly when `bytes` is long enough for the two counts and for
/// what they declare; otherwise says where `bytes` ends too early.
pub fn load_lit_falkvbo(bytes: &[u8]) -> (r: Result<
    (Vec<Vertex>, Vec<(u32, u32, u32)>),
    ReadError,
>)
    ensures
        match r {
            Ok((vs, is)) => parse_lit_file(bytes@) == Ok::<_, ReadError>((vs@, is@)),
            Err(e) => parse_lit_file(bytes@) == Err::<(Seq<Vertex>, Seq<(u32, u32, u32)>), _>(e),
        },
{
    let len: usize = bytes.len();
    if len < 8 {
        return Err(ReadError::VertexCount);
    }
    let n: u64 = read_u64(bytes, 0);
    if len < 16 || n > ((len - 16) / 16) as u64 {
        return Err(ReadError::Vertices);
    }
    let count: usize = n as usize;
    let mid: usize = 8 + 16 * count;
    let vs: Vec<Vertex> = read_vertices(bytes, 8, count);
    let m: u64 = read_u64(bytes, mid);
    if m > ((len - mid - 8) / 12) as u64 {
        return Err(ReadError::Triangles);
    }
    let is: Vec<(u32, u32, u32)> = read_triples(bytes, mid + 8, m as usize);
    Ok((vs, is))
}

} // verus!
