//! The text of a mesh description: lines, fields and face indices.
//!
//! A description is a run of lines. A line that starts with `v` and a
//! space defines a vertex by three numbers; a line that starts with `f`
//! and a space defines a face by three vertex numbers; an empty line says
//! nothing; any other line is refused. Fields are parted by single spaces.
//! The numbers of a vertex are handed on as text, unread.

use vstd::prelude::*;
use vstd::slice::slice_subrange;

verus! {

/// The byte that ends a line.
pub const NEWLINE: u8 = 10;

/// The byte that may stand in front of the end of a line.
pub const CARRIAGE_RETURN: u8 = 13;

/// The byte that parts two fields.
pub const SPACE: u8 = 32;

/// The sign that may stand in front of an index.
pub const PLUS: u8 = 43;

/// The digit zero.
pub const ZERO: u8 = 48;

/// The letter that starts a face line.
pub const LETTER_F: u8 = 102;

/// The letter that starts a vertex line.
pub const LETTER_V: u8 = 118;

/// One line of a description that says something.
#[derive(Debug, PartialEq, Eq)]
pub enum Statement {
    /// A vertex: the text of its three numbers.
    Vertex(Vec<u8>, Vec<u8>, Vec<u8>),
    /// A face: the numbers of its three corners.
    Face(usize, usize, usize),
}

/// What a statement holds.
pub enum StatementText {
    Vertex(Seq<u8>, Seq<u8>, Seq<u8>),
    Face(usize, usize, usize),
}

impl View for Statement {
    type V = StatementText;

    open spec fn view(&self) -> StatementText {
        match *self {
            Statement::Vertex(x, y, z) => StatementText::Vertex(x@, y@, z@),
            Statement::Face(a, b, c) => StatementText::Face(a, b, c),
        }
    }
}

/// What is wrong with a line.
#[derive(Clone, Copy, Debug, PartialEq, Eq, Structural)]
pub enum Flaw {
    /// A vertex or a face that has not exactly three fields.
    FieldCount,
    /// A face with a field that is no vertex number: not an optional `+`
    /// and then digits only, or too large a number. A negative number,
    /// which would count from the end, is such a field.
    BadIndex,
    /// A line that is neither empty nor a vertex nor a face.
    UnknownLine,
}

/// Why a description was refused: the place of its first line that is
/// wrong, the first line being 0, and what is wrong with it.
#[derive(Clone, Copy, Debug, PartialEq, Eq, Structural)]
pub struct ParseError {
    pub line: usize,
    pub flaw: Flaw,
}

/// What the byte strings hold.
pub open spec fn texts(v: Seq<Vec<u8>>) -> Seq<Seq<u8>> {
    Seq::new(v.len(), |i: int| v[i]@)
}

/// What the statements hold.
pub open spec fn statement_texts(v: Seq<Statement>) -> Seq<StatementText> {
    Seq::new(v.len(), |i: int| v[i]@)
}

/// The pieces of `s` between the occurrences of `sep`: one more than
/// there are occurrences, and empty where two occurrences touch or one
/// stands at an end.
pub open spec fn split(s: Seq<u8>, sep: u8) -> Seq<Seq<u8>>
    decreases s.len(),
{
    if s.len() == 0 {
        seq![Seq::<u8>::empty()]
    } else {
        let head = split(s.drop_last(), sep);
        if s.last() == sep {
            head.push(Seq::empty())
        } else {
            head.drop_last().push(head.last().push(s.last()))
        }
    }
}

/// `piece` without the carriage return at its end, if it has one.
pub open spec fn without_return(piece: Seq<u8>) -> Seq<u8> {
    if piece.len() > 0 && piece.last() == CARRIAGE_RETURN {
        piece.drop_last()
    } else {
        piece
    }
}

/// The lines of a text. A line ends with a newline, or with a carriage
/// return and a newline; neither belongs to the line. What follows the
/// last newline is a line of its own unless it is empty.
pub open spec fn lines(text: Seq<u8>) -> Seq<Seq<u8>> {
    let pieces = split(text, NEWLINE);
    let ended = Seq::new((pieces.len() - 1) as nat, |i: int| without_return(pieces[i]));
    if pieces.last().len() == 0 {
        ended
    } else {
        ended.push(pieces.last())
    }
}

/// Whether the byte is a decimal digit.
pub open spec fn is_digit(b: u8) -> bool {
    ZERO <= b <= ZERO + 9
}

/// Whether all the bytes are decimal digits.
pub open spec fn all_digits(ds: Seq<u8>) -> bool {
    forall|i: int| 0 <= i < ds.len() ==> is_digit(#[trigger] ds[i])
}

/// The number that the digits write.
pub open spec fn digits_value(ds: Seq<u8>) -> nat
    decreases ds.len(),
{
    if ds.len() == 0 {
        0
    } else {
        (10 * digits_value(ds.drop_last()) + (ds.last() - ZERO)) as nat
    }
}

/// The vertex number that a field writes: an optional `+`, then one
/// digit or more, and no more than a `usize` holds.
pub open spec fn field_index(field: Seq<u8>) -> Option<usize> {
    let ds = if field.len() > 0 && field[0] == PLUS {
        field.skip(1)
    } else {
        field
    };
    if ds.len() > 0 && all_digits(ds) && digits_value(ds) <= usize::MAX {
        Some(digits_value(ds) as usize)
    } else {
        None
    }
}

/// Whether the line starts with `letter` and a space.
pub open spec fn marked(line: Seq<u8>, letter: u8) -> bool {
    line.len() >= 2 && line[0] == letter && line[1] == SPACE
}

/// What a line says: nothing where it is empty, a statement, or what is
/// wrong with it. The fields of a line are counted before a face's
/// indices are read.
pub open spec fn line_statement(line: Seq<u8>) -> Result<Option<StatementText>, Flaw> {
    if line.len() == 0 {
        Ok(None)
    } else if marked(line, LETTER_V) {
        let fields = split(line.skip(2), SPACE);
        if fields.len() != 3 {
            Err(Flaw::FieldCount)
        } else {
            Ok(Some(StatementText::Vertex(fields[0], fields[1], fields[2])))
        }
    } else if marked(line, LETTER_F) {
        let fields = split(line.skip(2), SPACE);
        if fields.len() != 3 {
            Err(Flaw::FieldCount)
        } else {
            match (field_index(fields[0]), field_index(fields[1]), field_index(fields[2])) {
                (Some(a), Some(b), Some(c)) => Ok(Some(StatementText::Face(a, b, c))),
                _ => Err(Flaw::BadIndex),
            }
        }
    } else {
        Err(Flaw::UnknownLine)
    }
}

/// The statements of the lines, in order, or the first line that is
/// wrong.
pub open spec fn lines_statements(ls: Seq<Seq<u8>>) -> Result<Seq<StatementText>, ParseError>
    decreases ls.len(),
{
    if ls.len() == 0 {
        Ok(Seq::empty())
    } else {
        match lines_statements(ls.drop_last()) {
            Err(e) => Err(e),
            Ok(found) => match line_statement(ls.last()) {
                Err(flaw) => Err(ParseError { line: (ls.len() - 1) as usize, flaw }),
                Ok(None) => Ok(found),
                Ok(Some(st)) => Ok(found.push(st)),
            },
        }
    }
}

/// The statements of a text, or the first line that is wrong.
pub open spec fn text_statements(text: Seq<u8>) -> Result<Seq<StatementText>, ParseError> {
    lines_statements(lines(text))
}

/// There is always a piece.
pub proof fn lemma_split_len(s: Seq<u8>, sep: u8)
    ensures
        split(s, sep).len() >= 1,
    decreases s.len(),
{
    if s.len() > 0 {
        lemma_split_len(s.drop_last(), sep);
    }
}

/// There are no more pieces than bytes and one.
pub proof fn lemma_split_bound(s: Seq<u8>, sep: u8)
    ensures
        split(s, sep).len() <= s.len() + 1,
    decreases s.len(),
{
    if s.len() > 0 {
        lemma_split_bound(s.drop_last(), sep);
        lemma_split_len(s.drop_last(), sep);
    }
}

/// Digits in front write no larger a number than all the digits.
pub proof fn lemma_digits_value_grows(ds: Seq<u8>, k: int)
    requires
        0 <= k <= ds.len(),
        all_digits(ds),
    ensures
        digits_value(ds.take(k)) <= digits_value(ds),
    decreases ds.len(),
{
    if k == ds.len() {
        assert(ds.take(k) =~= ds);
    } else {
        let head = ds.drop_last();
        assert(head.take(k) =~= ds.take(k));
        assert(all_digits(head)) by {
            assert forall|i: int| 0 <= i < head.len() implies is_digit(#[trigger] head[i]) by {
                assert(head[i] == ds[i]);
            }
        }
        lemma_digits_value_grows(head, k);
        assert(is_digit(ds[ds.len() - 1]));
    }
}

/// Parts `s` at each occurrence of `sep`.
pub fn split_bytes(s: &[u8], sep: u8) -> (out: Vec<Vec<u8>>)
    ensures
        texts(out@) == split(s@, sep),
{
    let mut out: Vec<Vec<u8>> = Vec::new();
    let mut piece: Vec<u8> = Vec::new();
    let mut i: usize = 0;
    proof {
        assert(s@.take(0) =~= Seq::<u8>::empty());
        assert(texts(out@).push(piece@) =~= split(s@.take(0), sep));
    }
    while i < s.len()
        invariant
            i <= s.len(),
            texts(out@).push(piece@) == split(s@.take(i as int), sep),
        decreases s.len() - i,
    {
        let b: u8 = s[i];
        let ghost before = texts(out@).push(piece@);
        proof {
            assert(s@.take(i + 1).drop_last() =~= s@.take(i as int));
            assert(s@.take(i + 1).last() == b);
            assert(before.drop_last() =~= texts(out@));
        }
        if b == sep {
            out.push(piece);
            piece = Vec::new();
            proof {
                assert(texts(out@) =~= before);
            }
        } else {
            piece.push(b);
        }
        i += 1;
        assert(texts(out@).push(piece@) =~= split(s@.take(i as int), sep));
    }
    proof {
        assert(s@.take(i as int) =~= s@);
        let done = texts(out@).push(piece@);
        assert(texts(out@.push(piece)) =~= done);
    }
    out.push(piece);
    out
}

/// Reads a field as a vertex number.
pub fn parse_index(field: &[u8]) -> (r: Option<usize>)
    ensures
        r == field_index(field@),
{
    let n: usize = field.len();
    let start: usize = if n > 0 && field[0] == PLUS {
        1
    } else {
        0
    };
    let ghost ds = if field@.len() > 0 && field@[0] == PLUS {
        field@.skip(1)
    } else {
        field@
    };
    proof {
        assert(ds =~= field@.skip(start as int));
    }
    if start == n {
        return None;
    }
    let mut acc: usize = 0;
    let mut i: usize = start;
    proof {
        assert(ds.take(0) =~= Seq::<u8>::empty());
    }
    while i < n
        invariant
            start <= i <= n,
            n == field@.len(),
            ds == field@.skip(start as int),
            ds == if field@.len() > 0 && field@[0] == PLUS {
                field@.skip(1)
            } else {
                field@
            },
            ds.len() > 0,
            all_digits(ds.take(i - start)),
            acc == digits_value(ds.take(i - start)),
        decreases n - i,
    {
        let b: u8 = field[i];
        let ghost seen = ds.take(i - start);
        let ghost next = ds.take(i - start + 1);
        proof {
            assert(ds[i - start] == b);
            assert(next.drop_last() =~= seen);
            assert(next.last() == b);
        }
        if b < ZERO || b > ZERO + 9 {
            proof {
                assert(ds[i - start] == b);
                assert(!all_digits(ds));
            }
            return None;
        }
        let d: usize = (b - ZERO) as usize;
        if acc > (usize::MAX - d) / 10 {
            proof {
                assert(digits_value(next) > usize::MAX);
                if all_digits(ds) {
                    lemma_digits_value_grows(ds, i - start + 1);
                }
            }
            return None;
        }
        acc = acc * 10 + d;
        i += 1;
        proof {
            assert forall|j: int| 0 <= j < next.len() implies is_digit(#[trigger] next[j]) by {
                if j < seen.len() {
                    assert(next[j] == seen[j]);
                }
            }
        }
    }
    proof {
        assert(ds.take(n - start) =~= ds);
    }
    Some(acc)
}

/// Reads one line.
pub fn parse_line(line: &[u8]) -> (r: Result<Option<Statement>, Flaw>)
    ensures
        match r {
            Ok(Some(st)) => line_statement(line@) == Ok::<_, Flaw>(Some(st@)),
            Ok(None) => line_statement(line@) == Ok::<Option<StatementText>, Flaw>(None),
            Err(flaw) => line_statement(line@) == Err::<Option<StatementText>, _>(flaw),
        },
{
    let n: usize = line.len();
    if n == 0 {
        return Ok(None);
    }
    let vertex: bool = n >= 2 && line[0] == LETTER_V && line[1] == SPACE;
    let face: bool = n >= 2 && line[0] == LETTER_F && line[1] == SPACE;
    if !vertex && !face {
        return Err(Flaw::UnknownLine);
    }
    let rest: &[u8] = slice_subrange(line, 2, n);
    proof {
        assert(rest@ =~= line@.skip(2));
    }
    let mut fields: Vec<Vec<u8>> = split_bytes(rest, SPACE);
    if fields.len() != 3 {
        return Err(Flaw::FieldCount);
    }
    let ghost all = texts(fields@);
    proof {
        assert(all[0] == fields@[0]@ && all[1] == fields@[1]@ && all[2] == fields@[2]@);
    }
    if vertex {
        let z: Vec<u8> = fields.pop().unwrap();
        let y: Vec<u8> = fields.pop().unwrap();
        let x: Vec<u8> = fields.pop().unwrap();
        Ok(Some(Statement::Vertex(x, y, z)))
    } else {
        let a: Option<usize> = parse_index(fields[0].as_slice());
        let b: Option<usize> = parse_index(fields[1].as_slice());
        let c: Option<usize> = parse_index(fields[2].as_slice());
        match (a, b, c) {
            (Some(a), Some(b), Some(c)) => Ok(Some(Statement::Face(a, b, c))),
            _ => Err(Flaw::BadIndex),
        }
    }
}

/// Reads the text of a mesh description.
///
/// Gives the statements of the lines, in order, or the place of the first
/// line that is wrong and what is wrong with it. A call succeeds exactly
/// when every line is empty, a vertex with three fields, or a face with
/// three fields that are vertex numbers.
pub fn scan(text: &[u8]) -> (r: Result<Vec<Statement>, ParseError>)
    ensures
        match r {
            Ok(found) => text_statements(text@) == Ok::<_, ParseError>(statement_texts(found@)),
            Err(e) => text_statements(text@) == Err::<Seq<StatementText>, _>(e),
        },
{
    let pieces: Vec<Vec<u8>> = split_bytes(text, NEWLINE);
    proof {
        lemma_split_len(text@, NEWLINE);
        lemma_split_bound(text@, NEWLINE);
    }
    let last: usize = pieces.len() - 1;
    let count: usize = if pieces[last].len() == 0 {
        last
    } else {
        last + 1
    };
    let ghost ls = lines(text@);
    proof {
        assert(texts(pieces@)[last as int] == pieces@[last as int]@);
        assert(ls.len() == count);
    }
    let mut found: Vec<Statement> = Vec::new();
    let mut i: usize = 0;
    proof {
        assert(ls.take(0) =~= Seq::<Seq<u8>>::empty());
        assert(statement_texts(found@) =~= Seq::<StatementText>::empty());
    }
    while i < count
        invariant
            i <= count,
            last + 1 == pieces@.len(),
            last <= count <= last + 1,
            texts(pieces@) == split(text@, NEWLINE),
            ls == lines(text@),
            ls.len() == count,
            lines_statements(ls.take(i as int)) == Ok::<_, ParseError>(statement_texts(found@)),
        decreases count - i,
    {
        let piece: &[u8] = pieces[i].as_slice();
        let n: usize = piece.len();
        let line: &[u8] = if i < last && n > 0 && piece[n - 1] == CARRIAGE_RETURN {
            slice_subrange(piece, 0, n - 1)
        } else {
            piece
        };
        proof {
            assert(texts(pieces@)[i as int] == pieces@[i as int]@);
            assert(piece@.subrange(0, n - 1) =~= piece@.drop_last());
            assert(line@ == ls[i as int]);
            assert(ls.take(i + 1).drop_last() =~= ls.take(i as int));
            assert(ls.take(i + 1).last() == ls[i as int]);
        }
        let ghost before = statement_texts(found@);
        match parse_line(line) {
            Err(flaw) => {
                proof {
                    lemma_lines_error_stays(ls, i + 1);
                }
                return Err(ParseError { line: i, flaw });
            },
            Ok(None) => {},
            Ok(Some(st)) => {
                found.push(st);
                proof {
                    assert(statement_texts(found@) =~= before.push(st@));
                }
            },
        }
        i += 1;
    }
    proof {
        assert(ls.take(count as int) =~= ls);
    }
    Ok(found)
}

/// A line that is wrong among the first `k` is the first of all that is
/// wrong.
pub proof fn lemma_lines_error_stays(ls: Seq<Seq<u8>>, k: int)
    requires
        0 <= k <= ls.len(),
        lines_statements(ls.take(k)) is Err,
    ensures
        lines_statements(ls) == lines_statements(ls.take(k)),
    decreases ls.len(),
{
    if k == ls.len() {
        assert(ls.take(k) =~= ls);
    } else {
        let head = ls.drop_last();
        assert(head.take(k) =~= ls.take(k));
        lemma_lines_error_stays(head, k);
    }
}

} // verus!
