//! Triangle meshes: loading, deduplication and the indexed vertex-buffer
//! file format.
//!
//! A mesh description is read in two steps, `obj_text::scan` for its text
//! and `ObjFile::load` for its records; between them the caller reads the
//! numbers of the vertices, which the library holds as bit patterns and
//! never computes with. A mesh is turned into a list of its vertices and
//! a list of index triples by `ObjFile::to_indexed_buffers`, and written
//! and read as a file by the functions of `falkvbo`.

pub mod buffers;
pub mod bytes;
pub mod canonical;
pub mod falkvbo;
pub mod loader;
pub mod mesh;
pub mod obj_text;
pub mod scalar;
pub mod vertex;
pub mod vertex_order;

pub use crate::buffers::BufferError;
pub use crate::falkvbo::{
    load_falkvbo, load_lit_falkvbo, write_falkvbo, write_lit_falkvbo, ReadError,
};
pub use crate::loader::{Fault, LoadError, Record};
pub use crate::mesh::ObjFile;
pub use crate::obj_text::{scan, Flaw, ParseError, Statement};
pub use crate::vertex::{Triangle, Vertex};
