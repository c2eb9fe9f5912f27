//! Read and write PCD (Point Cloud Data) files.
//!
//! The crate parses the textual PCD header, converts records between their
//! in-memory form and the `ascii`, `binary` and `binary_compressed` payload
//! encodings, and drives those codecs through a sequential [`reader::Reader`]
//! and [`writer::Writer`] over in-memory byte buffers.  Floating-point
//! scalars are carried as IEEE 754 bit patterns.

#![verifier::loop_isolation(false)]

use vstd::prelude::*;

pub mod error;
pub mod lzf;
pub mod metas;
pub mod reader;
pub mod record;
pub mod scalar;
pub mod text;
pub mod utils;
pub mod writer;

pub use error::Error;
pub use metas::{DataKind, FieldDef, PcdMeta, Schema, TypeKind, ValueKind, ViewPoint};
pub use reader::Reader;
pub use record::{DynRecord, Field};
pub use writer::{Writer, WriterInit};
