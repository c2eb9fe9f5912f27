//! The error type returned from the crate.

use vstd::prelude::*;

use crate::metas::{FieldDef, ValueKind};

verus! {

/// The error returned from the crate.
///
/// Numeric-literal and stream failures carry a description rather than the
/// standard library's error values, so that every variant is a plain value.
#[derive(Debug, Clone, PartialEq)]
pub enum Error {
    /// Header syntax error, with the line it was found on.
    ParseError { line: usize, desc: String },
    /// The record layout a reader was asked for does not match the file's.
    ReaderSchemaMismatchError {
        expect: Vec<(Option<String>, ValueKind, Option<usize>)>,
        found: Vec<FieldDef>,
    },
    /// A record handed to a writer does not match the writer's schema.
    WriterSchemaMismatchError { expect: Vec<FieldDef>, found: Vec<FieldDef> },
    /// A dynamic field holds the wrong number of scalars for its column.
    FieldSizeMismatchError { field_name: String, expect: usize, found: usize },
    /// An ASCII record line holds the wrong number of tokens.
    TextTokenMismatchError { expect: usize, found: usize },
    /// A caller-supplied argument is invalid.
    InvalidArgumentError { desc: String },
    /// The writer was configured against the schema rules.
    InvalidWriterConfiguration { desc: String },
    /// The underlying byte stream ended early or failed.
    IoError { desc: String },
    /// An integer token could not be parsed.
    ParseIntError { desc: String },
    /// A floating-point token could not be parsed.
    ParseFloatError { desc: String },
}

impl Error {
    pub fn new_parse_error(line: usize, desc: &str) -> (r: Error)
        ensures
            r matches Error::ParseError { line: l, desc: d } && l == line && d@ == desc@,
    {
        let d: String = desc.to_owned();
        Error::ParseError { line, desc: d }
    }

    pub fn new_reader_schema_mismatch_error(
        expect: Vec<(Option<String>, ValueKind, Option<usize>)>,
        found: Vec<FieldDef>,
    ) -> (r: Error)
        ensures
            r == (Error::ReaderSchemaMismatchError { expect, found }),
    {
        Error::ReaderSchemaMismatchError { expect, found }
    }

    pub fn new_writer_schema_mismatch_error(expect: Vec<FieldDef>, found: Vec<FieldDef>) -> (r:
        Error)
        ensures
            r == (Error::WriterSchemaMismatchError { expect, found }),
    {
        Error::WriterSchemaMismatchError { expect, found }
    }

    pub fn new_field_size_mismatch_error(field_name: &str, expect: usize, found: usize) -> (r:
        Error)
        ensures
            r matches Error::FieldSizeMismatchError { field_name: n, expect: e, found: f }
                && n@ == field_name@ && e == expect && f == found,
    {
        let n: String = field_name.to_owned();
        Error::FieldSizeMismatchError { field_name: n, expect, found }
    }

    pub fn new_text_token_mismatch_error(expect: usize, found: usize) -> (r: Error)
        ensures
            r == (Error::TextTokenMismatchError { expect, found }),
    {
        Error::TextTokenMismatchError { expect, found }
    }

    pub fn new_invalid_argument_error(desc: &str) -> (r: Error)
        ensures
            r matches Error::InvalidArgumentError { desc: d } && d@ == desc@,
    {
        let d: String = desc.to_owned();
        Error::InvalidArgumentError { desc: d }
    }

    pub fn new_invalid_writer_configuration_error(desc: &str) -> (r: Error)
        ensures
            r matches Error::InvalidWriterConfiguration { desc: d } && d@ == desc@,
    {
        let d: String = desc.to_owned();
        Error::InvalidWriterConfiguration { desc: d }
    }

    pub fn new_io_error(desc: &str) -> (r: Error)
        ensures
            r matches Error::IoError { desc: d } && d@ == desc@,
    {
        let d: String = desc.to_owned();
        Error::IoError { desc: d }
    }

    pub fn new_parse_int_error(desc: &str) -> (r: Error)
        ensures
            r matches Error::ParseIntError { desc: d } && d@ == desc@,
    {
        let d: String = desc.to_owned();
        Error::ParseIntError { desc: d }
    }

    pub fn new_parse_float_error(desc: &str) -> (r: Error)
        ensures
            r matches Error::ParseFloatError { desc: d } && d@ == desc@,
    {
        let d: String = desc.to_owned();
        Error::ParseFloatError { desc: d }
    }
}

} // verus!

verus! {

/// Append the decimal text of `n` to `d`.
fn append_usize(d: &mut String, n: usize) {
    let digits = crate::scalar::fmt_u64(n as u64);
    proof {
        crate::scalar::lemma_dec_nat_is_digits(n as nat);
    }
    let t = crate::scalar::ascii_to_string(digits.as_slice());
    d.append(t.as_str());
}

impl Error {
    /// A human-readable description of the error, in the same wording the
    /// error would display itself with.
    pub fn message(&self) -> String {
        match self {
            Error::ParseError { line, desc } => {
                let mut d: String = String::from_str("parsing error at line ");
                append_usize(&mut d, *line);
                d.append(": ");
                d.append(desc.as_str());
                d
            },
            Error::ReaderSchemaMismatchError { .. } => String::from_str(
                "reader schema mismatch error",
            ),
            Error::WriterSchemaMismatchError { .. } => String::from_str(
                "writer schema mismatch error",
            ),
            Error::FieldSizeMismatchError { field_name, expect, found } => {
                let mut d: String = String::from_str("field size mismatch, expect ");
                append_usize(&mut d, *expect);
                d.append(" elements in \"");
                d.append(field_name.as_str());
                d.append("\" field, but found ");
                append_usize(&mut d, *found);
                d.append(" elements in record");
                d
            },
            Error::TextTokenMismatchError { expect, found } => {
                let mut d: String = String::from_str("record has ");
                append_usize(&mut d, *expect);
                d.append(" fields, but the line has ");
                append_usize(&mut d, *found);
                d.append(" tokens");
                d
            },
            Error::InvalidArgumentError { desc } => {
                let mut d: String = String::from_str("Invalid argument: ");
                d.append(desc.as_str());
                d
            },
            Error::InvalidWriterConfiguration { desc } => {
                let mut d: String = String::from_str("Invalid writer configuration: ");
                d.append(desc.as_str());
                d
            },
            Error::IoError { desc } => {
                let mut d: String = String::from_str("I/O error: ");
                d.append(desc.as_str());
                d
            },
            Error::ParseIntError { desc } => {
                let mut d: String = String::new();
                d.append(desc.as_str());
                d
            },
            Error::ParseFloatError { desc } => {
                let mut d: String = String::new();
                d.append(desc.as_str());
                d
            },
        }
    }
}

} // verus!
