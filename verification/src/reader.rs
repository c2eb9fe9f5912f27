//! The sequential reader: parses the header of an in-memory PCD file and
//! yields its records one by one through the record codec.
//!
//! A `binary_compressed` payload is read and decompressed whole during
//! construction; records are then decoded from the decompressed buffer.
//! After the declared number of points, or after the first failed decode,
//! the reader is finished: no further records are produced.

use vstd::prelude::*;

use crate::error::Error;
use crate::lzf::lzf_run;
use crate::metas::{chunk_size_of, total_count, DataKind, PcdMeta, Schema, ValueKind};
use crate::record::{
    line_end_of, line_next_of, parses_ok, parses_to, rec_bytes, rec_wf, DynRecord,
};
use crate::scalar::le_val;
use crate::utils::{meta_matches, parse_header};

verus! {

/// The compressed block at `ps` is well formed: both length prefixes are
/// present, and the compressed bytes decode to exactly the declared
/// uncompressed length (a doubly-zero prefix stands for an empty payload).
pub open spec fn block_ok(s: Seq<u8>, ps: int) -> bool {
    &&& ps + 8 <= s.len()
    &&& {
        let cs = le_val(s.subrange(ps, ps + 4));
        let us = le_val(s.subrange(ps + 4, ps + 8));
        ||| (cs == 0 && us == 0)
        ||| (ps + 8 + cs <= s.len() && (lzf_run(s.subrange(ps + 8, ps + 8 + cs), Seq::empty())
            matches Some(d) && d.len() == us))
    }
}

/// The decompressed payload the block at `ps` declares.
pub open spec fn block_payload(s: Seq<u8>, ps: int) -> Seq<u8> {
    let cs = le_val(s.subrange(ps, ps + 4));
    let us = le_val(s.subrange(ps + 4, ps + 8));
    if cs == 0 && us == 0 {
        Seq::empty()
    } else {
        lzf_run(s.subrange(ps + 8, ps + 8 + cs), Seq::empty())->Some_0
    }
}

/// The `Reader` struct yields points from an in-memory PCD file.
pub struct Reader {
    pub meta: PcdMeta,
    pub buf: Vec<u8>,
    pub pos: usize,
    pub decompressed: Vec<u8>,
    pub dpos: usize,
    pub record_count: u64,
    pub finished: bool,
}

impl Reader {
    /// The byte buffer records are decoded from.
    pub open spec fn src_view(self) -> Seq<u8> {
        if self.meta.data == DataKind::BinaryCompressed {
            self.decompressed@
        } else {
            self.buf@
        }
    }

    /// The cursor into [`Reader::src_view`].
    pub open spec fn src_pos(self) -> nat {
        if self.meta.data == DataKind::BinaryCompressed {
            self.dpos as nat
        } else {
            self.pos as nat
        }
    }

    /// Structural well-formedness.
    pub open spec fn wf(self) -> bool {
        &&& self.pos <= self.buf@.len()
        &&& self.dpos <= self.decompressed@.len()
        &&& self.record_count <= self.meta.num_points
        &&& (self.meta.data != DataKind::BinaryCompressed ==> self.decompressed@.len() == 0)
    }

    /// Open a reader on the bytes of a whole PCD file: parse the header,
    /// and, for a compressed payload, read and decompress the entire block.
    ///
    /// Succeeds exactly when the header parses and, for `binary_compressed`
    /// data, the block is well formed; no record has been consumed yet.
    pub fn from_bytes(buf: Vec<u8>) -> (r: Result<Reader, Error>)
        ensures
            match r {
                Ok(rd) => {
                    &&& parse_header(buf@, 0) matches Some(h) && meta_matches(rd.meta, h)
                        && rd.pos == h.payload_start && (rd.meta.data
                        == DataKind::BinaryCompressed ==> block_ok(buf@, h.payload_start)
                        && rd.decompressed@ == block_payload(buf@, h.payload_start))
                    &&& rd.wf()
                    &&& rd.buf@ == buf@
                    &&& rd.record_count == 0
                    &&& !rd.finished
                    &&& rd.dpos == 0
                },
                Err(e) => !(parse_header(buf@, 0) matches Some(h) && (h.data
                    != DataKind::BinaryCompressed || block_ok(buf@, h.payload_start))),
            },
    {
        let mut pos: usize = 0;
        let mut line_count: usize = 0;
        let meta = match crate::utils::load_meta(buf.as_slice(), &mut pos, &mut line_count) {
            Ok(m) => m,
            Err(e) => {
                return Err(e);
            },
        };
        let mut decompressed: Vec<u8> = Vec::new();
        if matches!(meta.data, DataKind::BinaryCompressed) {
            if buf.len() - pos < 8 {
                return Err(
                    Error::new_io_error("unexpected end of data while reading block sizes"),
                );
            }
            let cs = crate::scalar::get_le_bytes(buf.as_slice(), pos, 4);
            let us = crate::scalar::get_le_bytes(buf.as_slice(), pos + 4, 4);
            proof {
                crate::scalar::lemma_le_val_bound(buf@.subrange(pos as int, pos + 4));
                crate::scalar::lemma_le_val_bound(buf@.subrange(pos + 4, pos + 8));
                crate::scalar::lemma_pow256_values();
            }
            proof {
                assert(buf@.subrange(pos as int, pos + 4).len() == 4);
                assert(buf@.subrange(pos + 4, pos + 8).len() == 4);
            }
            if cs == 0 && us == 0 {
                // An empty compressed payload.
                proof {
                    assert(block_ok(buf@, pos as int));
                    assert(decompressed@ =~= block_payload(buf@, pos as int));
                }
            } else {
                let room = (buf.len() - (pos + 8)) as u64;
                if room < cs {
                    proof {
                        assert(!block_ok(buf@, pos as int));
                    }
                    return Err(
                        Error::new_io_error(
                            "unexpected end of data while reading the compressed block",
                        ),
                    );
                }
                let block = crate::scalar::slice_subrange(
                    buf.as_slice(),
                    pos + 8,
                    pos + 8 + cs as usize,
                );
                match crate::lzf::decompress(block, us as usize) {
                    Ok(d) => {
                        decompressed = d;
                        proof {
                            assert(block_ok(buf@, pos as int));
                            assert(decompressed@ == block_payload(buf@, pos as int));
                        }
                    },
                    Err(e) => {
                        proof {
                            assert(!block_ok(buf@, pos as int));
                        }
                        return Err(e);
                    },
                }
            }
        }
        Ok(
            Reader {
                meta,
                buf,
                pos,
                decompressed,
                dpos: 0,
                record_count: 0,
                finished: false,
            },
        )
    }

    /// Get meta data.
    pub fn meta(&self) -> (r: &PcdMeta)
        ensures
            r == &self.meta,
    {
        &self.meta
    }

    /// Produce the next record, or `None` when the reader is finished.
    ///
    /// The reader is fused: after the declared point count is reached, or
    /// after the first failed decode, every later call returns `None`.
    pub fn next_record(&mut self) -> (r: Option<Result<DynRecord, Error>>)
        requires
            old(self).wf(),
        ensures
            final(self).wf(),
            final(self).meta == old(self).meta,
            final(self).buf@ == old(self).buf@,
            final(self).decompressed@ == old(self).decompressed@,
            r is None <==> (old(self).finished || old(self).record_count
                == old(self).meta.num_points),
            r is None ==> final(self).finished && final(self).src_pos() == old(self).src_pos()
                && final(self).record_count == old(self).record_count,
            r matches Some(Err(_)) ==> final(self).finished && final(self).record_count == old(
                self,
            ).record_count,
            ({
                let defs = old(self).meta.field_defs.fields@;
                let s = old(self).src_view();
                let p = old(self).src_pos() as int;
                match r {
                    Some(Ok(rec)) => {
                        &&& rec_wf(rec.0@, defs)
                        &&& final(self).record_count == old(self).record_count + 1
                        &&& (final(self).finished <==> final(self).record_count
                            == old(self).meta.num_points)
                        &&& if old(self).meta.data == DataKind::Ascii {
                            let line = s.subrange(p, line_end_of(s, p));
                            let toks = crate::text::split_ws(line);
                            &&& toks.len() == total_count(defs)
                            &&& parses_ok(defs, toks)
                            &&& parses_to(defs, toks, rec.0@)
                            &&& final(self).src_pos() == line_next_of(s, p)
                        } else {
                            &&& p + chunk_size_of(defs) <= s.len()
                            &&& s.subrange(p, p + chunk_size_of(defs)) == rec_bytes(rec.0@)
                            &&& final(self).src_pos() == p + chunk_size_of(defs)
                        }
                    },
                    Some(Err(_)) => {
                        if old(self).meta.data == DataKind::Ascii {
                            let line = s.subrange(p, line_end_of(s, p));
                            let toks = crate::text::split_ws(line);
                            toks.len() != total_count(defs) || !parses_ok(defs, toks)
                        } else {
                            p + chunk_size_of(defs) > s.len()
                        }
                    },
                    None => true,
                }
            }),
    {
        if self.finished {
            return None;
        }
        if self.record_count >= self.meta.num_points {
            self.finished = true;
            return None;
        }
        proof {
            crate::utils::lemma_line_end_bounds(self.buf@, self.pos as int);
        }
        let res: Result<DynRecord, Error> = match self.meta.data {
            DataKind::Ascii => DynRecord::read_line(
                self.buf.as_slice(),
                &mut self.pos,
                &self.meta.field_defs,
            ),
            DataKind::Binary => DynRecord::read_chunk(
                self.buf.as_slice(),
                &mut self.pos,
                &self.meta.field_defs,
            ),
            DataKind::BinaryCompressed => DynRecord::read_chunk(
                self.decompressed.as_slice(),
                &mut self.dpos,
                &self.meta.field_defs,
            ),
        };
        match res {
            Ok(rec) => {
                self.record_count = self.record_count + 1;
                if self.record_count == self.meta.num_points {
                    self.finished = true;
                }
                Some(Ok(rec))
            },
            Err(e) => {
                self.finished = true;
                Some(Err(e))
            },
        }
    }
}

} // verus!

verus! {

/// One declared field matches one parsed header field form: the kind
/// always, the name when declared, the count when fixed.
pub open spec fn decl_field_matches_form(
    decl: (Option<String>, ValueKind, Option<usize>),
    field: (Seq<u8>, ValueKind, u64),
) -> bool {
    &&& decl.1 == field.1
    &&& (decl.0 matches Some(n) ==> n@ == crate::utils::bytes_as_chars(field.0))
    &&& (decl.2 matches Some(c) ==> c == field.2)
}

/// A caller-declared fixed layout matches a parsed header's fields.
pub open spec fn decl_matches_fields(
    decls: Seq<(Option<String>, ValueKind, Option<usize>)>,
    fields: Seq<(Seq<u8>, ValueKind, u64)>,
) -> bool {
    &&& decls.len() == fields.len()
    &&& forall|i: int|
        0 <= i < decls.len() ==> decl_field_matches_form(#[trigger] decls[i], fields[i])
}

/// One declared field matches one header field: the kind always, the name
/// when declared, the count when fixed.
pub open spec fn decl_field_matches(
    decl: (Option<String>, ValueKind, Option<usize>),
    fd: crate::metas::FieldDef,
) -> bool {
    &&& decl.1 == fd.kind
    &&& (decl.0 matches Some(n) ==> n@ == fd.name@)
    &&& (decl.2 matches Some(c) ==> c == fd.count)
}

/// A caller-declared fixed layout matches a header schema field by field.
pub open spec fn decl_matches_schema(
    decls: Seq<(Option<String>, ValueKind, Option<usize>)>,
    schema: Schema,
) -> bool {
    &&& decls.len() == schema.fields@.len()
    &&& forall|i: int|
        0 <= i < decls.len() ==> decl_field_matches(#[trigger] decls[i], schema.fields@[i])
}

impl Reader {
    /// Check a caller-declared fixed layout against the file's schema: per
    /// field the kind always, the name where one is declared, the count
    /// where a fixed one is declared.  A mismatch fails with both sides in
    /// the error, so that no record is ever produced for the wrong layout.
    pub fn check_read_spec(
        &self,
        record_spec: &Vec<(Option<String>, ValueKind, Option<usize>)>,
    ) -> (r: Result<(), Error>)
        ensures
            r is Ok <==> decl_matches_schema(record_spec@, self.meta.field_defs),
            r is Err ==> r->Err_0 matches Error::ReaderSchemaMismatchError { .. },
    {
        let n = record_spec.len();
        let mut ok = n == self.meta.field_defs.fields.len();
        let mut i: usize = 0;
        while ok && i < n
            invariant
                i <= n == record_spec@.len(),
                ok ==> n == self.meta.field_defs.fields@.len(),
                ok ==> forall|q: int|
                    0 <= q < i ==> decl_field_matches(
                        #[trigger] record_spec@[q],
                        self.meta.field_defs.fields@[q],
                    ),
                !ok ==> !decl_matches_schema(record_spec@, self.meta.field_defs),
            decreases n - i,
        {
            let decl = &record_spec[i];
            let fd = &self.meta.field_defs.fields[i];
            if !(decl.1 == fd.kind) {
                ok = false;
            } else {
                match &decl.0 {
                    Some(name) => {
                        if !(*name == fd.name) {
                            ok = false;
                        }
                    },
                    None => {},
                }
                match decl.2 {
                    Some(c) => {
                        if !(c as u64 == fd.count) {
                            ok = false;
                        }
                    },
                    None => {},
                }
            }
            proof {
                if !ok {
                    assert(!decl_field_matches(
                        record_spec@[i as int],
                        self.meta.field_defs.fields@[i as int],
                    ));
                }
            }
            i = i + 1;
        }
        if ok {
            Ok(())
        } else {
            Err(
                Error::new_reader_schema_mismatch_error(
                    record_spec.clone(),
                    self.meta.field_defs.fields.clone(),
                ),
            )
        }
    }
}

} // verus!

verus! {

impl Reader {
    /// Open a reader for a caller-declared fixed layout: construction fails
    /// entirely when the file's schema does not match the declaration, so no
    /// record is ever produced from a mismatched reader.
    pub fn from_bytes_checked(
        buf: Vec<u8>,
        record_spec: &Vec<(Option<String>, ValueKind, Option<usize>)>,
    ) -> (r: Result<Reader, Error>)
        ensures
            r matches Ok(rd) ==> {
                &&& parse_header(buf@, 0) matches Some(h) && meta_matches(rd.meta, h)
                    && rd.pos == h.payload_start && (rd.meta.data
                    == DataKind::BinaryCompressed ==> block_ok(buf@, h.payload_start)
                    && rd.decompressed@ == block_payload(buf@, h.payload_start))
                &&& decl_matches_schema(record_spec@, rd.meta.field_defs)
                &&& rd.wf()
                &&& rd.buf@ == buf@
                &&& rd.record_count == 0
                &&& !rd.finished
                &&& rd.dpos == 0
            },
            r is Ok <==> (parse_header(buf@, 0) matches Some(h) && (h.data
                != DataKind::BinaryCompressed || block_ok(buf@, h.payload_start))
                && decl_matches_fields(record_spec@, h.fields)),
    {
        let ghost h = parse_header(buf@, 0)->Some_0;
        let rd = match Reader::from_bytes(buf) {
            Ok(rd) => rd,
            Err(e) => {
                return Err(e);
            },
        };
        proof {
            lemma_decl_match_forms(record_spec@, rd.meta, h);
        }
        match rd.check_read_spec(record_spec) {
            Ok(()) => Ok(rd),
            Err(e) => Err(e),
        }
    }
}

} // verus!

verus! {

/// For a meta faithful to a parsed header, a declared layout matches the
/// meta's schema exactly when it matches the header's field forms.
proof fn lemma_decl_match_forms(
    decls: Seq<(Option<String>, ValueKind, Option<usize>)>,
    meta: PcdMeta,
    h: crate::utils::HeaderV,
)
    requires
        meta_matches(meta, h),
    ensures
        decl_matches_schema(decls, meta.field_defs) <==> decl_matches_fields(decls, h.fields),
{
    if decl_matches_schema(decls, meta.field_defs) {
        assert forall|i: int| 0 <= i < decls.len() implies decl_field_matches_form(
            #[trigger] decls[i],
            h.fields[i],
        ) by {
            assert(decl_field_matches(decls[i], meta.field_defs.fields@[i]));
        }
    }
    if decl_matches_fields(decls, h.fields) {
        assert forall|i: int| 0 <= i < decls.len() implies decl_field_matches(
            #[trigger] decls[i],
            meta.field_defs.fields@[i],
        ) by {
            assert(decl_field_matches_form(decls[i], h.fields[i]));
        }
    }
}

} // verus!
