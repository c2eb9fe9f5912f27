//! Runtime record types and the record codec.
//!
//! A [`Field`] holds one column's scalars for one record; a [`DynRecord`] is
//! an ordered sequence of fields under a runtime [`Schema`].  The codec
//! converts one record to and from its binary chunk (fixed-width
//! little-endian scalars, no padding) and its ASCII line (decimal tokens
//! separated by single spaces, newline-terminated).
//!
//! Specifications speak of a record through its *model*: per field, the
//! scalar kind and the sequence of raw values (the unsigned little-endian
//! reading of each scalar's bytes, widened to `u64`; a float's raw value is
//! its bit pattern).

use vstd::prelude::*;

use crate::error::Error;
use crate::metas::{FieldDef, Schema, ValueKind, chunk_size_of, total_count};
use crate::scalar::{
    dec_int, dec_nat, dec_of_f32, dec_of_f64, f32_of_dec, f64_of_dec, fmt_i64_into,
    format_f32_bits, format_f64_bits, get_le_bytes, i16_to_raw, i32_to_raw, i8_to_raw,
    int_of_raw, le_bytes_of, le_val, lemma_le_bytes_len, lemma_le_round_trip,
    lemma_pow256_values, parse_f32_bits, parse_f64_bits, parse_int, parse_uint, pow256,
    put_le_bytes, raw_of_int, raw_to_i16, raw_to_i32, raw_to_i8, spec_parse_int,
    spec_parse_uint,
};

verus! {

/// An enum representation of untyped data fields.  Float scalars are carried
/// as IEEE 754 bit patterns.
#[derive(Debug, Clone, PartialEq)]
pub enum Field {
    I8(Vec<i8>),
    I16(Vec<i16>),
    I32(Vec<i32>),
    U8(Vec<u8>),
    U16(Vec<u16>),
    U32(Vec<u32>),
    F32(Vec<u32>),
    F64(Vec<u64>),
}

/// The scalar kind a field's variant carries.
pub open spec fn field_kind(f: Field) -> ValueKind {
    match f {
        Field::I8(_) => ValueKind::I8,
        Field::I16(_) => ValueKind::I16,
        Field::I32(_) => ValueKind::I32,
        Field::U8(_) => ValueKind::U8,
        Field::U16(_) => ValueKind::U16,
        Field::U32(_) => ValueKind::U32,
        Field::F32(_) => ValueKind::F32,
        Field::F64(_) => ValueKind::F64,
    }
}

/// How many scalars the field holds.
pub open spec fn field_len(f: Field) -> nat {
    match f {
        Field::I8(v) => v@.len(),
        Field::I16(v) => v@.len(),
        Field::I32(v) => v@.len(),
        Field::U8(v) => v@.len(),
        Field::U16(v) => v@.len(),
        Field::U32(v) => v@.len(),
        Field::F32(v) => v@.len(),
        Field::F64(v) => v@.len(),
    }
}

/// The raw values of the field's scalars, in order.
pub open spec fn field_raws(f: Field) -> Seq<u64> {
    match f {
        Field::I8(v) => v@.map(|i: int, x: i8| raw_of_int(x as int, 1) as u64),
        Field::I16(v) => v@.map(|i: int, x: i16| raw_of_int(x as int, 2) as u64),
        Field::I32(v) => v@.map(|i: int, x: i32| raw_of_int(x as int, 4) as u64),
        Field::U8(v) => v@.map(|i: int, x: u8| x as u64),
        Field::U16(v) => v@.map(|i: int, x: u16| x as u64),
        Field::U32(v) => v@.map(|i: int, x: u32| x as u64),
        Field::F32(v) => v@.map(|i: int, x: u32| x as u64),
        Field::F64(v) => v@.map(|i: int, x: u64| x),
    }
}

/// A field's model: its kind and its raw values.
pub open spec fn field_model(f: Field) -> (ValueKind, Seq<u64>) {
    (field_kind(f), field_raws(f))
}

/// Every raw value fits in its kind's width.
pub proof fn lemma_field_raws_range(f: Field)
    ensures
        forall|i: int|
            0 <= i < field_raws(f).len() ==> #[trigger] field_raws(f)[i] < pow256(
                field_kind(f).spec_width(),
            ),
        field_raws(f).len() == field_len(f),
{
    lemma_pow256_values();
}

/// The binary bytes of a sequence of raw scalars, each `w` bytes wide.
pub open spec fn raws_bytes(w: nat, raws: Seq<u64>) -> Seq<u8>
    decreases raws.len(),
{
    if raws.len() == 0 {
        Seq::empty()
    } else {
        raws_bytes(w, raws.drop_last()) + le_bytes_of(raws.last(), w)
    }
}

pub proof fn lemma_raws_bytes_len(w: nat, raws: Seq<u64>)
    ensures
        raws_bytes(w, raws).len() == raws.len() * w,
    decreases raws.len(),
{
    if raws.len() == 0 {
    } else {
        lemma_raws_bytes_len(w, raws.drop_last());
        lemma_le_bytes_len(raws.last(), w);
        assert(raws.len() * w == (raws.len() - 1) * w + w) by (nonlinear_arith);
    }
}

/// The binary chunk bytes of one field.
pub open spec fn field_bytes(f: Field) -> Seq<u8> {
    raws_bytes(field_kind(f).spec_width(), field_raws(f))
}

/// The binary chunk bytes of a record: each field's bytes back to back.
pub open spec fn rec_bytes(fs: Seq<Field>) -> Seq<u8>
    decreases fs.len(),
{
    if fs.len() == 0 {
        Seq::empty()
    } else {
        rec_bytes(fs.drop_last()) + field_bytes(fs.last())
    }
}

/// One field is consistent with one field definition: same kind, same count.
pub open spec fn field_matches(f: Field, d: FieldDef) -> bool {
    &&& field_kind(f) == d.kind
    &&& field_len(f) == d.count as nat
}

/// A record is consistent with a schema.
pub open spec fn rec_wf(fs: Seq<Field>, defs: Seq<FieldDef>) -> bool {
    &&& fs.len() == defs.len()
    &&& forall|i: int| 0 <= i < fs.len() ==> field_matches(#[trigger] fs[i], defs[i])
}

/// The model of every field of a record.
pub open spec fn rec_model(fs: Seq<Field>) -> Seq<(ValueKind, Seq<u64>)> {
    fs.map(|i: int, f: Field| field_model(f))
}

/// A writer schema mismatch error that names both sides: the schema's field
/// definitions as expected, and the record's own kinds and counts (under
/// empty names) as found.
pub open spec fn mismatch_error_sides(e: Error, rec: DynRecord, schema: Schema) -> bool {
    &&& e matches Error::WriterSchemaMismatchError { expect, found }
    &&& e->WriterSchemaMismatchError_expect@ == schema.fields@
    &&& {
        let found = e->WriterSchemaMismatchError_found;
        &&& found@.len() == rec.0@.len()
        &&& forall|i: int|
            0 <= i < found@.len() ==> (#[trigger] found@[i]).kind == field_kind(rec.0@[i])
                && found@[i].count == field_len(rec.0@[i]) && found@[i].name@.len() == 0
    }
}

impl Field {
    /// The scalar kind this field holds.
    pub fn kind(&self) -> (r: ValueKind)
        ensures
            r == field_kind(*self),
    {
        match self {
            Field::I8(_) => ValueKind::I8,
            Field::I16(_) => ValueKind::I16,
            Field::I32(_) => ValueKind::I32,
            Field::U8(_) => ValueKind::U8,
            Field::U16(_) => ValueKind::U16,
            Field::U32(_) => ValueKind::U32,
            Field::F32(_) => ValueKind::F32,
            Field::F64(_) => ValueKind::F64,
        }
    }

    /// The number of scalars this field holds.
    pub fn count(&self) -> (r: usize)
        ensures
            r == field_len(*self),
    {
        match self {
            Field::I8(v) => v.len(),
            Field::I16(v) => v.len(),
            Field::I32(v) => v.len(),
            Field::U8(v) => v.len(),
            Field::U16(v) => v.len(),
            Field::U32(v) => v.len(),
            Field::F32(v) => v.len(),
            Field::F64(v) => v.len(),
        }
    }
}

/// Represents an untyped _point_ in PCD data.
#[derive(Debug, Clone, PartialEq)]
pub struct DynRecord(pub Vec<Field>);

impl DynRecord {
    /// Whether this record matches `schema` field by field: equal length, and
    /// per position the same scalar kind and scalar count.
    pub fn is_schema_consistent(&self, schema: &Schema) -> (r: bool)
        ensures
            r == rec_wf(self.0@, schema.fields@),
    {
        let n = self.0.len();
        if n != schema.fields.len() {
            return false;
        }
        let mut i: usize = 0;
        while i < n
            invariant
                0 <= i <= n,
                n == self.0@.len() == schema.fields@.len(),
                forall|k: int| 0 <= k < i ==> field_matches(#[trigger] self.0@[k], schema.fields@[k]),
            decreases n - i,
        {
            let f = &self.0[i];
            let d = &schema.fields[i];
            let k = f.kind();
            if !(k == d.kind) {
                assert(!field_matches(self.0@[i as int], schema.fields@[i as int]));
                return false;
            }
            let c = f.count();
            if !(c as u64 == d.count) {
                assert(!field_matches(self.0@[i as int], schema.fields@[i as int]));
                return false;
            }
            i = i + 1;
        }
        true
    }
}

} // verus!

verus! {

// ---------------------------------------------------------------------------
// Conversions between a field and its raw values
// ---------------------------------------------------------------------------
/// Raw values of a scalar round-trip through the signed view.
proof fn lemma_int_raw_round_trip(r: nat, w: nat)
    requires
        1 <= w <= 8,
        r < pow256(w),
    ensures
        raw_of_int(int_of_raw(r, w), w) == r,
{
    lemma_pow256_values();
}

/// The field's raw values, each bounded by its kind's width, and the width.
fn field_to_raws(f: &Field) -> (r: (Vec<u64>, usize))
    ensures
        r.0@ == field_raws(*f),
        r.1 == field_kind(*f).spec_width(),
        forall|i: int| 0 <= i < r.0@.len() ==> #[trigger] r.0@[i] < pow256(r.1 as nat),
{
    proof {
        lemma_field_raws_range(*f);
    }
    let w = f.kind().width();
    let mut out: Vec<u64> = Vec::new();
    match f {
        Field::I8(v) => {
            let n = v.len();
            let mut i: usize = 0;
            while i < n
                invariant
                    i <= n == v@.len(),
                    out@ =~= field_raws(Field::I8(*v)).take(i as int),
                decreases n - i,
            {
                out.push(i8_to_raw(v[i]));
                i = i + 1;
            }
        },
        Field::I16(v) => {
            let n = v.len();
            let mut i: usize = 0;
            while i < n
                invariant
                    i <= n == v@.len(),
                    out@ =~= field_raws(Field::I16(*v)).take(i as int),
                decreases n - i,
            {
                out.push(i16_to_raw(v[i]));
                i = i + 1;
            }
        },
        Field::I32(v) => {
            let n = v.len();
            let mut i: usize = 0;
            while i < n
                invariant
                    i <= n == v@.len(),
                    out@ =~= field_raws(Field::I32(*v)).take(i as int),
                decreases n - i,
            {
                out.push(i32_to_raw(v[i]));
                i = i + 1;
            }
        },
        Field::U8(v) => {
            let n = v.len();
            let mut i: usize = 0;
            while i < n
                invariant
                    i <= n == v@.len(),
                    out@ =~= field_raws(Field::U8(*v)).take(i as int),
                decreases n - i,
            {
                out.push(v[i] as u64);
                i = i + 1;
            }
        },
        Field::U16(v) => {
            let n = v.len();
            let mut i: usize = 0;
            while i < n
                invariant
                    i <= n == v@.len(),
                    out@ =~= field_raws(Field::U16(*v)).take(i as int),
                decreases n - i,
            {
                out.push(v[i] as u64);
                i = i + 1;
            }
        },
        Field::U32(v) => {
            let n = v.len();
            let mut i: usize = 0;
            while i < n
                invariant
                    i <= n == v@.len(),
                    out@ =~= field_raws(Field::U32(*v)).take(i as int),
                decreases n - i,
            {
                out.push(v[i] as u64);
                i = i + 1;
            }
        },
        Field::F32(v) => {
            let n = v.len();
            let mut i: usize = 0;
            while i < n
                invariant
                    i <= n == v@.len(),
                    out@ =~= field_raws(Field::F32(*v)).take(i as int),
                decreases n - i,
            {
                out.push(v[i] as u64);
                i = i + 1;
            }
        },
        Field::F64(v) => {
            let n = v.len();
            let mut i: usize = 0;
            while i < n
                invariant
                    i <= n == v@.len(),
                    out@ =~= field_raws(Field::F64(*v)).take(i as int),
                decreases n - i,
            {
                out.push(v[i]);
                i = i + 1;
            }
        },
    }
    proof {
        assert(out@ =~= field_raws(*f));
    }
    (out, w)
}

/// Build the field of kind `kind` holding the scalars with these raw values.
fn raws_to_field(kind: ValueKind, raws: &Vec<u64>) -> (f: Field)
    requires
        forall|i: int|
            0 <= i < raws@.len() ==> #[trigger] raws@[i] < pow256(kind.spec_width()),
    ensures
        field_kind(f) == kind,
        field_raws(f) =~= raws@,
{
    proof {
        lemma_pow256_values();
    }
    let n = raws.len();
    match kind {
        ValueKind::I8 => {
            let mut v: Vec<i8> = Vec::new();
            let mut i: usize = 0;
            while i < n
                invariant
                    i <= n == raws@.len(),
                    v@.len() == i,
                    forall|k: int|
                        0 <= k < i ==> raw_of_int(#[trigger] v@[k] as int, 1) == raws@[k],
                    forall|k: int| 0 <= k < n ==> #[trigger] raws@[k] < pow256(1),
                decreases n - i,
            {
                let x = raw_to_i8(raws[i]);
                proof {
                    lemma_int_raw_round_trip(raws@[i as int] as nat, 1);
                }
                v.push(x);
                i = i + 1;
            }
            let f = Field::I8(v);
            proof {
                assert(field_raws(f) =~= raws@);
            }
            f
        },
        ValueKind::I16 => {
            let mut v: Vec<i16> = Vec::new();
            let mut i: usize = 0;
            while i < n
                invariant
                    i <= n == raws@.len(),
                    v@.len() == i,
                    forall|k: int|
                        0 <= k < i ==> raw_of_int(#[trigger] v@[k] as int, 2) == raws@[k],
                    forall|k: int| 0 <= k < n ==> #[trigger] raws@[k] < pow256(2),
                decreases n - i,
            {
                let x = raw_to_i16(raws[i]);
                proof {
                    lemma_int_raw_round_trip(raws@[i as int] as nat, 2);
                }
                v.push(x);
                i = i + 1;
            }
            let f = Field::I16(v);
            proof {
                assert(field_raws(f) =~= raws@);
            }
            f
        },
        ValueKind::I32 => {
            let mut v: Vec<i32> = Vec::new();
            let mut i: usize = 0;
            while i < n
                invariant
                    i <= n == raws@.len(),
                    v@.len() == i,
                    forall|k: int|
                        0 <= k < i ==> raw_of_int(#[trigger] v@[k] as int, 4) == raws@[k],
                    forall|k: int| 0 <= k < n ==> #[trigger] raws@[k] < pow256(4),
                decreases n - i,
            {
                let x = raw_to_i32(raws[i]);
                proof {
                    lemma_int_raw_round_trip(raws@[i as int] as nat, 4);
                }
                v.push(x);
                i = i + 1;
            }
            let f = Field::I32(v);
            proof {
                assert(field_raws(f) =~= raws@);
            }
            f
        },
        ValueKind::U8 => {
            let mut v: Vec<u8> = Vec::new();
            let mut i: usize = 0;
            while i < n
                invariant
                    i <= n == raws@.len(),
                    v@.len() == i,
                    forall|k: int| 0 <= k < i ==> #[trigger] v@[k] as u64 == raws@[k],
                    forall|k: int| 0 <= k < n ==> #[trigger] raws@[k] < pow256(1),
                decreases n - i,
            {
                v.push(raws[i] as u8);
                i = i + 1;
            }
            let f = Field::U8(v);
            proof {
                assert(field_raws(f) =~= raws@);
            }
            f
        },
        ValueKind::U16 => {
            let mut v: Vec<u16> = Vec::new();
            let mut i: usize = 0;
            while i < n
                invariant
                    i <= n == raws@.len(),
                    v@.len() == i,
                    forall|k: int| 0 <= k < i ==> #[trigger] v@[k] as u64 == raws@[k],
                    forall|k: int| 0 <= k < n ==> #[trigger] raws@[k] < pow256(2),
                decreases n - i,
            {
                v.push(raws[i] as u16);
                i = i + 1;
            }
            let f = Field::U16(v);
            proof {
                assert(field_raws(f) =~= raws@);
            }
            f
        },
        ValueKind::U32 => {
            let mut v: Vec<u32> = Vec::new();
            let mut i: usize = 0;
            while i < n
                invariant
                    i <= n == raws@.len(),
                    v@.len() == i,
                    forall|k: int| 0 <= k < i ==> #[trigger] v@[k] as u64 == raws@[k],
                    forall|k: int| 0 <= k < n ==> #[trigger] raws@[k] < pow256(4),
                decreases n - i,
            {
                v.push(raws[i] as u32);
                i = i + 1;
            }
            let f = Field::U32(v);
            proof {
                assert(field_raws(f) =~= raws@);
            }
            f
        },
        ValueKind::F32 => {
            let mut v: Vec<u32> = Vec::new();
            let mut i: usize = 0;
            while i < n
                invariant
                    i <= n == raws@.len(),
                    v@.len() == i,
                    forall|k: int| 0 <= k < i ==> #[trigger] v@[k] as u64 == raws@[k],
                    forall|k: int| 0 <= k < n ==> #[trigger] raws@[k] < pow256(4),
                decreases n - i,
            {
                v.push(raws[i] as u32);
                i = i + 1;
            }
            let f = Field::F32(v);
            proof {
                assert(field_raws(f) =~= raws@);
            }
            f
        },
        ValueKind::F64 => {
            let mut v: Vec<u64> = Vec::new();
            let mut i: usize = 0;
            while i < n
                invariant
                    i <= n == raws@.len(),
                    v@.len() == i,
                    forall|k: int| 0 <= k < i ==> #[trigger] v@[k] == raws@[k],
                decreases n - i,
            {
                v.push(raws[i]);
                i = i + 1;
            }
            let f = Field::F64(v);
            proof {
                assert(field_raws(f) =~= raws@);
            }
            f
        },
    }
}

} // verus!

verus! {

// ---------------------------------------------------------------------------
// Binary chunk codec
// ---------------------------------------------------------------------------
/// Decoding `w` bytes and re-encoding the value gives the bytes back.
proof fn lemma_le_bytes_of_val(bs: Seq<u8>)
    requires
        bs.len() <= 8,
    ensures
        le_bytes_of(le_val(bs) as u64, bs.len()) == bs,
    decreases bs.len(),
{
    crate::scalar::lemma_le_val_bound(bs);
    crate::scalar::lemma_pow256_mono(bs.len(), 8);
    lemma_pow256_values();
    if bs.len() > 0 {
        lemma_le_bytes_of_val(bs.drop_first());
        crate::scalar::lemma_le_val_bound(bs.drop_first());
        let v = le_val(bs) as u64;
        assert(v == bs[0] + 256 * le_val(bs.drop_first()));
        assert(v % 256 == bs[0] && v / 256 == le_val(bs.drop_first())) by (nonlinear_arith)
            requires
                v == bs[0] + 256 * le_val(bs.drop_first()),
                bs[0] < 256,
        ;
        assert(le_bytes_of(v, bs.len()) =~= bs);
    } else {
        assert(le_bytes_of(0, 0) =~= bs);
    }
}

/// Append the binary bytes of one field to `out`.
fn write_field(out: &mut Vec<u8>, f: &Field)
    ensures
        final(out)@ == old(out)@ + field_bytes(*f),
{
    let (raws, w) = field_to_raws(f);
    let n = raws.len();
    let mut i: usize = 0;
    proof {
        assert(raws_bytes(w as nat, raws@.take(0)) =~= Seq::<u8>::empty());
        assert(out@ =~= old(out)@ + raws_bytes(w as nat, raws@.take(0)));
    }
    while i < n
        invariant
            i <= n,
            out@ == old(out)@ + raws_bytes(w as nat, raws@.take(i as int)),
        decreases n - i,
    {
        proof {
            assert(raws@.take(i + 1).drop_last() =~= raws@.take(i as int));
            assert(raws@.take(i + 1).last() == raws@[i as int]);
        }
        put_le_bytes(out, raws[i], w);
        i = i + 1;
    }
    proof {
        assert(raws@.take(n as int) =~= raws@);
    }
}

/// How many bytes remain from `pos`: enough for `cnt` scalars of width `w`?
fn chunk_fits(buf_len: usize, pos: usize, cnt: u64, w: usize) -> (r: bool)
    requires
        pos <= buf_len,
    ensures
        r == (pos + cnt * w <= buf_len),
{
    match cnt.checked_mul(w as u64) {
        Some(total) => {
            let room = (buf_len - pos) as u64;
            total <= room
        },
        None => {
            proof {
                assert(cnt * w > u64::MAX) by (nonlinear_arith)
                    requires
                        cnt.checked_mul(w as u64) is None,
                        w <= u64::MAX,
                ;
            }
            false
        },
    }
}

/// Read one field of definition `d` from `buf` at `pos`, advancing `pos`.
///
/// Succeeds exactly when the chunk fits in the buffer; the consumed bytes are
/// then the field's binary encoding.
pub fn read_field(buf: &[u8], pos: &mut usize, d: &FieldDef) -> (r: Result<Field, Error>)
    requires
        *old(pos) <= buf@.len(),
    ensures
        match r {
            Ok(f) => {
                &&& field_matches(f, *d)
                &&& *old(pos) + d.count * d.kind.spec_width() <= buf@.len()
                &&& *final(pos) == *old(pos) + d.count * d.kind.spec_width()
                &&& buf@.subrange(*old(pos) as int, *final(pos) as int) == field_bytes(f)
            },
            Err(e) => {
                &&& *old(pos) + d.count * d.kind.spec_width() > buf@.len()
                &&& *final(pos) == *old(pos)
                &&& e matches Error::IoError { .. }
            },
        },
{
    let w = d.kind.width();
    let cnt = d.count;
    if !chunk_fits(buf.len(), *pos, cnt, w) {
        return Err(Error::new_io_error("unexpected end of data while reading a record"));
    }
    let mut raws: Vec<u64> = Vec::new();
    let mut c: u64 = 0;
    let start: usize = *pos;
    proof {
        assert(raws_bytes(w as nat, raws@) =~= Seq::<u8>::empty());
        assert(buf@.subrange(start as int, start as int) =~= Seq::<u8>::empty());
    }
    while c < cnt
        invariant
            c <= cnt,
            raws@.len() == c,
            *pos == start + c * w,
            start + cnt * w <= buf@.len(),
            buf@.subrange(start as int, *pos as int) == raws_bytes(w as nat, raws@),
            forall|k: int| 0 <= k < raws@.len() ==> #[trigger] raws@[k] < pow256(w as nat),
        decreases cnt - c,
    {
        proof {
            assert((c + 1) * w <= cnt * w && c * w + w == (c + 1) * w) by (nonlinear_arith)
                requires
                    c < cnt,
            ;
        }
        let raw = get_le_bytes(buf, *pos, w);
        proof {
            let sub = buf@.subrange(*pos as int, *pos + w);
            lemma_le_bytes_of_val(sub);
            crate::scalar::lemma_le_val_bound(sub);
            assert(raws@.push(raw).drop_last() =~= raws@);
            assert(buf@.subrange(start as int, *pos + w) =~= buf@.subrange(
                start as int,
                *pos as int,
            ) + sub);
        }
        raws.push(raw);
        *pos = *pos + w;
        c = c + 1;
    }
    let f = raws_to_field(d.kind, &raws);
    proof {
        assert(field_bytes(f) == raws_bytes(w as nat, raws@));
    }
    Ok(f)
}

/// The record's own shape, as field definitions with empty names: one side
/// of a writer schema mismatch error.
fn record_field_defs(rec: &DynRecord) -> (r: Vec<FieldDef>)
    ensures
        r@.len() == rec.0@.len(),
        forall|i: int|
            0 <= i < r@.len() ==> (#[trigger] r@[i]).kind == field_kind(rec.0@[i]) && r@[i].count
                == field_len(rec.0@[i]) && r@[i].name@.len() == 0,
{
    let mut out: Vec<FieldDef> = Vec::new();
    let n = rec.0.len();
    let mut i: usize = 0;
    while i < n
        invariant
            i <= n == rec.0@.len(),
            out@.len() == i,
            forall|q: int|
                0 <= q < i ==> (#[trigger] out@[q]).kind == field_kind(rec.0@[q]) && out@[q].count
                    == field_len(rec.0@[q]) && out@[q].name@.len() == 0,
        decreases n - i,
    {
        let f = &rec.0[i];
        let name: String = String::new();
        out.push(FieldDef { name, kind: f.kind(), count: f.count() as u64 });
        i = i + 1;
    }
    out
}

/// A value-equal copy of a schema's field definitions: the other side of a
/// writer schema mismatch error.
fn clone_defs(schema: &Schema) -> (r: Vec<FieldDef>)
    ensures
        r@ == schema.fields@,
{
    let mut out: Vec<FieldDef> = Vec::new();
    let n = schema.fields.len();
    let mut i: usize = 0;
    while i < n
        invariant
            i <= n == schema.fields@.len(),
            out@.len() == i,
            forall|q: int| 0 <= q < i ==> #[trigger] out@[q] == schema.fields@[q],
        decreases n - i,
    {
        let d = &schema.fields[i];
        let name: String = d.name.clone();
        out.push(FieldDef { name, kind: d.kind, count: d.count });
        i = i + 1;
    }
    proof {
        assert(out@ =~= schema.fields@);
    }
    out
}

impl DynRecord {
    /// Append this record's binary chunk to `out`.
    ///
    /// Succeeds exactly when the record matches `schema`; nothing is written
    /// otherwise.
    pub fn write_chunk(&self, out: &mut Vec<u8>, schema: &Schema) -> (r: Result<(), Error>)
        ensures
            r is Ok <==> rec_wf(self.0@, schema.fields@),
            r is Ok ==> final(out)@ == old(out)@ + rec_bytes(self.0@),
            r is Err ==> final(out)@ == old(out)@ && mismatch_error_sides(
                r->Err_0,
                *self,
                *schema,
            ),
    {
        if !self.is_schema_consistent(schema) {
            return Err(
                Error::new_writer_schema_mismatch_error(
                    clone_defs(schema),
                    record_field_defs(self),
                ),
            );
        }
        let n = self.0.len();
        let mut i: usize = 0;
        proof {
            assert(out@ =~= old(out)@ + rec_bytes(self.0@.take(0)));
        }
        while i < n
            invariant
                i <= n,
                out@ == old(out)@ + rec_bytes(self.0@.take(i as int)),
            decreases n - i,
        {
            proof {
                assert(self.0@.take(i + 1).drop_last() =~= self.0@.take(i as int));
                assert(self.0@.take(i + 1).last() == self.0@[i as int]);
            }
            write_field(out, &self.0[i]);
            i = i + 1;
        }
        proof {
            assert(self.0@.take(n as int) =~= self.0@);
        }
        Ok(())
    }

    /// Read one record's binary chunk from `buf` at `pos`, advancing `pos`.
    ///
    /// Succeeds exactly when a whole chunk fits in the buffer; the result is
    /// then consistent with the schema and the consumed bytes are its binary
    /// encoding.
    pub fn read_chunk(buf: &[u8], pos: &mut usize, schema: &Schema) -> (r: Result<
        DynRecord,
        Error,
    >)
        requires
            *old(pos) <= buf@.len(),
        ensures
            match r {
                Ok(rec) => {
                    &&& rec_wf(rec.0@, schema.fields@)
                    &&& *old(pos) + chunk_size_of(schema.fields@) <= buf@.len()
                    &&& *final(pos) == *old(pos) + chunk_size_of(schema.fields@)
                    &&& buf@.subrange(*old(pos) as int, *final(pos) as int) == rec_bytes(rec.0@)
                },
                Err(e) => {
                    &&& *old(pos) + chunk_size_of(schema.fields@) > buf@.len()
                    &&& *old(pos) <= *final(pos) <= buf@.len()
                    &&& e matches Error::IoError { .. }
                },
            },
    {
        let n = schema.fields.len();
        let mut fields: Vec<Field> = Vec::new();
        let start: usize = *pos;
        let mut i: usize = 0;
        proof {
            assert(rec_bytes(fields@) =~= Seq::<u8>::empty());
            assert(buf@.subrange(start as int, start as int) =~= Seq::<u8>::empty());
        }
        while i < n
            invariant
                i <= n,
                fields@.len() == i,
                start <= *pos <= buf@.len(),
                *pos == start + chunk_size_of(schema.fields@.take(i as int)),
                rec_wf(fields@, schema.fields@.take(i as int)),
                buf@.subrange(start as int, *pos as int) == rec_bytes(fields@),
            decreases n - i,
        {
            proof {
                assert(schema.fields@.take(i + 1).drop_last() =~= schema.fields@.take(i as int));
                assert(schema.fields@.take(i + 1).last() == schema.fields@[i as int]);
            }
            let ghost pos0 = *pos;
            let d = &schema.fields[i];
            match read_field(buf, pos, d) {
                Ok(f) => {
                    proof {
                        assert(fields@.push(f).drop_last() =~= fields@);
                        assert(buf@.subrange(start as int, *pos as int) =~= buf@.subrange(
                            start as int,
                            pos0 as int,
                        ) + buf@.subrange(pos0 as int, *pos as int));
                        assert(rec_wf(fields@.push(f), schema.fields@.take(i + 1)));
                    }
                    fields.push(f);
                },
                Err(e) => {
                    proof {
                        lemma_chunk_size_prefix_mono(schema.fields@, i + 1);
                        assert(chunk_size_of(schema.fields@.take(i + 1)) == chunk_size_of(
                            schema.fields@.take(i as int),
                        ) + schema.fields@[i as int].count * schema.fields@[
                            i as int
                        ].kind.spec_width());
                    }
                    return Err(e);
                },
            }
            i = i + 1;
        }
        proof {
            assert(schema.fields@.take(n as int) =~= schema.fields@);
            lemma_chunk_size_prefix_mono(schema.fields@, n as int);
        }
        Ok(DynRecord(fields))
    }
}

/// A prefix of a schema never has a larger chunk than the whole.
proof fn lemma_chunk_size_prefix_mono(defs: Seq<FieldDef>, i: int)
    requires
        0 <= i <= defs.len(),
    ensures
        chunk_size_of(defs.take(i)) <= chunk_size_of(defs),
    decreases defs.len() - i,
{
    if i < defs.len() {
        lemma_chunk_size_prefix_mono(defs, i + 1);
        assert(defs.take(i + 1).drop_last() =~= defs.take(i));
        assert(chunk_size_of(defs.take(i)) <= chunk_size_of(defs.take(i + 1)));
    } else {
        assert(defs.take(i) =~= defs);
    }
}

} // verus!

verus! {

// ---------------------------------------------------------------------------
// The binary chunk encoding is injective: the round-trip law for binary
// (and, through the LZF codec, compressed) payloads.
// ---------------------------------------------------------------------------
/// Two equal concatenations with equal-length second parts have equal parts.
proof fn lemma_seq_concat_split(a1: Seq<u8>, b1: Seq<u8>, a2: Seq<u8>, b2: Seq<u8>)
    requires
        a1 + b1 == a2 + b2,
        b1.len() == b2.len(),
    ensures
        a1 == a2,
        b1 == b2,
{
    assert((a1 + b1).len() == a1.len() + b1.len());
    assert((a2 + b2).len() == a2.len() + b2.len());
    assert(a1.len() == a2.len());
    assert(a1 =~= (a1 + b1).subrange(0, a1.len() as int));
    assert(a2 =~= (a2 + b2).subrange(0, a2.len() as int));
    assert(b1 =~= (a1 + b1).subrange(a1.len() as int, (a1 + b1).len() as int));
    assert(b2 =~= (a2 + b2).subrange(a2.len() as int, (a2 + b2).len() as int));
}

/// Equal byte strings of equal-length, in-range raw sequences are the same
/// sequence.
proof fn lemma_raws_bytes_inj(w: nat, s1: Seq<u64>, s2: Seq<u64>)
    requires
        w <= 8,
        s1.len() == s2.len(),
        forall|i: int| 0 <= i < s1.len() ==> #[trigger] s1[i] < pow256(w),
        forall|i: int| 0 <= i < s2.len() ==> #[trigger] s2[i] < pow256(w),
        raws_bytes(w, s1) == raws_bytes(w, s2),
    ensures
        s1 == s2,
    decreases s1.len(),
{
    if s1.len() == 0 {
        assert(s1 =~= s2);
    } else {
        lemma_le_bytes_len(s1.last(), w);
        lemma_le_bytes_len(s2.last(), w);
        lemma_seq_concat_split(
            raws_bytes(w, s1.drop_last()),
            le_bytes_of(s1.last(), w),
            raws_bytes(w, s2.drop_last()),
            le_bytes_of(s2.last(), w),
        );
        lemma_le_round_trip(s1.last(), w);
        lemma_le_round_trip(s2.last(), w);
        lemma_raws_bytes_inj(w, s1.drop_last(), s2.drop_last());
        assert(s1 =~= s1.drop_last().push(s1.last()));
        assert(s2 =~= s2.drop_last().push(s2.last()));
    }
}

/// Round-trip law for binary payloads: the binary chunk encoding is injective
/// on records well formed under one schema.  Together with the contracts of
/// [`DynRecord::write_chunk`] and [`DynRecord::read_chunk`] this says that
/// decoding an encoded record yields a record with the same kinds and the
/// same scalar values, whatever the schema.
pub proof fn lemma_chunk_round_trip(fs1: Seq<Field>, fs2: Seq<Field>, defs: Seq<FieldDef>)
    requires
        rec_wf(fs1, defs),
        rec_wf(fs2, defs),
        rec_bytes(fs1) == rec_bytes(fs2),
    ensures
        rec_model(fs1) == rec_model(fs2),
    decreases defs.len(),
{
    if defs.len() == 0 {
        assert(rec_model(fs1) =~= rec_model(fs2));
    } else {
        let d = defs.last();
        let f1 = fs1.last();
        let f2 = fs2.last();
        assert(field_matches(f1, d) && field_matches(f2, d));
        lemma_field_raws_range(f1);
        lemma_field_raws_range(f2);
        lemma_raws_bytes_len(d.kind.spec_width(), field_raws(f1));
        lemma_raws_bytes_len(d.kind.spec_width(), field_raws(f2));
        lemma_seq_concat_split(
            rec_bytes(fs1.drop_last()),
            field_bytes(f1),
            rec_bytes(fs2.drop_last()),
            field_bytes(f2),
        );
        lemma_raws_bytes_inj(d.kind.spec_width(), field_raws(f1), field_raws(f2));
        assert(rec_wf(fs1.drop_last(), defs.drop_last()));
        assert(rec_wf(fs2.drop_last(), defs.drop_last()));
        lemma_chunk_round_trip(fs1.drop_last(), fs2.drop_last(), defs.drop_last());
        assert(field_model(f1) == field_model(f2));
        assert forall|i: int| 0 <= i < fs1.len() implies rec_model(fs1)[i] == rec_model(fs2)[i] by {
            if i < fs1.len() - 1 {
                assert(rec_model(fs1.drop_last())[i] == field_model(fs1.drop_last()[i]));
                assert(rec_model(fs2.drop_last())[i] == field_model(fs2.drop_last()[i]));
                assert(fs1.drop_last()[i] == fs1[i] && fs2.drop_last()[i] == fs2[i]);
            }
        }
        assert(rec_model(fs1) =~= rec_model(fs2));
    }
}

} // verus!

verus! {

// ---------------------------------------------------------------------------
// ASCII text codec: scalar tokens
// ---------------------------------------------------------------------------
/// The decimal token of one scalar of kind `k` with raw value `raw`.
pub open spec fn scalar_token(k: ValueKind, raw: u64) -> Seq<u8> {
    match k {
        ValueKind::U8 => dec_nat(raw as nat),
        ValueKind::U16 => dec_nat(raw as nat),
        ValueKind::U32 => dec_nat(raw as nat),
        ValueKind::I8 => dec_int(int_of_raw(raw as nat, 1)),
        ValueKind::I16 => dec_int(int_of_raw(raw as nat, 2)),
        ValueKind::I32 => dec_int(int_of_raw(raw as nat, 4)),
        ValueKind::F32 => dec_of_f32(raw as u32),
        ValueKind::F64 => dec_of_f64(raw),
    }
}

/// What one token parses to under kind `k`: the raw value of the scalar, or
/// `None` for a malformed or out-of-range token.
pub open spec fn scalar_parse(k: ValueKind, tok: Seq<u8>) -> Option<u64> {
    match k {
        ValueKind::U8 => match spec_parse_uint(tok, 0xff) {
            Some(v) => Some(v as u64),
            None => None,
        },
        ValueKind::U16 => match spec_parse_uint(tok, 0xffff) {
            Some(v) => Some(v as u64),
            None => None,
        },
        ValueKind::U32 => match spec_parse_uint(tok, 0xffff_ffff) {
            Some(v) => Some(v as u64),
            None => None,
        },
        ValueKind::I8 => match spec_parse_int(tok, -0x80, 0x7f) {
            Some(v) => Some(raw_of_int(v, 1) as u64),
            None => None,
        },
        ValueKind::I16 => match spec_parse_int(tok, -0x8000, 0x7fff) {
            Some(v) => Some(raw_of_int(v, 2) as u64),
            None => None,
        },
        ValueKind::I32 => match spec_parse_int(tok, -0x8000_0000, 0x7fff_ffff) {
            Some(v) => Some(raw_of_int(v, 4) as u64),
            None => None,
        },
        ValueKind::F32 => match f32_of_dec(tok) {
            Some(b) => Some(b as u64),
            None => None,
        },
        ValueKind::F64 => f64_of_dec(tok),
    }
}

/// The raw value is a float NaN pattern under kind `k`.
pub open spec fn scalar_raw_is_nan(k: ValueKind, raw: u64) -> bool {
    ||| (k == ValueKind::F32 && crate::scalar::is_nan_bits32(raw as u32))
    ||| (k == ValueKind::F64 && crate::scalar::is_nan_bits64(raw))
}

/// A parsed scalar always fits its kind's width.
pub proof fn lemma_scalar_parse_range(k: ValueKind, tok: Seq<u8>)
    ensures
        scalar_parse(k, tok) matches Some(raw) ==> raw < pow256(k.spec_width()),
{
    lemma_pow256_values();
    match k {
        ValueKind::I8 => {
            if scalar_parse(k, tok) is Some {
                let v = spec_parse_int(tok, -0x80, 0x7f)->Some_0;
                crate::scalar::lemma_raw_int_round_trip(v, 1);
            }
        },
        ValueKind::I16 => {
            if scalar_parse(k, tok) is Some {
                let v = spec_parse_int(tok, -0x8000, 0x7fff)->Some_0;
                crate::scalar::lemma_raw_int_round_trip(v, 2);
            }
        },
        ValueKind::I32 => {
            if scalar_parse(k, tok) is Some {
                let v = spec_parse_int(tok, -0x8000_0000, 0x7fff_ffff)->Some_0;
                crate::scalar::lemma_raw_int_round_trip(v, 4);
            }
        },
        _ => {},
    }
}

/// Integer tokens parse back to the raw value they were rendered from.
pub proof fn lemma_int_token_round_trip(k: ValueKind, raw: u64)
    requires
        raw < pow256(k.spec_width()),
        k != ValueKind::F32,
        k != ValueKind::F64,
    ensures
        scalar_parse(k, scalar_token(k, raw)) == Some(raw),
{
    lemma_pow256_values();
    match k {
        ValueKind::U8 => {
            crate::scalar::lemma_dec_uint_round_trip(raw as nat, 0xff);
        },
        ValueKind::U16 => {
            crate::scalar::lemma_dec_uint_round_trip(raw as nat, 0xffff);
        },
        ValueKind::U32 => {
            crate::scalar::lemma_dec_uint_round_trip(raw as nat, 0xffff_ffff);
        },
        ValueKind::I8 => {
            crate::scalar::lemma_dec_int_round_trip(int_of_raw(raw as nat, 1), -0x80, 0x7f);
            lemma_int_raw_round_trip(raw as nat, 1);
        },
        ValueKind::I16 => {
            crate::scalar::lemma_dec_int_round_trip(int_of_raw(raw as nat, 2), -0x8000, 0x7fff);
            lemma_int_raw_round_trip(raw as nat, 2);
        },
        ValueKind::I32 => {
            crate::scalar::lemma_dec_int_round_trip(
                int_of_raw(raw as nat, 4),
                -0x8000_0000,
                0x7fff_ffff,
            );
            lemma_int_raw_round_trip(raw as nat, 4);
        },
        _ => {},
    }
}

/// Integer tokens are well formed: non-empty, no whitespace.
pub proof fn lemma_int_token_wf(k: ValueKind, raw: u64)
    requires
        k != ValueKind::F32,
        k != ValueKind::F64,
    ensures
        crate::text::is_token(scalar_token(k, raw)),
{
    let t = scalar_token(k, raw);
    match k {
        ValueKind::U8 | ValueKind::U16 | ValueKind::U32 => {
            crate::scalar::lemma_dec_nat_is_digits(raw as nat);
        },
        ValueKind::I8 | ValueKind::I16 | ValueKind::I32 => {
            let v = int_of_raw(
                raw as nat,
                if k == ValueKind::I8 {
                    1nat
                } else if k == ValueKind::I16 {
                    2nat
                } else {
                    4nat
                },
            );
            if v < 0 {
                crate::scalar::lemma_dec_nat_is_digits((-v) as nat);
                assert(t[0] == 45u8);
                assert(forall|i: int|
                    1 <= i < t.len() ==> #[trigger] t[i] == dec_nat((-v) as nat)[i - 1]);
            } else {
                crate::scalar::lemma_dec_nat_is_digits(v as nat);
            }
        },
        _ => {},
    }
}

/// Render one scalar of kind `k` as its decimal token.
///
/// Besides producing the token, the call establishes that the token is well
/// formed and (NaN patterns aside) parses back to `raw`.
pub fn scalar_token_exec(k: ValueKind, raw: u64) -> (t: Vec<u8>)
    requires
        raw < pow256(k.spec_width()),
    ensures
        t@ == scalar_token(k, raw),
        crate::text::is_token(t@),
        !scalar_raw_is_nan(k, raw) ==> scalar_parse(k, t@) == Some(raw),
{
    proof {
        lemma_pow256_values();
        if k != ValueKind::F32 && k != ValueKind::F64 {
            lemma_int_token_round_trip(k, raw);
            lemma_int_token_wf(k, raw);
        }
    }
    match k {
        ValueKind::U8 => crate::scalar::fmt_u64(raw),
        ValueKind::U16 => crate::scalar::fmt_u64(raw),
        ValueKind::U32 => crate::scalar::fmt_u64(raw),
        ValueKind::I8 => {
            let mut out: Vec<u8> = Vec::new();
            fmt_i64_into(&mut out, raw_to_i8(raw) as i64);
            out
        },
        ValueKind::I16 => {
            let mut out: Vec<u8> = Vec::new();
            fmt_i64_into(&mut out, raw_to_i16(raw) as i64);
            out
        },
        ValueKind::I32 => {
            let mut out: Vec<u8> = Vec::new();
            fmt_i64_into(&mut out, raw_to_i32(raw) as i64);
            out
        },
        ValueKind::F32 => {
            let t = format_f32_bits(raw as u32);
            proof {
                assert(forall|i: int|
                    0 <= i < t@.len() ==> !crate::text::is_ws(#[trigger] t@[i]));
            }
            t
        },
        ValueKind::F64 => {
            let t = format_f64_bits(raw);
            proof {
                assert(forall|i: int|
                    0 <= i < t@.len() ==> !crate::text::is_ws(#[trigger] t@[i]));
            }
            t
        },
    }
}

/// Parse one token as a scalar of kind `k`, returning its raw value.
pub fn scalar_parse_exec(k: ValueKind, tok: &[u8]) -> (r: Result<u64, Error>)
    ensures
        match r {
            Ok(raw) => scalar_parse(k, tok@) == Some(raw) && raw < pow256(k.spec_width()),
            Err(e) => {
                &&& scalar_parse(k, tok@) is None
                &&& if k == ValueKind::F32 || k == ValueKind::F64 {
                    e matches Error::ParseFloatError { .. }
                } else {
                    e matches Error::ParseIntError { .. }
                }
            },
        },
{
    proof {
        lemma_pow256_values();
        lemma_scalar_parse_range(k, tok@);
    }
    match k {
        ValueKind::U8 => match parse_uint(tok, 0xff) {
            Some(v) => Ok(v),
            None => Err(Error::new_parse_int_error("invalid unsigned integer literal")),
        },
        ValueKind::U16 => match parse_uint(tok, 0xffff) {
            Some(v) => Ok(v),
            None => Err(Error::new_parse_int_error("invalid unsigned integer literal")),
        },
        ValueKind::U32 => match parse_uint(tok, 0xffff_ffff) {
            Some(v) => Ok(v),
            None => Err(Error::new_parse_int_error("invalid unsigned integer literal")),
        },
        ValueKind::I8 => match parse_int(tok, -0x80, 0x7f) {
            Some(v) => Ok(i8_to_raw(v as i8)),
            None => Err(Error::new_parse_int_error("invalid signed integer literal")),
        },
        ValueKind::I16 => match parse_int(tok, -0x8000, 0x7fff) {
            Some(v) => Ok(i16_to_raw(v as i16)),
            None => Err(Error::new_parse_int_error("invalid signed integer literal")),
        },
        ValueKind::I32 => match parse_int(tok, -0x8000_0000, 0x7fff_ffff) {
            Some(v) => Ok(i32_to_raw(v as i32)),
            None => Err(Error::new_parse_int_error("invalid signed integer literal")),
        },
        ValueKind::F32 => match parse_f32_bits(tok) {
            Some(b) => Ok(b as u64),
            None => Err(Error::new_parse_float_error("invalid float literal")),
        },
        ValueKind::F64 => match parse_f64_bits(tok) {
            Some(b) => Ok(b),
            None => Err(Error::new_parse_float_error("invalid float literal")),
        },
    }
}

} // verus!

verus! {

// ---------------------------------------------------------------------------
// ASCII text codec: whole records
// ---------------------------------------------------------------------------
/// The decimal tokens of one field's scalars.
pub open spec fn field_tokens(f: Field) -> Seq<Seq<u8>> {
    field_raws(f).map(|k: int, r: u64| scalar_token(field_kind(f), r))
}

/// The decimal tokens of a whole record, in field order.
pub open spec fn rec_tokens(fs: Seq<Field>) -> Seq<Seq<u8>>
    decreases fs.len(),
{
    if fs.len() == 0 {
        Seq::empty()
    } else {
        rec_tokens(fs.drop_last()) + field_tokens(fs.last())
    }
}

/// Index of field `i`'s `k`-th token within a record's token list.
pub open spec fn tok_index(defs: Seq<FieldDef>, i: int, k: int) -> int {
    total_count(defs.take(i)) + k
}

/// Every token of field `i` parses under its kind.
pub open spec fn parses_ok(defs: Seq<FieldDef>, toks: Seq<Seq<u8>>) -> bool {
    forall|i: int, k: int|
        0 <= i < defs.len() && 0 <= k < defs[i].count ==> scalar_parse(
            defs[i].kind,
            toks[#[trigger] tok_index(defs, i, k)],
        ) is Some
}

/// The tokens parse exactly to the record's raw values.
pub open spec fn parses_to(defs: Seq<FieldDef>, toks: Seq<Seq<u8>>, fs: Seq<Field>) -> bool {
    forall|i: int, k: int|
        0 <= i < defs.len() && 0 <= k < defs[i].count ==> scalar_parse(
            defs[i].kind,
            toks[#[trigger] tok_index(defs, i, k)],
        ) == Some(field_raws(fs[i])[k])
}

/// None of the record's float scalars is a NaN pattern.
pub open spec fn rec_no_nan(fs: Seq<Field>) -> bool {
    forall|i: int, k: int|
        0 <= i < fs.len() && 0 <= k < field_raws(fs[i]).len() ==> !scalar_raw_is_nan(
            field_kind(fs[i]),
            #[trigger] field_raws(fs[i])[k],
        )
}

/// A prefix of a schema never has more tokens than the whole.
pub proof fn lemma_total_count_prefix_mono(defs: Seq<FieldDef>, i: int)
    requires
        0 <= i <= defs.len(),
    ensures
        total_count(defs.take(i)) <= total_count(defs),
    decreases defs.len() - i,
{
    if i < defs.len() {
        lemma_total_count_prefix_mono(defs, i + 1);
        assert(defs.take(i + 1).drop_last() =~= defs.take(i));
        assert(total_count(defs.take(i)) <= total_count(defs.take(i + 1)));
    } else {
        assert(defs.take(i) =~= defs);
    }
}

/// Unrolling `total_count` one definition at a time.
pub proof fn lemma_total_count_take_step(defs: Seq<FieldDef>, i: int)
    requires
        0 <= i < defs.len(),
    ensures
        total_count(defs.take(i + 1)) == total_count(defs.take(i)) + defs[i].count,
{
    assert(defs.take(i + 1).drop_last() =~= defs.take(i));
    assert(defs.take(i + 1).last() == defs[i]);
}

/// `rec_tokens` one field at a time.
proof fn lemma_rec_tokens_take_step(fs: Seq<Field>, i: int)
    requires
        0 <= i < fs.len(),
    ensures
        rec_tokens(fs.take(i + 1)) == rec_tokens(fs.take(i)) + field_tokens(fs[i]),
{
    assert(fs.take(i + 1).drop_last() =~= fs.take(i));
    assert(fs.take(i + 1).last() == fs[i]);
}

/// The token count of a record equals its schema's total count.
pub proof fn lemma_rec_tokens_len(fs: Seq<Field>, defs: Seq<FieldDef>)
    requires
        rec_wf(fs, defs),
    ensures
        rec_tokens(fs).len() == total_count(defs),
    decreases fs.len(),
{
    if fs.len() > 0 {
        assert(rec_wf(fs.drop_last(), defs.drop_last()));
        lemma_rec_tokens_len(fs.drop_last(), defs.drop_last());
        assert(field_tokens(fs.last()).len() == field_raws(fs.last()).len());
        lemma_field_raws_range(fs.last());
    }
}

/// The number of tokens one record under `schema` must have, when it fits in
/// memory.
fn total_count_exec(schema: &Schema) -> (r: Option<usize>)
    ensures
        match r {
            Some(t) => t == total_count(schema.fields@),
            None => total_count(schema.fields@) > usize::MAX,
        },
{
    let n = schema.fields.len();
    let mut acc: u64 = 0;
    let mut i: usize = 0;
    while i < n
        invariant
            i <= n == schema.fields@.len(),
            acc == total_count(schema.fields@.take(i as int)),
        decreases n - i,
    {
        proof {
            lemma_total_count_take_step(schema.fields@, i as int);
        }
        match acc.checked_add(schema.fields[i].count) {
            Some(t) => {
                acc = t;
            },
            None => {
                proof {
                    lemma_total_count_prefix_mono(schema.fields@, i + 1);
                }
                return None;
            },
        }
        i = i + 1;
    }
    proof {
        assert(schema.fields@.take(n as int) =~= schema.fields@);
    }
    if acc <= usize::MAX as u64 {
        Some(acc as usize)
    } else {
        None
    }
}

/// First newline at or after `pos`, or the end of the buffer.
pub open spec fn line_end_of(s: Seq<u8>, pos: int) -> int
    decreases s.len() - pos,
{
    if pos < 0 || pos >= s.len() {
        s.len() as int
    } else if s[pos] == 10 {
        pos
    } else {
        line_end_of(s, pos + 1)
    }
}

/// Position right after the line starting at `pos`: past the newline, or the
/// end of the buffer for an unterminated final line.
pub open spec fn line_next_of(s: Seq<u8>, pos: int) -> int {
    if line_end_of(s, pos) < s.len() {
        line_end_of(s, pos) + 1
    } else {
        s.len() as int
    }
}

pub(crate) fn find_line_end(buf: &[u8], pos: usize) -> (e: usize)
    requires
        pos <= buf@.len(),
    ensures
        e == line_end_of(buf@, pos as int),
        pos <= e <= buf@.len(),
{
    let n = buf.len();
    let mut i: usize = pos;
    while i < n
        invariant
            pos <= i <= n == buf@.len(),
            line_end_of(buf@, pos as int) == line_end_of(buf@, i as int),
        decreases n - i,
    {
        if buf[i] == 10 {
            return i;
        }
        i = i + 1;
    }
    n
}

impl DynRecord {
    /// Append this record as one ASCII line: decimal tokens joined by single
    /// spaces, newline-terminated.
    ///
    /// Succeeds exactly when the record matches `schema`; nothing is written
    /// otherwise.  On success the emitted tokens are well formed, and every
    /// non-NaN scalar's token parses back to the very scalar.
    #[verifier::rlimit(100)]
    #[verifier::spinoff_prover]
    pub fn write_line(&self, out: &mut Vec<u8>, schema: &Schema) -> (r: Result<(), Error>)
        ensures
            r is Ok <==> rec_wf(self.0@, schema.fields@),
            r is Ok ==> final(out)@ == old(out)@ + crate::text::join_sp(rec_tokens(self.0@))
                + seq![10u8],
            r is Ok ==> forall|j: int|
                0 <= j < rec_tokens(self.0@).len() ==> crate::text::is_token(
                    #[trigger] rec_tokens(self.0@)[j],
                ),
            r is Ok ==> parses_to(
                schema.fields@,
                rec_tokens(self.0@),
                self.0@,
            ) || !rec_no_nan(self.0@),
            r is Err ==> final(out)@ == old(out)@ && mismatch_error_sides(
                r->Err_0,
                *self,
                *schema,
            ),
    {
        if !self.is_schema_consistent(schema) {
            return Err(
                Error::new_writer_schema_mismatch_error(
                    clone_defs(schema),
                    record_field_defs(self),
                ),
            );
        }
        let n = self.0.len();
        let ghost fs = self.0@;
        let ghost defs = schema.fields@;
        let mut first: bool = true;
        let mut i: usize = 0;
        proof {
            assert(rec_tokens(fs.take(0)) =~= Seq::<Seq<u8>>::empty());
            assert(out@ =~= old(out)@ + crate::text::join_sp(rec_tokens(fs.take(0))));
        }
        while i < n
            invariant
                i <= n == fs.len(),
                rec_wf(fs, defs),
                self.0@ == fs,
                schema.fields@ == defs,
                first <==> rec_tokens(fs.take(i as int)).len() == 0,
                out@ == old(out)@ + crate::text::join_sp(rec_tokens(fs.take(i as int))),
                forall|j: int|
                    0 <= j < rec_tokens(fs.take(i as int)).len() ==> crate::text::is_token(
                        #[trigger] rec_tokens(fs.take(i as int))[j],
                    ),
                forall|i2: int, k: int|
                    0 <= i2 < i && 0 <= k < field_raws(fs[i2]).len() && !scalar_raw_is_nan(
                        field_kind(fs[i2]),
                        field_raws(fs[i2])[k],
                    ) ==> scalar_parse(
                        field_kind(fs[i2]),
                        scalar_token(field_kind(fs[i2]), #[trigger] field_raws(fs[i2])[k]),
                    ) == Some(field_raws(fs[i2])[k]),
            decreases n - i,
        {
            let f = &self.0[i];
            let (raws, w) = field_to_raws(f);
            let m = raws.len();
            let ghost toks0 = rec_tokens(fs.take(i as int));
            let ghost ftoks = field_tokens(fs[i as int]);
            let mut k: usize = 0;
            proof {
                lemma_rec_tokens_take_step(fs, i as int);
                assert(toks0 + ftoks.take(0) =~= toks0);
            }
            while k < m
                invariant
                    k <= m,
                    m == raws@.len() == field_raws(fs[i as int]).len(),
                    i < n == fs.len(),
                    self.0@ == fs,
                    raws@ == field_raws(fs[i as int]),
                    w == field_kind(fs[i as int]).spec_width(),
                    forall|q: int| 0 <= q < m ==> #[trigger] raws@[q] < pow256(w as nat),
                    ftoks == field_tokens(fs[i as int]),
                    first <==> (toks0 + ftoks.take(k as int)).len() == 0,
                    out@ == old(out)@ + crate::text::join_sp(toks0 + ftoks.take(k as int)),
                    forall|j: int|
                        0 <= j < (toks0 + ftoks.take(k as int)).len() ==> crate::text::is_token(
                            #[trigger] (toks0 + ftoks.take(k as int))[j],
                        ),
                    forall|q: int|
                        0 <= q < k && !scalar_raw_is_nan(
                            field_kind(fs[i as int]),
                            field_raws(fs[i as int])[q],
                        ) ==> scalar_parse(
                            field_kind(fs[i as int]),
                            scalar_token(
                                field_kind(fs[i as int]),
                                #[trigger] field_raws(fs[i as int])[q],
                            ),
                        ) == Some(field_raws(fs[i as int])[q]),
                decreases m - k,
            {
                let t = scalar_token_exec(f.kind(), raws[k]);
                proof {
                    assert(ftoks[k as int] == scalar_token(
                        field_kind(fs[i as int]),
                        raws@[k as int],
                    ));
                    assert((toks0 + ftoks.take(k as int)).push(t@) =~= toks0 + ftoks.take(
                        k + 1,
                    ));
                    crate::text::lemma_join_sp_push(toks0 + ftoks.take(k as int), t@);
                }
                crate::text::join_push(out, t.as_slice(), first);
                proof {
                    assert(out@ =~= old(out)@ + crate::text::join_sp(toks0 + ftoks.take(k + 1)));
                }
                first = false;
                k = k + 1;
            }
            proof {
                assert(toks0 + ftoks.take(m as int) =~= rec_tokens(fs.take(i + 1)));
            }
            i = i + 1;
        }
        out.push(10);
        proof {
            assert(fs.take(n as int) =~= fs);
            assert(out@ =~= old(out)@ + crate::text::join_sp(rec_tokens(fs)) + seq![10u8]);
            if rec_no_nan(fs) {
                assert forall|i2: int, k2: int|
                    0 <= i2 < defs.len() && 0 <= k2 < defs[i2].count implies scalar_parse(
                    defs[i2].kind,
                    rec_tokens(fs)[#[trigger] tok_index(defs, i2, k2)],
                ) == Some(field_raws(fs[i2])[k2]) by {
                    lemma_rec_tokens_at(fs, defs, i2, k2);
                }
            }
        }
        Ok(())
    }
}

/// The token at `tok_index(defs, i, k)` of a well-formed record is field
/// `i`'s `k`-th scalar token.
pub proof fn lemma_rec_tokens_at(fs: Seq<Field>, defs: Seq<FieldDef>, i: int, k: int)
    requires
        rec_wf(fs, defs),
        0 <= i < defs.len(),
        0 <= k < defs[i].count,
    ensures
        rec_tokens(fs)[tok_index(defs, i, k)] == scalar_token(
            field_kind(fs[i]),
            field_raws(fs[i])[k],
        ),
        0 <= tok_index(defs, i, k) < rec_tokens(fs).len(),
    decreases fs.len(),
{
    lemma_rec_tokens_len(fs, defs);
    lemma_field_raws_range(fs[i]);
    if i == fs.len() - 1 {
        assert(rec_wf(fs.drop_last(), defs.drop_last()));
        lemma_rec_tokens_len(fs.drop_last(), defs.drop_last());
        assert(defs.take(i) =~= defs.drop_last());
        assert(rec_tokens(fs)[total_count(defs.take(i)) + k] == field_tokens(fs[i])[k]);
    } else {
        assert(rec_wf(fs.drop_last(), defs.drop_last()));
        lemma_rec_tokens_at(fs.drop_last(), defs.drop_last(), i, k);
        assert(defs.drop_last().take(i) =~= defs.take(i));
        assert(fs.drop_last()[i] == fs[i]);
        lemma_rec_tokens_len(fs.drop_last(), defs.drop_last());
        lemma_total_count_prefix_mono(defs.drop_last(), i + 1);
        lemma_total_count_take_step(defs.drop_last(), i);
        assert(rec_tokens(fs)[tok_index(defs, i, k)] == rec_tokens(fs.drop_last())[tok_index(
            defs,
            i,
            k,
        )]);
    }
}

} // verus!

verus! {

impl DynRecord {
    /// Read one record from the ASCII line starting at `pos`, advancing
    /// `pos` past the line.
    ///
    /// The line is split into whitespace-separated tokens; their number must
    /// equal the schema's total scalar count, and each token must parse under
    /// its column's kind.  Succeeds exactly when both hold; the record's raw
    /// values are then exactly what the tokens parse to.
    pub fn read_line(buf: &[u8], pos: &mut usize, schema: &Schema) -> (r: Result<
        DynRecord,
        Error,
    >)
        requires
            *old(pos) <= buf@.len(),
        ensures
            *final(pos) == line_next_of(buf@, *old(pos) as int),
            ({
                let line = buf@.subrange(
                    *old(pos) as int,
                    line_end_of(buf@, *old(pos) as int),
                );
                let toks = crate::text::split_ws(line);
                let defs = schema.fields@;
                match r {
                    Ok(rec) => {
                        &&& toks.len() == total_count(defs)
                        &&& rec_wf(rec.0@, defs)
                        &&& parses_ok(defs, toks)
                        &&& parses_to(defs, toks, rec.0@)
                    },
                    Err(e) => {
                        ||| (toks.len() != total_count(defs) && (e matches
                        Error::TextTokenMismatchError { expect, found } && found == toks.len()
                            && (total_count(defs) <= usize::MAX ==> expect == total_count(
                            defs,
                        ))))
                        ||| (toks.len() == total_count(defs) && !parses_ok(defs, toks) && (
                        e matches Error::ParseIntError { .. } || e matches
                            Error::ParseFloatError { .. }))
                    },
                }
            }),
    {
        let ghost defs = schema.fields@;
        let line_end = find_line_end(buf, *pos);
        let line = crate::scalar::slice_subrange(buf, *pos, line_end);
        if line_end < buf.len() {
            *pos = line_end + 1;
        } else {
            *pos = line_end;
        }
        let toks = crate::text::tokenize(line);
        let ghost tokss = toks@.map(|k: int, t: Vec<u8>| t@);
        let found = toks.len();
        let total = match total_count_exec(schema) {
            Some(t) => t,
            None => {
                proof {
                    assert(tokss.len() != total_count(defs));
                }
                return Err(Error::new_text_token_mismatch_error(usize::MAX, found));
            },
        };
        if found != total {
            return Err(Error::new_text_token_mismatch_error(total, found));
        }
        let nf = schema.fields.len();
        let mut fields: Vec<Field> = Vec::new();
        let mut tok_pos: usize = 0;
        let mut i: usize = 0;
        proof {
            assert(defs.take(0) =~= Seq::<FieldDef>::empty());
        }
        while i < nf
            invariant
                i <= nf == defs.len(),
                schema.fields@ == defs,
                fields@.len() == i,
                tok_pos == total_count(defs.take(i as int)),
                tok_pos <= total == total_count(defs) == tokss.len(),
                tokss == toks@.map(|k: int, t: Vec<u8>| t@),
                rec_wf(fields@, defs.take(i as int)),
                forall|i2: int, k: int|
                    0 <= i2 < i && 0 <= k < defs[i2].count ==> scalar_parse(
                        defs[i2].kind,
                        tokss[#[trigger] tok_index(defs, i2, k)],
                    ) == Some(field_raws(fields@[i2])[k]),
            decreases nf - i,
        {
            let d = &schema.fields[i];
            let ghost tok_pos0 = tok_pos;
            proof {
                lemma_total_count_take_step(defs, i as int);
                lemma_total_count_prefix_mono(defs, i + 1);
            }
            let cnt_u64 = d.count;
            let cnt = cnt_u64 as usize;
            let mut raws: Vec<u64> = Vec::new();
            let mut k: usize = 0;
            while k < cnt
                invariant
                    k <= cnt,
                    i < nf == defs.len(),
                    schema.fields@ == defs,
                    cnt == defs[i as int].count,
                    tok_pos == tok_pos0 + k,
                    tok_pos0 == total_count(defs.take(i as int)),
                    tok_pos0 + cnt <= total == total_count(defs) == tokss.len(),
                    tokss == toks@.map(|q: int, t: Vec<u8>| t@),
                    raws@.len() == k,
                    forall|q: int|
                        0 <= q < k ==> scalar_parse(
                            defs[i as int].kind,
                            tokss[tok_pos0 + q],
                        ) == Some(#[trigger] raws@[q]),
                    forall|q: int|
                        0 <= q < k ==> #[trigger] raws@[q] < pow256(
                            defs[i as int].kind.spec_width(),
                        ),
                decreases cnt - k,
            {
                let tok = &toks[tok_pos];
                match scalar_parse_exec(d.kind, tok.as_slice()) {
                    Ok(raw) => {
                        raws.push(raw);
                    },
                    Err(e) => {
                        proof {
                            assert(tok_index(defs, i as int, k as int) == tok_pos);
                            assert(scalar_parse(
                                defs[i as int].kind,
                                tokss[tok_index(defs, i as int, k as int)],
                            ) is None);
                            assert(!parses_ok(defs, tokss));
                        }
                        return Err(e);
                    },
                }
                tok_pos = tok_pos + 1;
                k = k + 1;
            }
            let f = raws_to_field(d.kind, &raws);
            proof {
                assert(field_matches(f, defs[i as int]));
                assert(rec_wf(fields@.push(f), defs.take(i + 1)));
            }
            fields.push(f);
            i = i + 1;
        }
        proof {
            assert(defs.take(nf as int) =~= defs);
            assert(parses_ok(defs, tokss)) by {
                assert forall|i2: int, k: int|
                    0 <= i2 < defs.len() && 0 <= k < defs[i2].count implies scalar_parse(
                    defs[i2].kind,
                    tokss[#[trigger] tok_index(defs, i2, k)],
                ) is Some by {
                    assert(scalar_parse(defs[i2].kind, tokss[tok_index(defs, i2, k)])
                        == Some(field_raws(fields@[i2])[k]));
                }
            }
        }
        Ok(DynRecord(fields))
    }
}

} // verus!

verus! {

/// Round-trip law for ASCII payloads.  A well-formed record written as a
/// text line — well-formed tokens whose every token parses back to the very
/// scalar it renders, as [`DynRecord::write_line`] guarantees for every
/// record without NaN scalars — and then read back as a record under the
/// same schema, as [`DynRecord::read_line`] guarantees, has the same model
/// as the record read.
pub proof fn lemma_ascii_round_trip(
    s: Seq<u8>,
    p: int,
    fs1: Seq<Field>,
    fs2: Seq<Field>,
    defs: Seq<FieldDef>,
)
    requires
        rec_wf(fs1, defs),
        rec_wf(fs2, defs),
        0 <= p,
        p + crate::text::join_sp(rec_tokens(fs1)).len() + 1 <= s.len(),
        s.subrange(p, p + crate::text::join_sp(rec_tokens(fs1)).len() + 1)
            == crate::text::join_sp(rec_tokens(fs1)) + seq![10u8],
        forall|j: int|
            0 <= j < rec_tokens(fs1).len() ==> crate::text::is_token(
                #[trigger] rec_tokens(fs1)[j],
            ),
        parses_to(defs, rec_tokens(fs1), fs1),
        parses_to(defs, crate::text::split_ws(s.subrange(p, line_end_of(s, p))), fs2),
    ensures
        rec_model(fs1) == rec_model(fs2),
{
    crate::text::lemma_line_splits_back(s, p, rec_tokens(fs1));
    let toks = rec_tokens(fs1);
    assert(crate::text::split_ws(s.subrange(p, line_end_of(s, p))) == toks);
    assert forall|i: int| 0 <= i < fs1.len() implies #[trigger] rec_model(fs1)[i] == rec_model(
        fs2,
    )[i] by {
        lemma_field_raws_range(fs1[i]);
        lemma_field_raws_range(fs2[i]);
        assert(field_kind(fs1[i]) == defs[i].kind && field_kind(fs2[i]) == defs[i].kind);
        assert forall|k: int| 0 <= k < field_raws(fs1[i]).len() implies #[trigger] field_raws(
            fs1[i],
        )[k] == field_raws(fs2[i])[k] by {
            assert(scalar_parse(defs[i].kind, toks[tok_index(defs, i, k)]) == Some(
                field_raws(fs1[i])[k],
            ));
            assert(scalar_parse(defs[i].kind, toks[tok_index(defs, i, k)]) == Some(
                field_raws(fs2[i])[k],
            ));
        }
        assert(field_raws(fs1[i]) =~= field_raws(fs2[i]));
    }
    assert(rec_model(fs1) =~= rec_model(fs2));
}

} // verus!

verus! {

/// The binary payload of a whole record stream: each record's chunk, back
/// to back.
pub open spec fn payload_bytes(recs: Seq<Seq<Field>>) -> Seq<u8>
    decreases recs.len(),
{
    if recs.len() == 0 {
        Seq::empty()
    } else {
        payload_bytes(recs.drop_last()) + rec_bytes(recs.last())
    }
}

/// A well-formed record's chunk has the schema's chunk size.
pub proof fn lemma_rec_bytes_len(fs: Seq<Field>, defs: Seq<FieldDef>)
    requires
        rec_wf(fs, defs),
    ensures
        rec_bytes(fs).len() == chunk_size_of(defs),
    decreases fs.len(),
{
    if fs.len() > 0 {
        assert(rec_wf(fs.drop_last(), defs.drop_last()));
        lemma_rec_bytes_len(fs.drop_last(), defs.drop_last());
        lemma_field_raws_range(fs.last());
        lemma_raws_bytes_len(defs.last().kind.spec_width(), field_raws(fs.last()));
    }
}

/// Round-trip law for binary and compressed payload streams: two record
/// streams well formed under one schema with the same payload bytes have the
/// same models, record by record.  Together with the writer's contract (the
/// payload is the pushed records' chunks) and the reader's (each consumed
/// chunk is the returned record's encoding) this says that decoding an
/// encoded stream yields the very records, in order; for the compressed
/// kind, the LZF codec's contracts carry the payload through the block
/// unchanged.
pub proof fn lemma_payload_round_trip(
    recs1: Seq<Seq<Field>>,
    recs2: Seq<Seq<Field>>,
    defs: Seq<FieldDef>,
)
    requires
        recs1.len() == recs2.len(),
        forall|i: int| 0 <= i < recs1.len() ==> rec_wf(#[trigger] recs1[i], defs),
        forall|i: int| 0 <= i < recs2.len() ==> rec_wf(#[trigger] recs2[i], defs),
        payload_bytes(recs1) == payload_bytes(recs2),
    ensures
        forall|i: int|
            0 <= i < recs1.len() ==> rec_model(#[trigger] recs1[i]) == rec_model(recs2[i]),
    decreases recs1.len(),
{
    if recs1.len() > 0 {
        lemma_rec_bytes_len(recs1.last(), defs);
        lemma_rec_bytes_len(recs2.last(), defs);
        lemma_seq_concat_split(
            payload_bytes(recs1.drop_last()),
            rec_bytes(recs1.last()),
            payload_bytes(recs2.drop_last()),
            rec_bytes(recs2.last()),
        );
        lemma_chunk_round_trip(recs1.last(), recs2.last(), defs);
        lemma_payload_round_trip(recs1.drop_last(), recs2.drop_last(), defs);
        assert forall|i: int|
            0 <= i < recs1.len() implies rec_model(#[trigger] recs1[i]) == rec_model(
            recs2[i],
        ) by {
            if i < recs1.len() - 1 {
                assert(recs1.drop_last()[i] == recs1[i]);
                assert(recs2.drop_last()[i] == recs2[i]);
                assert(rec_model(recs1.drop_last()[i]) == rec_model(recs2.drop_last()[i]));
            }
        }
    }
}

} // verus!

verus! {

/// Where each record of a payload stream lies: under one schema every chunk
/// has the same size, and the `i`-th record's chunk is the `i`-th
/// equal-width slice of the stream.  With [`DynRecord::read_chunk`]'s
/// contract (the consumed slice is the returned record's encoding) and
/// [`lemma_chunk_round_trip`], a reader walking the stream returns, step by
/// step, records with the models of the records the stream encodes.
pub proof fn lemma_payload_chunk_at(recs: Seq<Seq<Field>>, defs: Seq<FieldDef>, i: int)
    requires
        forall|k: int| 0 <= k < recs.len() ==> rec_wf(#[trigger] recs[k], defs),
        0 <= i < recs.len(),
    ensures
        payload_bytes(recs).len() == recs.len() * chunk_size_of(defs),
        payload_bytes(recs).subrange(
            i * chunk_size_of(defs),
            (i + 1) * chunk_size_of(defs),
        ) == rec_bytes(recs[i]),
    decreases recs.len(),
{
    let cs = chunk_size_of(defs) as int;
    lemma_rec_bytes_len(recs.last(), defs);
    if recs.len() == 1 {
        assert(payload_bytes(recs.drop_last()) =~= Seq::<u8>::empty());
        assert(payload_bytes(recs).subrange(0, cs) =~= rec_bytes(recs[0]));
    } else {
        lemma_payload_chunk_at(recs.drop_last(), defs, if i < recs.len() - 1 {
            i
        } else {
            0
        });
        assert((recs.len() - 1) * cs + cs == recs.len() * cs) by (nonlinear_arith);
        if i == recs.len() - 1 {
            assert(payload_bytes(recs).subrange(i * cs, (i + 1) * cs) =~= rec_bytes(
                recs[i],
            )) by {
                assert(i * cs == (recs.len() - 1) * cs && (i + 1) * cs == recs.len() * cs)
                    by (nonlinear_arith)
                    requires
                        i == recs.len() - 1,
                ;
            }
        } else {
            assert((i + 1) * cs <= (recs.len() - 1) * cs) by (nonlinear_arith)
                requires
                    i + 1 <= recs.len() - 1,
                    cs >= 0,
            ;
            assert(0 <= i * cs) by (nonlinear_arith)
                requires
                    0 <= i,
                    cs >= 0,
            ;
            assert((i + 1) * cs == i * cs + cs) by (nonlinear_arith);
            assert forall|p: int| i * cs <= p < (i + 1) * cs implies #[trigger] payload_bytes(
                recs,
            )[p] == payload_bytes(recs.drop_last())[p] by {
                assert(p < payload_bytes(recs.drop_last()).len());
                assert(payload_bytes(recs)[p] == (payload_bytes(recs.drop_last()) + rec_bytes(
                    recs.last(),
                ))[p]);
            }
            assert(payload_bytes(recs).subrange(i * cs, (i + 1) * cs) =~= payload_bytes(
                recs.drop_last(),
            ).subrange(i * cs, (i + 1) * cs));
        }
    }
}

} // verus!
