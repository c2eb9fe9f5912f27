//! The sequential writer: emits a PCD header with a fixed-width placeholder
//! for the point count, encodes pushed records through the record codec, and
//! patches the placeholder when finished.
//!
//! The writer builds the whole file in an owned byte buffer; `finish`
//! returns it.  In `BinaryCompressed` mode the records are collected
//! uncompressed and the LZF-framed block is appended on `finish`.

use vstd::prelude::*;

use crate::error::Error;
use crate::metas::{chunk_size_of, DataKind, FieldDef, Schema, ValueKind, ViewPoint};
use crate::record::{rec_bytes, rec_tokens, rec_wf, DynRecord};
use crate::scalar::{dec_nat, dec_of_f64, le_bytes_of};
use vstd::string::StringSliceAdditionalSpecFns;

verus! {

/// Character width reserved for the `POINTS` value: enough for any 64-bit
/// count.
pub const POINTS_ARG_WIDTH: usize = 20;

/// `n` spaces.
pub open spec fn spaces(n: nat) -> Seq<u8> {
    Seq::new(n, |i: int| 32u8)
}

/// `n`, rendered in decimal and left-justified in a field of `w` spaces.
pub open spec fn padded_dec(n: u64, w: nat) -> Seq<u8> {
    dec_nat(n as nat) + spaces((w - dec_nat(n as nat).len()) as nat)
}

/// One header line: the keyword, one token per field, a newline.
pub open spec fn header_list_line(kw: Seq<u8>, toks: Seq<Seq<u8>>) -> Seq<u8> {
    crate::text::join_sp(seq![kw] + toks) + seq![10u8]
}

/// The tokens of the `FIELDS` line: the schema's names as bytes.
pub open spec fn name_tokens(fields: Seq<FieldDef>) -> Seq<Seq<u8>> {
    fields.map(|i: int, d: FieldDef| vstd::utf8::encode_utf8(d.name@))
}

/// The tokens of the `SIZE` line: each field's scalar width.
pub open spec fn size_tokens(fields: Seq<FieldDef>) -> Seq<Seq<u8>> {
    fields.map(|i: int, d: FieldDef| dec_nat(d.kind.spec_width()))
}

/// The tokens of the `TYPE` line: each field's type letter.
pub open spec fn type_tokens(fields: Seq<FieldDef>) -> Seq<Seq<u8>> {
    fields.map(
        |i: int, d: FieldDef|
            match d.kind.spec_type_kind() {
                crate::metas::TypeKind::U => "U".spec_bytes(),
                crate::metas::TypeKind::I => "I".spec_bytes(),
                crate::metas::TypeKind::F => "F".spec_bytes(),
            },
    )
}

/// The tokens of the `COUNT` line: each field's scalar count.
pub open spec fn count_tokens(fields: Seq<FieldDef>) -> Seq<Seq<u8>> {
    fields.map(|i: int, d: FieldDef| dec_nat(d.count as nat))
}

/// The seven pose components of a viewpoint, in line order.
pub open spec fn viewpoint_bits(vp: ViewPoint) -> Seq<u64> {
    seq![vp.tx, vp.ty, vp.tz, vp.qw, vp.qx, vp.qy, vp.qz]
}

/// The tokens of the `VIEWPOINT` line: the seven pose components.
pub open spec fn viewpoint_tokens(vp: ViewPoint) -> Seq<Seq<u8>> {
    seq![
        dec_of_f64(vp.tx),
        dec_of_f64(vp.ty),
        dec_of_f64(vp.tz),
        dec_of_f64(vp.qw),
        dec_of_f64(vp.qx),
        dec_of_f64(vp.qy),
        dec_of_f64(vp.qz),
    ]
}

/// The `DATA` line.
pub open spec fn data_line(data: DataKind) -> Seq<u8> {
    match data {
        DataKind::Ascii => "DATA ascii".spec_bytes() + seq![10u8],
        DataKind::Binary => "DATA binary".spec_bytes() + seq![10u8],
        DataKind::BinaryCompressed => "DATA binary_compressed".spec_bytes() + seq![10u8],
    }
}

/// Everything the writer emits before the `POINTS` value.
pub open spec fn header_before_points(
    width: u64,
    height: u64,
    viewpoint: ViewPoint,
    fields: Seq<FieldDef>,
) -> Seq<u8> {
    "# .PCD v.7 - Point Cloud Data file format".spec_bytes() + seq![10u8]
        + "VERSION .7".spec_bytes() + seq![10u8] + header_list_line(
        "FIELDS".spec_bytes(),
        name_tokens(fields),
    ) + header_list_line("SIZE".spec_bytes(), size_tokens(fields)) + header_list_line(
        "TYPE".spec_bytes(),
        type_tokens(fields),
    ) + header_list_line("COUNT".spec_bytes(), count_tokens(fields)) + header_list_line(
        "WIDTH".spec_bytes(),
        seq![dec_nat(width as nat)],
    ) + header_list_line("HEIGHT".spec_bytes(), seq![dec_nat(height as nat)])
        + header_list_line("VIEWPOINT".spec_bytes(), viewpoint_tokens(viewpoint))
        + "POINTS ".spec_bytes()
}

/// The whole header, with the `POINTS` value given by `points_text` (the
/// placeholder spaces at first, the patched count in the finished file).
pub open spec fn header_bytes(
    width: u64,
    height: u64,
    viewpoint: ViewPoint,
    fields: Seq<FieldDef>,
    data: DataKind,
    points_text: Seq<u8>,
) -> Seq<u8> {
    header_before_points(width, height, viewpoint, fields) + points_text + seq![10u8]
        + data_line(data)
}

/// The `Writer` struct writes points to an owned byte buffer.
pub struct Writer {
    pub data_kind: DataKind,
    pub record_spec: Schema,
    pub out: Vec<u8>,
    pub raw: Vec<u8>,
    pub num_records: u64,
    pub points_arg_begin: usize,
    pub points_arg_width: usize,
    pub width: u64,
    pub height: u64,
    pub viewpoint: ViewPoint,
}

impl Writer {
    /// Structural well-formedness: the buffer holds the emitted header with
    /// the placeholder region intact in position, followed by the records
    /// pushed so far.
    pub open spec fn wf(self) -> bool {
        &&& self.points_arg_begin == header_before_points(
            self.width,
            self.height,
            self.viewpoint,
            self.record_spec.fields@,
        ).len()
        &&& self.points_arg_width == POINTS_ARG_WIDTH
        &&& self.points_arg_begin + self.points_arg_width <= self.out@.len()
        &&& self.record_spec.spec_sane()
        &&& exists|payload: Seq<u8>|
            self.out@ == header_bytes(
                self.width,
                self.height,
                self.viewpoint,
                self.record_spec.fields@,
                self.data_kind,
                spaces(POINTS_ARG_WIDTH as nat),
            ) + payload
        &&& (self.data_kind != DataKind::BinaryCompressed ==> self.raw@.len() == 0)
        &&& (self.data_kind == DataKind::BinaryCompressed ==> self.out@ == header_bytes(
            self.width,
            self.height,
            self.viewpoint,
            self.record_spec.fields@,
            self.data_kind,
            spaces(POINTS_ARG_WIDTH as nat),
        ))
    }

    /// The header this writer emitted, with the `POINTS` value `pts`.
    pub open spec fn spec_header(self, pts: Seq<u8>) -> Seq<u8> {
        header_bytes(
            self.width,
            self.height,
            self.viewpoint,
            self.record_spec.fields@,
            self.data_kind,
            pts,
        )
    }

    /// The payload bytes pushed so far (records in wire form for the ascii
    /// and binary kinds; raw binary chunks awaiting compression otherwise).
    pub open spec fn spec_payload(self) -> Seq<u8> {
        if self.data_kind == DataKind::BinaryCompressed {
            self.raw@
        } else {
            self.out@.skip(self.spec_header(spaces(POINTS_ARG_WIDTH as nat)).len() as int)
        }
    }
}

/// Append all of `b` to `out`.
pub fn push_bytes(out: &mut Vec<u8>, b: &[u8])
    ensures
        final(out)@ == old(out)@ + b@,
{
    let n = b.len();
    let mut i: usize = 0;
    while i < n
        invariant
            i <= n == b@.len(),
            out@ == old(out)@ + b@.take(i as int),
        decreases n - i,
    {
        out.push(b[i]);
        i = i + 1;
    }
    proof {
        assert(b@.take(n as int) =~= b@);
    }
}

/// Append the bytes of `s` to `out`.
pub fn push_str_bytes(out: &mut Vec<u8>, s: &str)
    ensures
        final(out)@ == old(out)@ + s.spec_bytes(),
{
    push_bytes(out, s.as_bytes());
}

} // verus!

verus! {

/// 10^n.
pub open spec fn pow10(n: nat) -> nat
    decreases n,
{
    if n == 0 {
        1
    } else {
        10 * pow10((n - 1) as nat)
    }
}

proof fn lemma_dec_nat_len(n: nat, k: nat)
    requires
        n < pow10(k),
        k >= 1,
    ensures
        dec_nat(n).len() <= k,
    decreases k,
{
    if n < 10 {
    } else {
        assert(pow10(k) == 10 * pow10((k - 1) as nat));
        lemma_dec_nat_len(n / 10, (k - 1) as nat);
    }
}

/// A 64-bit count's decimal text fits the reserved placeholder width.
pub proof fn lemma_points_text_fits(n: u64)
    ensures
        dec_nat(n as nat).len() <= POINTS_ARG_WIDTH,
        padded_dec(n, POINTS_ARG_WIDTH as nat).len() == POINTS_ARG_WIDTH,
{
    assert(pow10(20) == 0x56BC75E2D63100000) by {
        reveal_with_fuel(pow10, 21);
    }
    lemma_dec_nat_len(n as nat, 20);
}

/// Overwrite the placeholder at `begin` with `n`, left-justified in spaces.
fn patch_points(out: &mut Vec<u8>, begin: usize, n: u64)
    requires
        begin + POINTS_ARG_WIDTH <= old(out)@.len(),
    ensures
        final(out)@ == old(out)@.subrange(0, begin as int) + padded_dec(
            n,
            POINTS_ARG_WIDTH as nat,
        ) + old(out)@.subrange(begin + POINTS_ARG_WIDTH, old(out)@.len() as int),
{
    proof {
        lemma_points_text_fits(n);
    }
    let digits = crate::scalar::fmt_u64(n);
    let dl = digits.len();
    let olen = out.len();
    let mut i: usize = 0;
    while i < POINTS_ARG_WIDTH
        invariant
            i <= POINTS_ARG_WIDTH,
            olen == out@.len(),
            begin + POINTS_ARG_WIDTH <= out@.len() == old(out)@.len(),
            digits@ == dec_nat(n as nat),
            dl == digits@.len() <= POINTS_ARG_WIDTH,
            forall|q: int|
                0 <= q < i ==> out@[begin + q] == padded_dec(n, POINTS_ARG_WIDTH as nat)[q],
            forall|q: int| 0 <= q < begin ==> out@[q] == old(out)@[q],
            forall|q: int|
                begin + POINTS_ARG_WIDTH <= q < out@.len() ==> out@[q] == old(out)@[q],
        decreases POINTS_ARG_WIDTH - i,
    {
        let b: u8 = if i < dl {
            digits[i]
        } else {
            32
        };
        out[begin + i] = b;
        i = i + 1;
    }
    proof {
        lemma_points_text_fits(n);
        assert(out@ =~= old(out)@.subrange(0, begin as int) + padded_dec(
            n,
            POINTS_ARG_WIDTH as nat,
        ) + old(out)@.subrange(begin + POINTS_ARG_WIDTH, old(out)@.len() as int));
    }
}

/// Append one header line: the keyword, the tokens, a newline.
fn push_line(out: &mut Vec<u8>, kw: &str, toks: &Vec<Vec<u8>>)
    ensures
        final(out)@ == old(out)@ + header_list_line(
            kw.spec_bytes(),
            toks@.map(|k: int, t: Vec<u8>| t@),
        ),
{
    let ghost tv = toks@.map(|k: int, t: Vec<u8>| t@);
    push_str_bytes(out, kw);
    proof {
        assert(seq![kw.spec_bytes()] + tv.take(0) =~= seq![kw.spec_bytes()]);
        assert(crate::text::join_sp(seq![kw.spec_bytes()]) == kw.spec_bytes());
    }
    let n = toks.len();
    let mut i: usize = 0;
    while i < n
        invariant
            i <= n == toks@.len(),
            tv == toks@.map(|k: int, t: Vec<u8>| t@),
            out@ == old(out)@ + crate::text::join_sp(seq![kw.spec_bytes()] + tv.take(i as int)),
        decreases n - i,
    {
        proof {
            crate::text::lemma_join_sp_push(seq![kw.spec_bytes()] + tv.take(i as int), tv[i as int]);
            assert((seq![kw.spec_bytes()] + tv.take(i as int)).push(tv[i as int]) =~= seq![
                kw.spec_bytes(),
            ] + tv.take(i + 1));
        }
        crate::text::join_push(out, toks[i].as_slice(), false);
        i = i + 1;
    }
    proof {
        assert(seq![kw.spec_bytes()] + tv.take(n as int) =~= seq![kw.spec_bytes()] + tv);
    }
    out.push(10);
    proof {
        assert(out@ =~= old(out)@ + header_list_line(kw.spec_bytes(), tv));
    }
}

impl Writer {
    /// Build a writer: run the schema sanity check and emit the header with
    /// a placeholder `POINTS` value.
    ///
    /// Succeeds exactly when every field name is non-empty, every count is
    /// at least one, and the names are pairwise distinct.
    #[verifier::rlimit(100)]
    #[verifier::spinoff_prover]
    pub fn new(
        width: u64,
        height: u64,
        data_kind: DataKind,
        viewpoint: ViewPoint,
        record_spec: Schema,
    ) -> (r: Result<Writer, Error>)
        ensures
            match r {
                Ok(w) => {
                    &&& record_spec.spec_sane()
                    &&& w.wf()
                    &&& w.record_spec == record_spec
                    &&& w.data_kind == data_kind
                    &&& w.width == width
                    &&& w.height == height
                    &&& w.viewpoint == viewpoint
                    &&& w.num_records == 0
                    &&& w.raw@.len() == 0
                    &&& w.out@ == header_bytes(
                        width,
                        height,
                        viewpoint,
                        record_spec.fields@,
                        data_kind,
                        spaces(POINTS_ARG_WIDTH as nat),
                    )
                    &&& forall|j: int|
                        0 <= j < 7 && !crate::scalar::is_nan_bits64(
                            #[trigger] viewpoint_bits(viewpoint)[j],
                        ) ==> crate::scalar::f64_of_dec(
                            dec_of_f64(viewpoint_bits(viewpoint)[j]),
                        ) == Some(viewpoint_bits(viewpoint)[j])
                },
                Err(e) => {
                    &&& !record_spec.spec_sane()
                    &&& e matches Error::InvalidWriterConfiguration { .. }
                },
            },
    {
        let nf = record_spec.fields.len();
        let mut i: usize = 0;
        while i < nf
            invariant
                i <= nf == record_spec.fields@.len(),
                forall|q: int| 0 <= q < i ==> (#[trigger] record_spec.fields@[q]).spec_sane(),
            decreases nf - i,
        {
            let d = &record_spec.fields[i];
            if d.name.as_str().is_empty() {
                return Err(
                    Error::new_invalid_writer_configuration_error("field name must not be empty"),
                );
            }
            if d.count == 0 {
                return Err(
                    Error::new_invalid_writer_configuration_error("The field count must be nonzero"),
                );
            }
            i = i + 1;
        }
        let mut a: usize = 0;
        while a < nf
            invariant
                a <= nf == record_spec.fields@.len(),
                forall|x: int, y: int|
                    0 <= x < a && x < y < nf ==> #[trigger] record_spec.fields@[x].name@
                        != #[trigger] record_spec.fields@[y].name@,
            decreases nf - a,
        {
            let mut b: usize = a + 1;
            while b < nf
                invariant
                    a < b <= nf == record_spec.fields@.len(),
                    forall|y: int|
                        a < y < b ==> record_spec.fields@[a as int].name@ != #[trigger] record_spec.fields@[y].name@,
                decreases nf - b,
            {
                if record_spec.fields[a].name == record_spec.fields[b].name {
                    return Err(
                        Error::new_invalid_writer_configuration_error("schema names must be unique"),
                    );
                }
                b = b + 1;
            }
            a = a + 1;
        }
        // Emit the header.
        let mut out: Vec<u8> = Vec::new();
        push_str_bytes(&mut out, "# .PCD v.7 - Point Cloud Data file format");
        out.push(10);
        push_str_bytes(&mut out, "VERSION .7");
        out.push(10);
        let mut name_toks: Vec<Vec<u8>> = Vec::new();
        let mut size_toks: Vec<Vec<u8>> = Vec::new();
        let mut type_toks: Vec<Vec<u8>> = Vec::new();
        let mut count_toks: Vec<Vec<u8>> = Vec::new();
        let mut j: usize = 0;
        while j < nf
            invariant
                j <= nf == record_spec.fields@.len(),
                name_toks@.len() == j && size_toks@.len() == j && type_toks@.len() == j
                    && count_toks@.len() == j,
                forall|q: int|
                    0 <= q < j ==> #[trigger] name_toks@[q]@ == name_tokens(
                        record_spec.fields@,
                    )[q],
                forall|q: int|
                    0 <= q < j ==> #[trigger] size_toks@[q]@ == size_tokens(
                        record_spec.fields@,
                    )[q],
                forall|q: int|
                    0 <= q < j ==> #[trigger] type_toks@[q]@ == type_tokens(
                        record_spec.fields@,
                    )[q],
                forall|q: int|
                    0 <= q < j ==> #[trigger] count_toks@[q]@ == count_tokens(
                        record_spec.fields@,
                    )[q],
            decreases nf - j,
        {
            let d = &record_spec.fields[j];
            name_toks.push(vstd::slice::slice_to_vec(d.name.as_str().as_bytes()));
            size_toks.push(crate::scalar::fmt_u64(d.kind.width() as u64));
            let tl: &str = match d.kind.type_kind() {
                crate::metas::TypeKind::U => "U",
                crate::metas::TypeKind::I => "I",
                crate::metas::TypeKind::F => "F",
            };
            type_toks.push(vstd::slice::slice_to_vec(tl.as_bytes()));
            count_toks.push(crate::scalar::fmt_u64(d.count));
            j = j + 1;
        }
        proof {
            assert(name_toks@.map(|k: int, t: Vec<u8>| t@) =~= name_tokens(record_spec.fields@));
            assert(size_toks@.map(|k: int, t: Vec<u8>| t@) =~= size_tokens(record_spec.fields@));
            assert(type_toks@.map(|k: int, t: Vec<u8>| t@) =~= type_tokens(record_spec.fields@));
            assert(count_toks@.map(|k: int, t: Vec<u8>| t@) =~= count_tokens(
                record_spec.fields@,
            ));
        }
        push_line(&mut out, "FIELDS", &name_toks);
        push_line(&mut out, "SIZE", &size_toks);
        push_line(&mut out, "TYPE", &type_toks);
        push_line(&mut out, "COUNT", &count_toks);
        let mut wh_toks: Vec<Vec<u8>> = Vec::new();
        wh_toks.push(crate::scalar::fmt_u64(width));
        proof {
            assert(wh_toks@.map(|k: int, t: Vec<u8>| t@) =~= seq![dec_nat(width as nat)]);
        }
        push_line(&mut out, "WIDTH", &wh_toks);
        let mut hh_toks: Vec<Vec<u8>> = Vec::new();
        hh_toks.push(crate::scalar::fmt_u64(height));
        proof {
            assert(hh_toks@.map(|k: int, t: Vec<u8>| t@) =~= seq![dec_nat(height as nat)]);
        }
        push_line(&mut out, "HEIGHT", &hh_toks);
        let mut vp_toks: Vec<Vec<u8>> = Vec::new();
        vp_toks.push(crate::scalar::format_f64_bits(viewpoint.tx));
        vp_toks.push(crate::scalar::format_f64_bits(viewpoint.ty));
        vp_toks.push(crate::scalar::format_f64_bits(viewpoint.tz));
        vp_toks.push(crate::scalar::format_f64_bits(viewpoint.qw));
        vp_toks.push(crate::scalar::format_f64_bits(viewpoint.qx));
        vp_toks.push(crate::scalar::format_f64_bits(viewpoint.qy));
        vp_toks.push(crate::scalar::format_f64_bits(viewpoint.qz));
        proof {
            assert(vp_toks@.map(|k: int, t: Vec<u8>| t@) =~= viewpoint_tokens(viewpoint));
        }
        push_line(&mut out, "VIEWPOINT", &vp_toks);
        push_str_bytes(&mut out, "POINTS ");
        proof {
            assert(out@ == header_before_points(width, height, viewpoint, record_spec.fields@));
        }
        let points_arg_begin = out.len();
        let ghost base = out@;
        let mut sp: usize = 0;
        while sp < POINTS_ARG_WIDTH
            invariant
                sp <= POINTS_ARG_WIDTH,
                out@ == base + spaces(sp as nat),
            decreases POINTS_ARG_WIDTH - sp,
        {
            proof {
                assert(spaces((sp + 1) as nat) =~= spaces(sp as nat).push(32u8));
            }
            out.push(32);
            sp = sp + 1;
        }
        out.push(10);
        match data_kind {
            DataKind::Ascii => push_str_bytes(&mut out, "DATA ascii"),
            DataKind::Binary => push_str_bytes(&mut out, "DATA binary"),
            DataKind::BinaryCompressed => push_str_bytes(&mut out, "DATA binary_compressed"),
        }
        out.push(10);
        proof {
            assert(out@ =~= header_bytes(
                width,
                height,
                viewpoint,
                record_spec.fields@,
                data_kind,
                spaces(POINTS_ARG_WIDTH as nat),
            ));
        }
        let w = Writer {
            data_kind,
            record_spec,
            out,
            raw: Vec::new(),
            num_records: 0,
            points_arg_begin,
            points_arg_width: POINTS_ARG_WIDTH,
            width,
            height,
            viewpoint,
        };
        proof {
            assert(w.out@ == w.spec_header(spaces(POINTS_ARG_WIDTH as nat)) + Seq::<u8>::empty());
            assert(w.out@ =~= w.spec_header(spaces(POINTS_ARG_WIDTH as nat)) + Seq::<u8>::empty());
        }
        Ok(w)
    }
}

} // verus!

verus! {

impl Writer {
    /// Write one record through the codec configured by `data_kind`.
    ///
    /// Succeeds exactly when the record matches the writer's schema; nothing
    /// is written otherwise, and no partial write ever happens.
    #[verifier::rlimit(100)]
    #[verifier::spinoff_prover]
    pub fn push(&mut self, record: &DynRecord) -> (r: Result<(), Error>)
        requires
            old(self).wf(),
            old(self).num_records < u64::MAX,
        ensures
            final(self).wf(),
            final(self).data_kind == old(self).data_kind,
            final(self).record_spec == old(self).record_spec,
            final(self).width == old(self).width,
            final(self).height == old(self).height,
            final(self).viewpoint == old(self).viewpoint,
            final(self).points_arg_begin == old(self).points_arg_begin,
            r is Ok <==> rec_wf(record.0@, old(self).record_spec.fields@),
            r is Ok ==> final(self).num_records == old(self).num_records + 1
                && final(self).spec_payload() == old(self).spec_payload() + (
            if old(self).data_kind == DataKind::Ascii {
                crate::text::join_sp(rec_tokens(record.0@)) + seq![10u8]
            } else {
                rec_bytes(record.0@)
            }),
            r is Err ==> final(self).out@ == old(self).out@ && final(self).raw@ == old(
                self,
            ).raw@ && final(self).num_records == old(self).num_records
                && crate::record::mismatch_error_sides(
                r->Err_0,
                *record,
                old(self).record_spec,
            ),
    {
        let ghost hdr = self.spec_header(spaces(POINTS_ARG_WIDTH as nat));
        match self.data_kind {
            DataKind::Ascii => {
                let res = record.write_line(&mut self.out, &self.record_spec);
                match res {
                    Ok(()) => {
                        proof {
                            let p0 = choose|p: Seq<u8>| old(self).out@ == hdr + p;
                            assert(self.out@ == hdr + (p0 + (crate::text::join_sp(
                                rec_tokens(record.0@),
                            ) + seq![10u8]))) by {
                                assert(self.out@ =~= hdr + (p0 + (crate::text::join_sp(
                                    rec_tokens(record.0@),
                                ) + seq![10u8])));
                            }
                            assert(self.out@.skip(hdr.len() as int) =~= old(self).out@.skip(
                                hdr.len() as int,
                            ) + (crate::text::join_sp(rec_tokens(record.0@)) + seq![10u8]));
                        }
                        self.num_records = self.num_records + 1;
                        Ok(())
                    },
                    Err(e) => Err(e),
                }
            },
            DataKind::Binary => {
                let res = record.write_chunk(&mut self.out, &self.record_spec);
                match res {
                    Ok(()) => {
                        proof {
                            let p0 = choose|p: Seq<u8>| old(self).out@ == hdr + p;
                            assert(self.out@ == hdr + (p0 + rec_bytes(record.0@))) by {
                                assert(self.out@ =~= hdr + (p0 + rec_bytes(record.0@)));
                            }
                            assert(self.out@.skip(hdr.len() as int) =~= old(self).out@.skip(
                                hdr.len() as int,
                            ) + rec_bytes(record.0@));
                        }
                        self.num_records = self.num_records + 1;
                        Ok(())
                    },
                    Err(e) => Err(e),
                }
            },
            DataKind::BinaryCompressed => {
                let res = record.write_chunk(&mut self.raw, &self.record_spec);
                match res {
                    Ok(()) => {
                        self.num_records = self.num_records + 1;
                        Ok(())
                    },
                    Err(e) => Err(e),
                }
            },
        }
    }

    /// Finish the writer: patch the `POINTS` placeholder with the record
    /// count and return the complete file bytes.  In `BinaryCompressed` mode
    /// the LZF block — `u32` compressed and uncompressed lengths, then the
    /// compressed bytes — is appended first.
    ///
    /// Fails only when a compressed payload's size cannot be framed in the
    /// wire format's 32-bit length fields.
    #[verifier::rlimit(100)]
    #[verifier::spinoff_prover]
    pub fn finish(self) -> (r: Result<Vec<u8>, Error>)
        requires
            self.wf(),
        ensures
            match r {
                Ok(bytes) => {
                    &&& self.data_kind != DataKind::BinaryCompressed ==> bytes@
                        == self.spec_header(padded_dec(self.num_records, POINTS_ARG_WIDTH as nat))
                        + self.spec_payload()
                    &&& self.data_kind == DataKind::BinaryCompressed ==> exists|cb: Seq<u8>|
                        {
                            &&& bytes@ == self.spec_header(
                                padded_dec(self.num_records, POINTS_ARG_WIDTH as nat),
                            ) + le_bytes_of(cb.len() as u64, 4) + le_bytes_of(
                                self.raw@.len() as u64,
                                4,
                            ) + cb
                            &&& crate::lzf::lzf_run(cb, Seq::empty()) == Some(self.raw@)
                            &&& cb.len() < 0x1_0000_0000
                            &&& self.raw@.len() < 0x1_0000_0000
                        }
                },
                Err(e) => {
                    &&& self.data_kind == DataKind::BinaryCompressed
                    &&& e matches Error::InvalidArgumentError { .. }
                },
            },
            self.data_kind == DataKind::BinaryCompressed && self.raw@.len() < 0x8000_0000
                ==> r is Ok,
    {
        let ghost hdr = self.spec_header(spaces(POINTS_ARG_WIDTH as nat));
        let Writer {
            data_kind,
            record_spec,
            mut out,
            raw,
            num_records,
            points_arg_begin,
            points_arg_width,
            width,
            height,
            viewpoint,
        } = self;
        if matches!(data_kind, DataKind::BinaryCompressed) {
            if raw.len() >= 0xFFFF_FFFF {
                return Err(
                    Error::new_invalid_argument_error(
                        "uncompressed payload does not fit the 32-bit length field",
                    ),
                );
            }
            let compressed = match crate::lzf::compress(raw.as_slice()) {
                Ok(c) => c,
                Err(e) => {
                    return Err(
                        Error::new_invalid_argument_error("compression failed unexpectedly"),
                    );
                },
            };
            if compressed.len() >= 0xFFFF_FFFF {
                return Err(
                    Error::new_invalid_argument_error(
                        "compressed payload does not fit the 32-bit length field",
                    ),
                );
            }
            crate::scalar::put_le_bytes(&mut out, compressed.len() as u64, 4);
            crate::scalar::put_le_bytes(&mut out, raw.len() as u64, 4);
            push_bytes(&mut out, compressed.as_slice());
            let ghost ob = out@;
            patch_points(&mut out, points_arg_begin, num_records);
            proof {
                lemma_points_text_fits(num_records);
                assert(ob =~= hdr + le_bytes_of(compressed@.len() as u64, 4) + le_bytes_of(
                    raw@.len() as u64,
                    4,
                ) + compressed@);
                assert(ob.subrange(0, points_arg_begin as int) =~= hdr.subrange(
                    0,
                    points_arg_begin as int,
                ));
                assert(ob.subrange(points_arg_begin + POINTS_ARG_WIDTH, ob.len() as int)
                    =~= hdr.subrange(points_arg_begin + POINTS_ARG_WIDTH, hdr.len() as int)
                    + le_bytes_of(compressed@.len() as u64, 4) + le_bytes_of(
                    raw@.len() as u64,
                    4,
                ) + compressed@);
                assert(out@ =~= hdr.subrange(0, points_arg_begin as int) + padded_dec(
                    num_records,
                    POINTS_ARG_WIDTH as nat,
                ) + hdr.subrange(points_arg_begin + POINTS_ARG_WIDTH, hdr.len() as int)
                    + le_bytes_of(compressed@.len() as u64, 4) + le_bytes_of(
                    raw@.len() as u64,
                    4,
                ) + compressed@);
                assert(self.spec_header(padded_dec(num_records, POINTS_ARG_WIDTH as nat))
                    =~= hdr.subrange(0, points_arg_begin as int) + padded_dec(
                    num_records,
                    POINTS_ARG_WIDTH as nat,
                ) + hdr.subrange(points_arg_begin + POINTS_ARG_WIDTH, hdr.len() as int));
            }
            Ok(out)
        } else {
            let ghost ob = out@;
            patch_points(&mut out, points_arg_begin, num_records);
            proof {
                lemma_points_text_fits(num_records);
                assert(ob.subrange(0, points_arg_begin as int) =~= hdr.subrange(
                    0,
                    points_arg_begin as int,
                ));
                assert(ob.subrange(points_arg_begin + POINTS_ARG_WIDTH, ob.len() as int)
                    =~= hdr.subrange(points_arg_begin + POINTS_ARG_WIDTH, hdr.len() as int)
                    + ob.skip(hdr.len() as int));
                assert(self.spec_header(padded_dec(num_records, POINTS_ARG_WIDTH as nat))
                    =~= hdr.subrange(0, points_arg_begin as int) + padded_dec(
                    num_records,
                    POINTS_ARG_WIDTH as nat,
                ) + hdr.subrange(points_arg_begin + POINTS_ARG_WIDTH, hdr.len() as int));
                assert(out@ =~= self.spec_header(
                    padded_dec(num_records, POINTS_ARG_WIDTH as nat),
                ) + ob.skip(hdr.len() as int));
            }
            Ok(out)
        }
    }
}

} // verus!

verus! {

/// A builder type that builds [`Writer`].
pub struct WriterInit {
    pub width: u64,
    pub height: u64,
    pub viewpoint: ViewPoint,
    pub data_kind: DataKind,
    pub schema: Option<Schema>,
}

impl WriterInit {
    /// Build a new [`Writer`] from this configuration.
    ///
    /// The schema must be supplied here; without one the configuration is
    /// invalid, and a schema that fails the sanity check is rejected as
    /// [`Writer::new`] rejects it.
    pub fn build_from_writer(self) -> (r: Result<Writer, Error>)
        ensures
            match r {
                Ok(w) => {
                    &&& self.schema matches Some(sch) && w.record_spec == sch
                        && sch.spec_sane()
                    &&& w.wf()
                    &&& w.data_kind == self.data_kind
                    &&& w.width == self.width
                    &&& w.height == self.height
                    &&& w.viewpoint == self.viewpoint
                    &&& w.num_records == 0
                    &&& w.raw@.len() == 0
                },
                Err(e) => {
                    &&& (self.schema is None || !(self.schema->Some_0).spec_sane())
                    &&& e matches Error::InvalidWriterConfiguration { .. }
                },
            },
    {
        let WriterInit { width, height, viewpoint, data_kind, schema } = self;
        match schema {
            Some(sch) => Writer::new(width, height, data_kind, viewpoint, sch),
            None => Err(
                Error::new_invalid_writer_configuration_error(
                    "The schema is not set on the writer. It is required for the dynamic record type.",
                ),
            ),
        }
    }
}

} // verus!

verus! {

/// The patched `POINTS` value reads back as the record count: the value
/// region of a finished file splits into one decimal token, and that token
/// parses to the very count the writer patched in.
pub proof fn lemma_points_value_reads_back(n: u64)
    ensures
        ({
            let toks = crate::text::split_ws(padded_dec(n, POINTS_ARG_WIDTH as nat));
            &&& toks.len() == 1
            &&& crate::scalar::spec_parse_uint(toks[0], u64::MAX as nat) == Some(n as nat)
        }),
{
    lemma_points_text_fits(n);
    crate::scalar::lemma_dec_nat_is_digits(n as nat);
    let s = padded_dec(n, POINTS_ARG_WIDTH as nat);
    let t = dec_nat(n as nat);
    assert(forall|j: int|
        0 <= j < t.len() ==> s[j] == t[j] && !crate::text::is_ws(#[trigger] t[j]));
    assert(Seq::<u8>::empty() + t =~= t);
    crate::text::lemma_split_acc_token(s, 0, Seq::empty(), Seq::empty(), t);
    assert(forall|j: int|
        t.len() <= j < s.len() ==> crate::text::is_ws(#[trigger] s[j]));
    if t.len() < s.len() {
        crate::text::lemma_split_ws_trailing(s, t.len() as int, t, Seq::empty());
    }
    assert(crate::text::split_ws(s) == Seq::<Seq<u8>>::empty().push(t));
    assert(Seq::<Seq<u8>>::empty().push(t)[0] == t);
    crate::scalar::lemma_dec_uint_round_trip(n as nat, u64::MAX as nat);
}

} // verus!
