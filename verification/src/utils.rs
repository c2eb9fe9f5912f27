//! The header parser: turns the textual PCD preamble into a [`PcdMeta`].
//!
//! The header is a fixed sequence of keyworded lines — `VERSION, FIELDS,
//! SIZE, TYPE, COUNT, WIDTH, HEIGHT, [VIEWPOINT], POINTS, DATA` — with blank
//! lines and `#` comments skipped while a keyword is awaited.
//! [`parse_header`] is the specification the executable parser
//! [`load_meta`] is proved against: it succeeds on exactly the same inputs,
//! with the same interpretation.

use vstd::prelude::*;

use crate::error::Error;
use crate::metas::{
    DataKind, FieldDef, PcdMeta, Schema, TypeKind, ValueKind, ViewPoint, spec_resolve_kind,
    F64_ONE_BITS,
};
use crate::record::{line_end_of, line_next_of};
use crate::scalar::{dec_nat, f64_of_dec, spec_parse_uint};
use crate::text::split_ws;
use vstd::string::StringSliceAdditionalSpecFns;

verus! {

/// A supported PCD format version.
#[derive(Debug, Clone, Copy, PartialEq, Eq, Structural)]
pub enum Version {
    V5,
    V6,
    V7,
}

/// First `#` at or after `pos`, or the end of the line.
pub open spec fn hash_end_of(s: Seq<u8>, pos: int) -> int
    decreases s.len() - pos,
{
    if pos < 0 || pos >= s.len() {
        s.len() as int
    } else if s[pos] == 35 {
        pos
    } else {
        hash_end_of(s, pos + 1)
    }
}

/// The tokens of the line starting at `pos`, with any `#` comment stripped.
pub open spec fn line_tokens(s: Seq<u8>, pos: int) -> Seq<Seq<u8>> {
    let line = s.subrange(pos, line_end_of(s, pos));
    split_ws(line.take(hash_end_of(line, 0)))
}

/// `line_end_of` stays within bounds.
pub proof fn lemma_line_end_bounds(s: Seq<u8>, pos: int)
    requires
        0 <= pos <= s.len(),
    ensures
        pos <= line_end_of(s, pos) <= s.len(),
        pos <= line_next_of(s, pos) <= s.len(),
        pos < s.len() ==> pos < line_next_of(s, pos),
    decreases s.len() - pos,
{
    if pos < s.len() && s[pos] != 10 {
        lemma_line_end_bounds(s, pos + 1);
    }
}

/// The first meaningful line at or after `pos`: its tokens and the position
/// just past it.  Blank lines and lines holding only a comment are skipped;
/// `None` at the end of input.
pub open spec fn entry_line(s: Seq<u8>, pos: int) -> Option<(Seq<Seq<u8>>, int)>
    decreases s.len() - pos when 0 <= pos <= s.len() via entry_line_decreases
{
    if pos < 0 || pos >= s.len() {
        None
    } else {
        let toks = line_tokens(s, pos);
        let nxt = line_next_of(s, pos);
        if toks.len() == 0 {
            entry_line(s, nxt)
        } else {
            Some((toks, nxt))
        }
    }
}

#[via_fn]
proof fn entry_line_decreases(s: Seq<u8>, pos: int) {
    if 0 <= pos < s.len() {
        lemma_line_end_bounds(s, pos);
    }
}

/// The synthetic name given to the `j`-th field when its `FIELDS` token is a
/// literal underscore.
pub open spec fn unknown_field_name(j: nat) -> Seq<u8> {
    "unknown_field_".spec_bytes() + dec_nat(j)
}

/// The name the `j`-th `FIELDS` token names: itself, or the synthetic
/// padding name for a literal underscore.
pub open spec fn field_name_of(tok: Seq<u8>, j: nat) -> Seq<u8> {
    if tok == "_".spec_bytes() {
        unknown_field_name(j)
    } else {
        tok
    }
}

/// Interpretation of the `VERSION` argument token.
pub open spec fn parse_version_tok(tok: Seq<u8>) -> Option<Version> {
    if tok == "0.7".spec_bytes() || tok == ".7".spec_bytes() {
        Some(Version::V7)
    } else if tok == "0.6".spec_bytes() || tok == ".6".spec_bytes() {
        Some(Version::V6)
    } else if tok == "0.5".spec_bytes() || tok == ".5".spec_bytes() {
        Some(Version::V5)
    } else {
        None
    }
}

/// Interpretation of one `TYPE` letter token.
pub open spec fn parse_type_tok(tok: Seq<u8>) -> Option<TypeKind> {
    if tok == "I".spec_bytes() {
        Some(TypeKind::I)
    } else if tok == "U".spec_bytes() {
        Some(TypeKind::U)
    } else if tok == "F".spec_bytes() {
        Some(TypeKind::F)
    } else {
        None
    }
}

/// Interpretation of the `DATA` argument token.
pub open spec fn parse_data_tok(tok: Seq<u8>) -> Option<DataKind> {
    if tok == "ascii".spec_bytes() {
        Some(DataKind::Ascii)
    } else if tok == "binary".spec_bytes() {
        Some(DataKind::Binary)
    } else if tok == "binary_compressed".spec_bytes() {
        Some(DataKind::BinaryCompressed)
    } else {
        None
    }
}

/// All argument tokens parse as `u64` values.
pub open spec fn nums_ok(toks: Seq<Seq<u8>>) -> bool {
    forall|j: int| 1 <= j < toks.len() ==> spec_parse_uint(#[trigger] toks[j], u64::MAX as nat)
        is Some
}

/// All argument tokens are type letters.
pub open spec fn types_ok(toks: Seq<Seq<u8>>) -> bool {
    forall|j: int| 1 <= j < toks.len() ==> parse_type_tok(#[trigger] toks[j]) is Some
}

/// The names the `FIELDS` line declares, underscores replaced.
pub open spec fn fields_names(toks: Seq<Seq<u8>>) -> Seq<Seq<u8>> {
    Seq::new((toks.len() - 1) as nat, |j: int| field_name_of(toks[j + 1], j as nat))
}

/// The names are pairwise distinct.
pub open spec fn names_unique(names: Seq<Seq<u8>>) -> bool {
    forall|a: int, b: int| 0 <= a < b < names.len() ==> names[a] != names[b]
}

/// The names hold only ASCII bytes.
pub open spec fn names_ascii(names: Seq<Seq<u8>>) -> bool {
    forall|a: int, j: int|
        0 <= a < names.len() && 0 <= j < names[a].len() ==> #[trigger] names[a][j] < 128
}

/// The parsed form of a header: everything [`PcdMeta`] holds, as plain
/// specification values, along with where the payload starts.
pub struct HeaderV {
    pub version: Version,
    pub width: u64,
    pub height: u64,
    pub viewpoint: Seq<u64>,
    pub num_points: u64,
    pub data: DataKind,
    pub fields: Seq<(Seq<u8>, ValueKind, u64)>,
    pub payload_start: int,
}

/// The seven `f64` bit patterns of a `VIEWPOINT` line's arguments.
pub open spec fn viewpoint_of(toks: Seq<Seq<u8>>) -> Seq<u64> {
    Seq::new(7, |j: int| f64_of_dec(toks[j + 1])->Some_0)
}

/// All seven viewpoint tokens parse as `f64` literals.
pub open spec fn viewpoint_ok(toks: Seq<Seq<u8>>) -> bool {
    forall|j: int| 1 <= j < toks.len() ==> f64_of_dec(#[trigger] toks[j]) is Some
}

/// The default viewpoint's bit patterns: identity pose.
pub open spec fn default_viewpoint_bits() -> Seq<u64> {
    seq![0u64, 0u64, 0u64, F64_ONE_BITS, 0u64, 0u64, 0u64]
}

/// The scalar kind field `i`'s `TYPE` and `SIZE` tokens resolve to.
pub open spec fn resolved_kind_at(types: Seq<Seq<u8>>, sizes: Seq<Seq<u8>>, i: int) -> Option<
    ValueKind,
> {
    spec_resolve_kind(
        parse_type_tok(types[i + 1])->Some_0,
        spec_parse_uint(sizes[i + 1], u64::MAX as nat)->Some_0 as u64,
    )
}

/// The field definitions resolved from the `FIELDS`, `TYPE`, `SIZE` and
/// `COUNT` argument tokens; `None` on an unsupported type/size pairing.
pub open spec fn resolve_fields(
    names: Seq<Seq<u8>>,
    types: Seq<Seq<u8>>,
    sizes: Seq<Seq<u8>>,
    counts: Seq<Seq<u8>>,
) -> Option<Seq<(Seq<u8>, ValueKind, u64)>> {
    if forall|i: int| 0 <= i < names.len() ==> #[trigger] resolved_kind_at(types, sizes, i)
        is Some {
        Some(
            Seq::new(
                names.len(),
                |i: int|
                    (
                        names[i],
                        resolved_kind_at(types, sizes, i)->Some_0,
                        spec_parse_uint(counts[i + 1], u64::MAX as nat)->Some_0 as u64,
                    ),
            ),
        )
    } else {
        None
    }
}

/// What the header starting at `pos` parses to under every rule but the
/// version restriction on compressed data, or `None` when it is rejected.
pub open spec fn parse_header_all(s: Seq<u8>, pos: int) -> Option<HeaderV> {
    match entry_line(s, pos) {
        None => None,
        Some((vtoks, p1)) => {
            if vtoks[0] != "VERSION".spec_bytes() || vtoks.len() != 2 {
                None
            } else {
                match parse_version_tok(vtoks[1]) {
                    None => None,
                    Some(version) => parse_after_version(s, p1, version),
                }
            }
        },
    }
}

/// What the header starting at `pos` parses to, or `None` when it is
/// rejected for any reason: `binary_compressed` data is accepted only for
/// version 0.7.
pub open spec fn parse_header(s: Seq<u8>, pos: int) -> Option<HeaderV> {
    match parse_header_all(s, pos) {
        None => None,
        Some(h) => {
            if h.data == DataKind::BinaryCompressed && h.version != Version::V7 {
                None
            } else {
                Some(h)
            }
        },
    }
}

/// The header's `VERSION` line is present and well shaped, but names a
/// version outside the supported set; the offending token.
pub open spec fn version_rejected(s: Seq<u8>, pos: int) -> Option<Seq<u8>> {
    match entry_line(s, pos) {
        None => None,
        Some((vtoks, p1)) => {
            if vtoks[0] == "VERSION".spec_bytes() && vtoks.len() == 2 && parse_version_tok(
                vtoks[1],
            ) is None {
                Some(vtoks[1])
            } else {
                None
            }
        },
    }
}

/// The header is well formed throughout, but asks for `binary_compressed`
/// data under a version below 0.7.
pub open spec fn compressed_on_legacy(s: Seq<u8>, pos: int) -> bool {
    parse_header_all(s, pos) matches Some(h) && h.data == DataKind::BinaryCompressed
        && h.version != Version::V7
}

/// The header's `FIELDS` line is present and well shaped with ASCII names,
/// but repeats a name.
pub open spec fn duplicate_field_name(s: Seq<u8>, pos: int) -> bool {
    match entry_line(s, pos) {
        None => false,
        Some((vtoks, p1)) => {
            &&& vtoks[0] == "VERSION".spec_bytes()
            &&& vtoks.len() == 2
            &&& parse_version_tok(vtoks[1]) is Some
            &&& match entry_line(s, p1) {
                None => false,
                Some((ftoks, p2)) => {
                    &&& ftoks[0] == "FIELDS".spec_bytes()
                    &&& ftoks.len() >= 2
                    &&& names_ascii(fields_names(ftoks))
                    &&& !names_unique(fields_names(ftoks))
                },
            }
        },
    }
}

/// The chars a byte string is reported as in diagnostics: ASCII bytes as
/// they are, anything else as a question mark.
pub open spec fn lossy_chars(b: Seq<u8>) -> Seq<char> {
    b.map(
        |i: int, x: u8|
            if x < 128 {
                x as char
            } else {
                '?'
            },
    )
}

/// The description of an unsupported-version error.
pub open spec fn unsupported_version_desc(tok: Seq<u8>) -> Seq<char> {
    "Unsupported version \""@ + lossy_chars(tok)
        + "\". Supported versions are: 0.5, 0.6, 0.7"@
}

/// The header after its `VERSION` line.
pub open spec fn parse_after_version(s: Seq<u8>, pos: int, version: Version) -> Option<
    HeaderV,
> {
    match entry_line(s, pos) {
        None => None,
        Some((ftoks, p2)) => {
            let names = fields_names(ftoks);
            if ftoks[0] != "FIELDS".spec_bytes() || ftoks.len() < 2 || !names_unique(names)
                || !names_ascii(names) {
                None
            } else {
                match entry_line(s, p2) {
                    None => None,
                    Some((stoks, p3)) => {
                        if stoks[0] != "SIZE".spec_bytes() || stoks.len() < 2 || !nums_ok(stoks)
                            || stoks.len() != ftoks.len() {
                            None
                        } else {
                            match entry_line(s, p3) {
                                None => None,
                                Some((ttoks, p4)) => {
                                    if ttoks[0] != "TYPE".spec_bytes() || ttoks.len() < 2
                                        || !types_ok(ttoks) || ttoks.len() != ftoks.len() {
                                        None
                                    } else {
                                        parse_after_type(s, p4, version, names, stoks, ttoks)
                                    }
                                },
                            }
                        }
                    },
                }
            }
        },
    }
}

/// The header after its `TYPE` line.
pub open spec fn parse_after_type(
    s: Seq<u8>,
    pos: int,
    version: Version,
    names: Seq<Seq<u8>>,
    stoks: Seq<Seq<u8>>,
    ttoks: Seq<Seq<u8>>,
) -> Option<HeaderV> {
    match entry_line(s, pos) {
        None => None,
        Some((ctoks, p5)) => {
            if ctoks[0] != "COUNT".spec_bytes() || ctoks.len() < 2 || !nums_ok(ctoks)
                || ctoks.len() != names.len() + 1 {
                None
            } else {
                match entry_line(s, p5) {
                    None => None,
                    Some((wtoks, p6)) => {
                        if wtoks[0] != "WIDTH".spec_bytes() || wtoks.len() != 2 || !nums_ok(
                            wtoks,
                        ) {
                            None
                        } else {
                            match entry_line(s, p6) {
                                None => None,
                                Some((htoks, p7)) => {
                                    if htoks[0] != "HEIGHT".spec_bytes() || htoks.len() != 2
                                        || !nums_ok(htoks) {
                                        None
                                    } else {
                                        let width = spec_parse_uint(
                                            wtoks[1],
                                            u64::MAX as nat,
                                        )->Some_0 as u64;
                                        let height = spec_parse_uint(
                                            htoks[1],
                                            u64::MAX as nat,
                                        )->Some_0 as u64;
                                        parse_after_height(
                                            s,
                                            p7,
                                            version,
                                            names,
                                            stoks,
                                            ttoks,
                                            ctoks,
                                            width,
                                            height,
                                        )
                                    }
                                },
                            }
                        }
                    },
                }
            }
        },
    }
}

/// The header after its `HEIGHT` line: an optional `VIEWPOINT` (mandatory
/// for version 0.7), then `POINTS` and `DATA`.
pub open spec fn parse_after_height(
    s: Seq<u8>,
    pos: int,
    version: Version,
    names: Seq<Seq<u8>>,
    stoks: Seq<Seq<u8>>,
    ttoks: Seq<Seq<u8>>,
    ctoks: Seq<Seq<u8>>,
    width: u64,
    height: u64,
) -> Option<HeaderV> {
    match entry_line(s, pos) {
        None => None,
        Some((etoks, p8)) => {
            if etoks[0] == "VIEWPOINT".spec_bytes() {
                if etoks.len() != 8 || !viewpoint_ok(etoks) {
                    None
                } else {
                    parse_points_data(
                        s,
                        p8,
                        version,
                        names,
                        stoks,
                        ttoks,
                        ctoks,
                        width,
                        height,
                        viewpoint_of(etoks),
                    )
                }
            } else if version == Version::V7 {
                None
            } else {
                parse_points_data_from(
                    s,
                    etoks,
                    p8,
                    version,
                    names,
                    stoks,
                    ttoks,
                    ctoks,
                    width,
                    height,
                    default_viewpoint_bits(),
                )
            }
        },
    }
}

/// The header from its `POINTS` line on.
pub open spec fn parse_points_data(
    s: Seq<u8>,
    pos: int,
    version: Version,
    names: Seq<Seq<u8>>,
    stoks: Seq<Seq<u8>>,
    ttoks: Seq<Seq<u8>>,
    ctoks: Seq<Seq<u8>>,
    width: u64,
    height: u64,
    viewpoint: Seq<u64>,
) -> Option<HeaderV> {
    match entry_line(s, pos) {
        None => None,
        Some((ptoks, p9)) => parse_points_data_from(
            s,
            ptoks,
            p9,
            version,
            names,
            stoks,
            ttoks,
            ctoks,
            width,
            height,
            viewpoint,
        ),
    }
}

/// The header's last two lines, the `POINTS` line's tokens already in hand.
pub open spec fn parse_points_data_from(
    s: Seq<u8>,
    ptoks: Seq<Seq<u8>>,
    pos: int,
    version: Version,
    names: Seq<Seq<u8>>,
    stoks: Seq<Seq<u8>>,
    ttoks: Seq<Seq<u8>>,
    ctoks: Seq<Seq<u8>>,
    width: u64,
    height: u64,
    viewpoint: Seq<u64>,
) -> Option<HeaderV> {
    if ptoks[0] != "POINTS".spec_bytes() || ptoks.len() != 2 || !nums_ok(ptoks) {
        None
    } else {
        let num_points = spec_parse_uint(ptoks[1], u64::MAX as nat)->Some_0 as u64;
        match entry_line(s, pos) {
            None => None,
            Some((dtoks, p10)) => {
                if dtoks[0] != "DATA".spec_bytes() || dtoks.len() != 2 {
                    None
                } else {
                    match parse_data_tok(dtoks[1]) {
                        None => None,
                        Some(data) => match resolve_fields(names, ttoks, stoks, ctoks) {
                            None => None,
                            Some(fields) => Some(
                                HeaderV {
                                    version,
                                    width,
                                    height,
                                    viewpoint,
                                    num_points,
                                    data,
                                    fields,
                                    payload_start: p10,
                                },
                            ),
                        },
                    }
                }
            },
        }
    }
}

} // verus!

verus! {

/// The version string a parsed header reports.
pub open spec fn version_chars(v: Version) -> Seq<char> {
    match v {
        Version::V5 => "0.5"@,
        Version::V6 => "0.6"@,
        Version::V7 => "0.7"@,
    }
}

/// The chars of an ASCII byte string, code point for code point.
pub open spec fn bytes_as_chars(b: Seq<u8>) -> Seq<char> {
    b.map(|i: int, x: u8| x as char)
}

/// Whether `tok` is exactly the bytes of `s`.
fn tok_is(tok: &[u8], s: &str) -> (r: bool)
    ensures
        r == (tok@ == s.spec_bytes()),
{
    let sb = s.as_bytes();
    bytes_eq(tok, sb)
}

/// Byte-for-byte equality of two slices.
fn bytes_eq(a: &[u8], b: &[u8]) -> (r: bool)
    ensures
        r == (a@ == b@),
{
    let n = a.len();
    if n != b.len() {
        return false;
    }
    let mut i: usize = 0;
    while i < n
        invariant
            i <= n == a@.len() == b@.len(),
            forall|k: int| 0 <= k < i ==> a@[k] == b@[k],
        decreases n - i,
    {
        if a[i] != b[i] {
            return false;
        }
        i = i + 1;
    }
    proof {
        assert(a@ =~= b@);
    }
    true
}

/// First `#` in `line`, or its end.
fn find_hash_end(line: &[u8]) -> (e: usize)
    ensures
        e == hash_end_of(line@, 0),
        e <= line@.len(),
{
    let n = line.len();
    let mut i: usize = 0;
    while i < n
        invariant
            i <= n == line@.len(),
            hash_end_of(line@, 0) == hash_end_of(line@, i as int),
        decreases n - i,
    {
        if line[i] == 35 {
            return i;
        }
        i = i + 1;
    }
    n
}

/// Fetch the next meaningful header line's tokens, advancing `pos` past the
/// line and `line_count` over every line read.
fn get_entry_line(buf: &[u8], pos: &mut usize, line_count: &mut usize) -> (r: Option<
    Vec<Vec<u8>>,
>)
    requires
        *old(pos) <= buf@.len(),
    ensures
        *final(pos) <= buf@.len(),
        *final(line_count) >= *old(line_count),
        match r {
            Some(toks) => {
                &&& entry_line(buf@, *old(pos) as int) == Some(
                    (toks@.map(|k: int, t: Vec<u8>| t@), *final(pos) as int),
                )
                &&& toks@.len() > 0
            },
            None => entry_line(buf@, *old(pos) as int) is None,
        },
{
    loop
        invariant
            *pos <= buf@.len(),
            *line_count >= *old(line_count),
            entry_line(buf@, *old(pos) as int) == entry_line(buf@, *pos as int),
        decreases buf@.len() - *pos,
    {
        if *pos >= buf.len() {
            return None;
        }
        let le = crate::record::find_line_end(buf, *pos);
        let line = crate::scalar::slice_subrange(buf, *pos, le);
        let he = find_hash_end(line);
        let content = crate::scalar::slice_subrange(line, 0, he);
        let toks = crate::text::tokenize(content);
        proof {
            lemma_line_end_bounds(buf@, *pos as int);
            assert(content@ =~= line@.take(hash_end_of(line@, 0)));
            assert(toks@.map(|k: int, t: Vec<u8>| t@) == line_tokens(buf@, *pos as int));
        }
        if *line_count < usize::MAX {
            *line_count = *line_count + 1;
        }
        let nxt = if le < buf.len() {
            le + 1
        } else {
            le
        };
        proof {
            assert(nxt == line_next_of(buf@, *pos as int));
        }
        *pos = nxt;
        if toks.len() > 0 {
            return Some(toks);
        }
    }
}

/// Bytes above the ASCII range replaced by question marks, for diagnostics.
fn lossy_ascii(bytes: &[u8]) -> (r: String)
    ensures
        r@ == lossy_chars(bytes@),
{
    let n = bytes.len();
    let mut v: Vec<u8> = Vec::new();
    let mut i: usize = 0;
    while i < n
        invariant
            i <= n == bytes@.len(),
            v@.len() == i,
            forall|k: int| 0 <= k < i ==> #[trigger] v@[k] < 128,
            forall|k: int| 0 <= k < i ==> #[trigger] v@[k] as char == lossy_chars(bytes@)[k],
        decreases n - i,
    {
        let b = bytes[i];
        if b < 128 {
            v.push(b);
        } else {
            v.push(63);
            proof {
                assert(63u8 as char == '?');
            }
        }
        i = i + 1;
    }
    let r = crate::scalar::ascii_to_string(v.as_slice());
    proof {
        assert(r@ =~= lossy_chars(bytes@));
    }
    r
}

} // verus!

verus! {

/// The parsed meta is faithful to the parsed header form.
pub open spec fn meta_matches(meta: PcdMeta, h: HeaderV) -> bool {
    &&& meta.version@ == version_chars(h.version)
    &&& meta.width == h.width
    &&& meta.height == h.height
    &&& meta.viewpoint.tx == h.viewpoint[0]
    &&& meta.viewpoint.ty == h.viewpoint[1]
    &&& meta.viewpoint.tz == h.viewpoint[2]
    &&& meta.viewpoint.qw == h.viewpoint[3]
    &&& meta.viewpoint.qx == h.viewpoint[4]
    &&& meta.viewpoint.qy == h.viewpoint[5]
    &&& meta.viewpoint.qz == h.viewpoint[6]
    &&& meta.num_points == h.num_points
    &&& meta.data == h.data
    &&& meta.field_defs.fields@.len() == h.fields.len()
    &&& forall|i: int|
        0 <= i < h.fields.len() ==> {
            let fd = #[trigger] meta.field_defs.fields@[i];
            fd.name@ == bytes_as_chars(h.fields[i].0) && fd.kind == h.fields[i].1 && fd.count
                == h.fields[i].2
        }
}

/// The error for a line whose first token is not the awaited keyword.
fn expect_kw_error(line_count: usize, kw: &str, tok: &[u8]) -> (e: Error)
    ensures
        e matches Error::ParseError { line: l, .. } && l == line_count,
{
    let mut d: String = String::from_str("Expect ");
    d.append(kw);
    d.append(" entry, found \"");
    let t = lossy_ascii(tok);
    d.append(t.as_str());
    d.append("\"");
    Error::ParseError { line: line_count, desc: d }
}

/// Parse the numeric argument tokens of a `SIZE`, `COUNT`, `WIDTH`, `HEIGHT`
/// or `POINTS` line.
fn parse_num_list(toks: &Vec<Vec<u8>>, line_count: usize) -> (r: Result<Vec<u64>, Error>)
    requires
        toks@.len() >= 1,
    ensures
        ({
            let tv = toks@.map(|k: int, t: Vec<u8>| t@);
            match r {
                Ok(vals) => {
                    &&& nums_ok(tv)
                    &&& vals@.len() + 1 == tv.len()
                    &&& forall|j: int|
                        0 <= j < vals@.len() ==> Some(#[trigger] vals@[j] as nat)
                            == crate::scalar::spec_parse_uint(tv[j + 1], u64::MAX as nat)
                },
                Err(e) => !nums_ok(tv) && e matches Error::ParseIntError { .. },
            }
        }),
{
    let ghost tv = toks@.map(|k: int, t: Vec<u8>| t@);
    let n = toks.len();
    let mut vals: Vec<u64> = Vec::new();
    let mut j: usize = 1;
    while j < n
        invariant
            1 <= j <= n == toks@.len(),
            tv == toks@.map(|k: int, t: Vec<u8>| t@),
            vals@.len() + 1 == j,
            forall|q: int|
                0 <= q < vals@.len() ==> Some(#[trigger] vals@[q] as nat)
                    == crate::scalar::spec_parse_uint(tv[q + 1], u64::MAX as nat),
        decreases n - j,
    {
        match crate::scalar::parse_uint(toks[j].as_slice(), u64::MAX) {
            Some(v) => {
                vals.push(v);
            },
            None => {
                proof {
                    assert(tv[j as int] == toks@[j as int]@);
                    assert(!nums_ok(tv));
                }
                return Err(Error::new_parse_int_error("invalid integer in header line"));
            },
        }
        j = j + 1;
    }
    proof {
        assert forall|q: int| 1 <= q < tv.len() implies crate::scalar::spec_parse_uint(
            #[trigger] tv[q],
            u64::MAX as nat,
        ) is Some by {
            assert(Some(vals@[q - 1] as nat) == crate::scalar::spec_parse_uint(
                tv[q],
                u64::MAX as nat,
            ));
        }
    }
    Ok(vals)
}

/// Parse the names a `FIELDS` line declares: underscores replaced by
/// synthetic padding names; all names must be ASCII and pairwise distinct.
fn parse_fields_names(ftoks: &Vec<Vec<u8>>, line_count: usize) -> (r: Result<Vec<Vec<u8>>, Error>)
    requires
        ftoks@.len() >= 2,
    ensures
        ({
            let ftv = ftoks@.map(|k: int, t: Vec<u8>| t@);
            match r {
                Ok(names) => {
                    &&& names@.map(|k: int, t: Vec<u8>| t@) == fields_names(ftv)
                    &&& names@.len() + 1 == ftv.len()
                    &&& names_unique(fields_names(ftv))
                    &&& names_ascii(fields_names(ftv))
                    &&& forall|q: int, b: int|
                        0 <= q < names@.len() && 0 <= b < names@[q]@.len()
                            ==> #[trigger] names@[q]@[b] < 128
                },
                Err(e) => {
                    &&& !names_unique(fields_names(ftv)) || !names_ascii(fields_names(ftv))
                    &&& e matches Error::ParseError { line: l, .. } && l == line_count
                    &&& names_ascii(fields_names(ftv)) ==> (e matches Error::ParseError {
                        desc: d,
                        ..
                    } && d@ == "field name is specified more than once"@)
                },
            }
        }),
{
    let ghost ftv = ftoks@.map(|k: int, t: Vec<u8>| t@);
    let nfields = ftoks.len() - 1;
    let mut names: Vec<Vec<u8>> = Vec::new();
    let mut j: usize = 0;
    while j < nfields
        invariant
            j <= nfields,
            nfields + 1 == ftoks@.len(),
            ftv == ftoks@.map(|k: int, t: Vec<u8>| t@),
            names@.len() == j,
            forall|q: int|
                0 <= q < j ==> #[trigger] names@[q]@ == field_name_of(ftv[q + 1], q as nat),
            forall|q: int, b: int|
                0 <= q < j && 0 <= b < names@[q]@.len() ==> #[trigger] names@[q]@[b] < 128,
        decreases nfields - j,
    {
        let tok = &ftoks[j + 1];
        let name: Vec<u8> = if tok_is(tok.as_slice(), "_") {
            let kb = "unknown_field_".as_bytes();
            let mut nm = vstd::slice::slice_to_vec(kb);
            let mut dd = crate::scalar::fmt_u64(j as u64);
            nm.append(&mut dd);
            proof {
                vstd::string::is_ascii_spec_bytes("unknown_field_");
                crate::scalar::lemma_dec_nat_is_digits(j as nat);
                assert(nm@ =~= unknown_field_name(j as nat));
            }
            nm
        } else {
            vstd::slice::slice_to_vec(tok.as_slice())
        };
        // Names must be ASCII so that they can stand in a `String`.
        let mut b: usize = 0;
        let blen = name.len();
        while b < blen
            invariant
                b <= blen == name@.len(),
                forall|q: int| 0 <= q < b ==> #[trigger] name@[q] < 128,
            decreases blen - b,
        {
            if name[b] >= 128 {
                proof {
                    assert(fields_names(ftv)[j as int] == name@);
                    assert(!names_ascii(fields_names(ftv)));
                }
                return Err(
                    Error::new_parse_error(line_count, "non-ASCII field name is not supported"),
                );
            }
            b = b + 1;
        }
        proof {
            assert(field_name_of(ftv[j + 1], j as nat) == name@);
        }
        names.push(name);
        j = j + 1;
    }
    // Duplicate names are rejected.
    let mut a: usize = 0;
    while a < nfields
        invariant
            a <= nfields == names@.len(),
            nfields + 1 == ftoks@.len(),
            ftv == ftoks@.map(|k: int, t: Vec<u8>| t@),
            forall|q: int|
                0 <= q < nfields ==> #[trigger] names@[q]@ == field_name_of(ftv[q + 1], q as nat),
            forall|q: int, b: int|
                0 <= q < nfields && 0 <= b < names@[q]@.len() ==> #[trigger] names@[q]@[b] < 128,
            forall|x: int, y: int|
                0 <= x < a && x < y < names@.len() ==> #[trigger] names@[x]@ != #[trigger] names@[y]@,
        decreases nfields - a,
    {
        let mut b2: usize = a + 1;
        while b2 < nfields
            invariant
                a < b2 <= nfields == names@.len(),
                nfields + 1 == ftoks@.len(),
                ftv == ftoks@.map(|k: int, t: Vec<u8>| t@),
                forall|q: int|
                    0 <= q < nfields ==> #[trigger] names@[q]@ == field_name_of(
                        ftv[q + 1],
                        q as nat,
                    ),
                forall|y: int| a < y < b2 ==> names@[a as int]@ != #[trigger] names@[y]@,
            decreases nfields - b2,
        {
            if bytes_eq(names[a].as_slice(), names[b2].as_slice()) {
                proof {
                    assert(fields_names(ftv)[a as int] == names@[a as int]@);
                    assert(fields_names(ftv)[b2 as int] == names@[b2 as int]@);
                    assert(!names_unique(fields_names(ftv)));
                }
                return Err(
                    Error::new_parse_error(line_count, "field name is specified more than once"),
                );
            }
            b2 = b2 + 1;
        }
        a = a + 1;
    }
    proof {
        assert(names@.map(|k: int, t: Vec<u8>| t@) =~= fields_names(ftv));
        assert(names_unique(fields_names(ftv))) by {
            assert forall|x: int, y: int|
                0 <= x < y < fields_names(ftv).len() implies fields_names(ftv)[x] != fields_names(
                ftv,
            )[y] by {
                assert(fields_names(ftv)[x] == names@[x]@);
                assert(fields_names(ftv)[y] == names@[y]@);
            }
        }
        assert(names_ascii(fields_names(ftv))) by {
            assert forall|x: int, y: int|
                0 <= x < fields_names(ftv).len() && 0 <= y < fields_names(ftv)[x].len() implies
                #[trigger] fields_names(ftv)[x][y] < 128 by {
                assert(fields_names(ftv)[x] == names@[x]@);
            }
        }
    }
    Ok(names)
}

/// Parse the letters of a `TYPE` line.
fn parse_type_list(ttoks: &Vec<Vec<u8>>, line_count: usize) -> (r: Result<Vec<TypeKind>, Error>)
    requires
        ttoks@.len() >= 1,
    ensures
        ({
            let ttv = ttoks@.map(|k: int, t: Vec<u8>| t@);
            match r {
                Ok(types) => {
                    &&& types_ok(ttv)
                    &&& types@.len() + 1 == ttv.len()
                    &&& forall|q: int|
                        0 <= q < types@.len() ==> Some(#[trigger] types@[q]) == parse_type_tok(
                            ttv[q + 1],
                        )
                },
                Err(e) => !types_ok(ttv) && (e matches Error::ParseError { line: l, .. } && l
                    == line_count),
            }
        }),
{
    let ghost ttv = ttoks@.map(|k: int, t: Vec<u8>| t@);
    let ntt = ttoks.len();
    let mut types: Vec<TypeKind> = Vec::new();
    let mut tj: usize = 1;
    while tj < ntt
        invariant
            1 <= tj <= ntt == ttoks@.len(),
            ttv == ttoks@.map(|k: int, t: Vec<u8>| t@),
            types@.len() + 1 == tj,
            forall|q: int|
                0 <= q < types@.len() ==> Some(#[trigger] types@[q]) == parse_type_tok(ttv[q + 1]),
        decreases ntt - tj,
    {
        let t = &ttoks[tj];
        let tk: TypeKind = if tok_is(t.as_slice(), "I") {
            TypeKind::I
        } else if tok_is(t.as_slice(), "U") {
            TypeKind::U
        } else if tok_is(t.as_slice(), "F") {
            TypeKind::F
        } else {
            proof {
                assert(ttv[tj as int] == ttoks@[tj as int]@);
                assert(!types_ok(ttv));
            }
            return Err(Error::new_parse_error(line_count, "Invalid type character in TYPE line"));
        };
        types.push(tk);
        tj = tj + 1;
    }
    proof {
        assert forall|q: int| 1 <= q < ttv.len() implies parse_type_tok(#[trigger] ttv[q])
            is Some by {
            assert(Some(types@[q - 1]) == parse_type_tok(ttv[q]));
        }
    }
    Ok(types)
}

/// Parse the seven float arguments of a `VIEWPOINT` line.
fn parse_viewpoint_args(etoks: &Vec<Vec<u8>>, line_count: usize) -> (r: Result<ViewPoint, Error>)
    requires
        etoks@.len() == 8,
    ensures
        ({
            let etv = etoks@.map(|k: int, t: Vec<u8>| t@);
            match r {
                Ok(vp) => viewpoint_ok(etv) && viewpoint_of(etv) == seq![
                    vp.tx,
                    vp.ty,
                    vp.tz,
                    vp.qw,
                    vp.qx,
                    vp.qy,
                    vp.qz,
                ],
                Err(e) => !viewpoint_ok(etv) && e matches Error::ParseFloatError { .. },
            }
        }),
{
    let ghost etv = etoks@.map(|k: int, t: Vec<u8>| t@);
    let mut vp: Vec<u64> = Vec::new();
    let mut vj: usize = 1;
    while vj < 8
        invariant
            1 <= vj <= 8,
            etoks@.len() == 8,
            etv == etoks@.map(|k: int, t: Vec<u8>| t@),
            vp@.len() + 1 == vj,
            forall|q: int|
                0 <= q < vp@.len() ==> Some(#[trigger] vp@[q]) == crate::scalar::f64_of_dec(
                    etv[q + 1],
                ),
        decreases 8 - vj,
    {
        match crate::scalar::parse_f64_bits(etoks[vj].as_slice()) {
            Some(b) => {
                vp.push(b);
            },
            None => {
                proof {
                    assert(etv[vj as int] == etoks@[vj as int]@);
                    assert(!viewpoint_ok(etv));
                }
                return Err(Error::new_parse_float_error("invalid float in VIEWPOINT line"));
            },
        }
        vj = vj + 1;
    }
    proof {
        assert forall|q: int| 1 <= q < etv.len() implies crate::scalar::f64_of_dec(
            #[trigger] etv[q],
        ) is Some by {
            assert(Some(vp@[q - 1]) == crate::scalar::f64_of_dec(etv[q]));
        }
    }
    let vpo = ViewPoint {
        tx: vp[0],
        ty: vp[1],
        tz: vp[2],
        qw: vp[3],
        qx: vp[4],
        qy: vp[5],
        qz: vp[6],
    };
    proof {
        assert(viewpoint_of(etv) =~= seq![vpo.tx, vpo.ty, vpo.tz, vpo.qw, vpo.qx, vpo.qy, vpo.qz]);
    }
    Ok(vpo)
}

/// Resolve the parsed lists into field definitions.
fn build_defs(
    names: &Vec<Vec<u8>>,
    types: &Vec<TypeKind>,
    sizes: &Vec<u64>,
    counts: &Vec<u64>,
    line_count: usize,
    Ghost(stv): Ghost<Seq<Seq<u8>>>,
    Ghost(ttv): Ghost<Seq<Seq<u8>>>,
    Ghost(ctv): Ghost<Seq<Seq<u8>>>,
) -> (r: Result<Vec<FieldDef>, Error>)
    requires
        names@.len() == types@.len() && names@.len() == sizes@.len() && names@.len()
            == counts@.len(),
        stv.len() == names@.len() + 1 && ttv.len() == names@.len() + 1 && ctv.len()
            == names@.len() + 1,
        forall|q: int, b: int|
            0 <= q < names@.len() && 0 <= b < names@[q]@.len() ==> #[trigger] names@[q]@[b] < 128,
        forall|q: int|
            0 <= q < names@.len() ==> Some(#[trigger] sizes@[q] as nat)
                == crate::scalar::spec_parse_uint(stv[q + 1], u64::MAX as nat),
        forall|q: int|
            0 <= q < names@.len() ==> Some(#[trigger] counts@[q] as nat)
                == crate::scalar::spec_parse_uint(ctv[q + 1], u64::MAX as nat),
        forall|q: int|
            0 <= q < names@.len() ==> Some(#[trigger] types@[q]) == parse_type_tok(ttv[q + 1]),
    ensures
        ({
            let names_s = names@.map(|k: int, t: Vec<u8>| t@);
            match r {
                Ok(defs) => {
                    &&& resolve_fields(names_s, ttv, stv, ctv) matches Some(fields_s)
                        && defs@.len() == fields_s.len() && (forall|q: int|
                        0 <= q < fields_s.len() ==> {
                            let fd = #[trigger] defs@[q];
                            fd.name@ == bytes_as_chars(fields_s[q].0) && fd.kind == fields_s[q].1
                                && fd.count == fields_s[q].2
                        })
                },
                Err(e) => {
                    &&& resolve_fields(names_s, ttv, stv, ctv) is None
                    &&& e matches Error::ParseError { line: l, .. } && l == line_count
                },
            }
        }),
{
    let ghost names_s = names@.map(|k: int, t: Vec<u8>| t@);
    let nfields = names.len();
    let mut defs: Vec<FieldDef> = Vec::new();
    let mut fi: usize = 0;
    while fi < nfields
        invariant
            fi <= nfields,
            nfields == names@.len() && nfields == types@.len() && nfields == sizes@.len()
                && nfields == counts@.len(),
            names_s == names@.map(|k: int, t: Vec<u8>| t@),
            defs@.len() == fi,
            forall|q: int|
                0 <= q < fi ==> {
                    let fd = #[trigger] defs@[q];
                    fd.name@ == bytes_as_chars(names@[q]@) && Some(fd.kind) == resolved_kind_at(
                        ttv,
                        stv,
                        q,
                    ) && fd.count == counts@[q]
                },
        decreases nfields - fi,
    {
        let kind = match crate::metas::resolve_kind(types[fi], sizes[fi]) {
            Some(k) => k,
            None => {
                proof {
                    assert(resolved_kind_at(ttv, stv, fi as int) is None);
                    assert(resolve_fields(names_s, ttv, stv, ctv) is None);
                }
                return Err(
                    Error::new_parse_error(
                        line_count,
                        "Field type and size pairing is not supported",
                    ),
                );
            },
        };
        let nm = crate::scalar::ascii_to_string(names[fi].as_slice());
        proof {
            assert(nm@ =~= bytes_as_chars(names@[fi as int]@));
        }
        defs.push(FieldDef { name: nm, kind, count: counts[fi] });
        fi = fi + 1;
    }
    proof {
        assert(resolve_fields(names_s, ttv, stv, ctv) is Some) by {
            assert forall|q: int| 0 <= q < names_s.len() implies #[trigger] resolved_kind_at(
                ttv,
                stv,
                q,
            ) is Some by {
                assert(Some(defs@[q].kind) == resolved_kind_at(ttv, stv, q));
            }
        }
        let fields_s = resolve_fields(names_s, ttv, stv, ctv)->Some_0;
        assert forall|q: int| 0 <= q < fields_s.len() implies {
            let fd = #[trigger] defs@[q];
            fd.name@ == bytes_as_chars(fields_s[q].0) && fd.kind == fields_s[q].1 && fd.count
                == fields_s[q].2
        } by {
            assert(fields_s[q] == (
                names_s[q],
                resolved_kind_at(ttv, stv, q)->Some_0,
                crate::scalar::spec_parse_uint(ctv[q + 1], u64::MAX as nat)->Some_0 as u64,
            ));
            assert(names_s[q] == names@[q]@);
        }
    }
    Ok(defs)
}

} // verus!

verus! {

/// Parse a PCD header from `buf` at `pos`, leaving `pos` at the start of
/// the payload; `line_count` counts the lines read, for error reports.
///
/// Succeeds on exactly the inputs [`parse_header`] accepts, and then returns
/// the meta data it prescribes.
#[verifier::rlimit(100)]
#[verifier::spinoff_prover]
pub fn load_meta(buf: &[u8], pos: &mut usize, line_count: &mut usize) -> (r: Result<
    PcdMeta,
    Error,
>)
    requires
        *old(pos) <= buf@.len(),
    ensures
        *final(pos) <= buf@.len(),
        *final(line_count) >= *old(line_count),
        match r {
            Ok(meta) => parse_header(buf@, *old(pos) as int) matches Some(h) && meta_matches(
                meta,
                h,
            ) && *final(pos) == h.payload_start,
            Err(e) => {
                &&& parse_header(buf@, *old(pos) as int) is None
                &&& (e matches Error::ParseError { .. } || e matches Error::ParseIntError {
                    ..
                } || e matches Error::ParseFloatError { .. })
                &&& (e matches Error::ParseError { line: l, .. } ==> l == *final(line_count))
                &&& (version_rejected(buf@, *old(pos) as int) matches Some(tok) ==> (
                e matches Error::ParseError { desc: d, .. } && d@ == unsupported_version_desc(
                    tok,
                )))
                &&& (compressed_on_legacy(buf@, *old(pos) as int) ==> (e matches
                Error::ParseError { desc: d, .. } && d@
                    == "binary_compressed format is only supported in PCD version 0.7"@))
                &&& (duplicate_field_name(buf@, *old(pos) as int) ==> (e matches
                Error::ParseError { desc: d, .. } && d@
                    == "field name is specified more than once"@))
            },
        },
{
    let ghost p0 = *pos as int;
    // VERSION
    let vtoks = match get_entry_line(buf, pos, line_count) {
        Some(t) => t,
        None => {
            return Err(Error::new_parse_error(*line_count, "Unexpected end of file"));
        },
    };
    if !tok_is(vtoks[0].as_slice(), "VERSION") {
        return Err(expect_kw_error(*line_count, "VERSION", vtoks[0].as_slice()));
    }
    if vtoks.len() != 2 {
        return Err(Error::new_parse_error(*line_count, "VERSION line is not understood"));
    }
    let version: Version = if tok_is(vtoks[1].as_slice(), "0.7") || tok_is(
        vtoks[1].as_slice(),
        ".7",
    ) {
        Version::V7
    } else if tok_is(vtoks[1].as_slice(), "0.6") || tok_is(vtoks[1].as_slice(), ".6") {
        Version::V6
    } else if tok_is(vtoks[1].as_slice(), "0.5") || tok_is(vtoks[1].as_slice(), ".5") {
        Version::V5
    } else {
        let mut d: String = String::from_str("Unsupported version \"");
        let t = lossy_ascii(vtoks[1].as_slice());
        d.append(t.as_str());
        d.append("\". Supported versions are: 0.5, 0.6, 0.7");
        proof {
            assert(d@ =~= unsupported_version_desc(vtoks@[1]@));
        }
        return Err(Error::ParseError { line: *line_count, desc: d });
    };
    proof {
        assert(version_rejected(buf@, p0) is None);
    }
    proof {
        assert(parse_header_all(buf@, p0) == parse_after_version(buf@, *pos as int, version));
    }
    let ghost stage1 = parse_after_version(buf@, *pos as int, version);
    // FIELDS
    let ftoks = match get_entry_line(buf, pos, line_count) {
        Some(t) => t,
        None => {
            return Err(Error::new_parse_error(*line_count, "Unexpected end of file"));
        },
    };
    let ghost ftv = ftoks@.map(|k: int, t: Vec<u8>| t@);
    if !tok_is(ftoks[0].as_slice(), "FIELDS") {
        return Err(expect_kw_error(*line_count, "FIELDS", ftoks[0].as_slice()));
    }
    if ftoks.len() == 1 {
        return Err(Error::new_parse_error(*line_count, "FIELDS line is not understood"));
    }
    let names = match parse_fields_names(&ftoks, *line_count) {
        Ok(v) => v,
        Err(e) => {
            return Err(e);
        },
    };
    proof {
        assert(!duplicate_field_name(buf@, p0));
    }
    // SIZE
    let stoks = match get_entry_line(buf, pos, line_count) {
        Some(t) => t,
        None => {
            return Err(Error::new_parse_error(*line_count, "Unexpected end of file"));
        },
    };
    let ghost stv = stoks@.map(|k: int, t: Vec<u8>| t@);
    if !tok_is(stoks[0].as_slice(), "SIZE") {
        return Err(expect_kw_error(*line_count, "SIZE", stoks[0].as_slice()));
    }
    if stoks.len() == 1 {
        return Err(Error::new_parse_error(*line_count, "SIZE line is not understood"));
    }
    let sizes = match parse_num_list(&stoks, *line_count) {
        Ok(v) => v,
        Err(e) => {
            return Err(e);
        },
    };
    if stoks.len() != ftoks.len() {
        return Err(Error::new_parse_error(*line_count, "SIZE entry conflicts with FIELDS entry"));
    }
    // TYPE
    let ttoks = match get_entry_line(buf, pos, line_count) {
        Some(t) => t,
        None => {
            return Err(Error::new_parse_error(*line_count, "Unexpected end of file"));
        },
    };
    let ghost ttv = ttoks@.map(|k: int, t: Vec<u8>| t@);
    if !tok_is(ttoks[0].as_slice(), "TYPE") {
        return Err(expect_kw_error(*line_count, "TYPE", ttoks[0].as_slice()));
    }
    if ttoks.len() == 1 {
        return Err(Error::new_parse_error(*line_count, "TYPE line is not understood"));
    }
    let types = match parse_type_list(&ttoks, *line_count) {
        Ok(v) => v,
        Err(e) => {
            return Err(e);
        },
    };
    if ttoks.len() != ftoks.len() {
        return Err(Error::new_parse_error(*line_count, "TYPE entry conflicts with FIELDS entry"));
    }
    proof {
        assert(stage1 == parse_after_type(
            buf@,
            *pos as int,
            version,
            fields_names(ftv),
            stv,
            ttv,
        ));
    }
    let ghost stage2 = parse_after_type(buf@, *pos as int, version, fields_names(ftv), stv, ttv);
    // COUNT
    let ctoks = match get_entry_line(buf, pos, line_count) {
        Some(t) => t,
        None => {
            return Err(Error::new_parse_error(*line_count, "Unexpected end of file"));
        },
    };
    let ghost ctv = ctoks@.map(|k: int, t: Vec<u8>| t@);
    if !tok_is(ctoks[0].as_slice(), "COUNT") {
        return Err(expect_kw_error(*line_count, "COUNT", ctoks[0].as_slice()));
    }
    if ctoks.len() == 1 {
        return Err(Error::new_parse_error(*line_count, "COUNT line is not understood"));
    }
    let counts = match parse_num_list(&ctoks, *line_count) {
        Ok(v) => v,
        Err(e) => {
            return Err(e);
        },
    };
    if ctoks.len() != ftoks.len() {
        return Err(
            Error::new_parse_error(*line_count, "COUNT entry conflicts with FIELDS entry"),
        );
    }
    // WIDTH
    let wtoks = match get_entry_line(buf, pos, line_count) {
        Some(t) => t,
        None => {
            return Err(Error::new_parse_error(*line_count, "Unexpected end of file"));
        },
    };
    if !tok_is(wtoks[0].as_slice(), "WIDTH") {
        return Err(expect_kw_error(*line_count, "WIDTH", wtoks[0].as_slice()));
    }
    if wtoks.len() != 2 {
        return Err(Error::new_parse_error(*line_count, "WIDTH line is not understood"));
    }
    let wvals = match parse_num_list(&wtoks, *line_count) {
        Ok(v) => v,
        Err(e) => {
            return Err(e);
        },
    };
    let width = wvals[0];
    // HEIGHT
    let htoks = match get_entry_line(buf, pos, line_count) {
        Some(t) => t,
        None => {
            return Err(Error::new_parse_error(*line_count, "Unexpected end of file"));
        },
    };
    if !tok_is(htoks[0].as_slice(), "HEIGHT") {
        return Err(expect_kw_error(*line_count, "HEIGHT", htoks[0].as_slice()));
    }
    if htoks.len() != 2 {
        return Err(Error::new_parse_error(*line_count, "HEIGHT line is not understood"));
    }
    let hvals = match parse_num_list(&htoks, *line_count) {
        Ok(v) => v,
        Err(e) => {
            return Err(e);
        },
    };
    let height = hvals[0];
    proof {
        assert(stage2 == parse_after_height(
            buf@,
            *pos as int,
            version,
            fields_names(ftv),
            stv,
            ttv,
            ctv,
            width,
            height,
        ));
    }
    let ghost stage3 = parse_after_height(
        buf@,
        *pos as int,
        version,
        fields_names(ftv),
        stv,
        ttv,
        ctv,
        width,
        height,
    );
    // VIEWPOINT (optional before version 0.7), then POINTS
    let etoks = match get_entry_line(buf, pos, line_count) {
        Some(t) => t,
        None => {
            return Err(Error::new_parse_error(*line_count, "Unexpected end of file"));
        },
    };
    let ghost etv = etoks@.map(|k: int, t: Vec<u8>| t@);
    let mut viewpoint = ViewPoint::default();
    let ptoks: Vec<Vec<u8>>;
    if tok_is(etoks[0].as_slice(), "VIEWPOINT") {
        if etoks.len() != 8 {
            return Err(Error::new_parse_error(*line_count, "VIEWPOINT line is not understood"));
        }
        viewpoint = match parse_viewpoint_args(&etoks, *line_count) {
            Ok(v) => v,
            Err(e) => {
                return Err(e);
            },
        };
        let nptoks = match get_entry_line(buf, pos, line_count) {
            Some(t) => t,
            None => {
                return Err(Error::new_parse_error(*line_count, "Unexpected end of file"));
            },
        };
        ptoks = nptoks;
    } else if matches!(version, Version::V7) {
        return Err(expect_kw_error(*line_count, "VIEWPOINT", etoks[0].as_slice()));
    } else {
        ptoks = etoks;
    }
    let ghost vpbits = seq![
        viewpoint.tx,
        viewpoint.ty,
        viewpoint.tz,
        viewpoint.qw,
        viewpoint.qx,
        viewpoint.qy,
        viewpoint.qz,
    ];
    let ghost ptv = ptoks@.map(|k: int, t: Vec<u8>| t@);
    proof {
        assert(stage3 == parse_points_data_from(
            buf@,
            ptv,
            *pos as int,
            version,
            fields_names(ftv),
            stv,
            ttv,
            ctv,
            width,
            height,
            vpbits,
        ));
    }
    let ghost stage4 = parse_points_data_from(
        buf@,
        ptv,
        *pos as int,
        version,
        fields_names(ftv),
        stv,
        ttv,
        ctv,
        width,
        height,
        vpbits,
    );
    // POINTS
    if !tok_is(ptoks[0].as_slice(), "POINTS") {
        return Err(expect_kw_error(*line_count, "POINTS", ptoks[0].as_slice()));
    }
    if ptoks.len() != 2 {
        return Err(Error::new_parse_error(*line_count, "POINTS line is not understood"));
    }
    let pvals = match parse_num_list(&ptoks, *line_count) {
        Ok(v) => v,
        Err(e) => {
            return Err(e);
        },
    };
    let num_points = pvals[0];
    // DATA
    let dtoks = match get_entry_line(buf, pos, line_count) {
        Some(t) => t,
        None => {
            return Err(Error::new_parse_error(*line_count, "Unexpected end of file"));
        },
    };
    if !tok_is(dtoks[0].as_slice(), "DATA") {
        return Err(expect_kw_error(*line_count, "DATA", dtoks[0].as_slice()));
    }
    if dtoks.len() != 2 {
        return Err(Error::new_parse_error(*line_count, "DATA line is not understood"));
    }
    let data: DataKind = if tok_is(dtoks[1].as_slice(), "ascii") {
        DataKind::Ascii
    } else if tok_is(dtoks[1].as_slice(), "binary") {
        DataKind::Binary
    } else if tok_is(dtoks[1].as_slice(), "binary_compressed") {
        DataKind::BinaryCompressed
    } else {
        return Err(Error::new_parse_error(*line_count, "DATA line is not understood"));
    };
    if matches!(data, DataKind::BinaryCompressed) && !matches!(version, Version::V7) {
        return Err(
            Error::new_parse_error(
                *line_count,
                "binary_compressed format is only supported in PCD version 0.7",
            ),
        );
    }
    // Resolve the field definitions.
    let defs = match build_defs(
        &names,
        &types,
        &sizes,
        &counts,
        *line_count,
        Ghost(stv),
        Ghost(ttv),
        Ghost(ctv),
    ) {
        Ok(v) => v,
        Err(e) => {
            proof {
                assert(names@.map(|k: int, t: Vec<u8>| t@) == fields_names(ftv));
                assert(resolve_fields(fields_names(ftv), ttv, stv, ctv) is None);
            }
            return Err(e);
        },
    };
    let meta = PcdMeta {
        version: match version {
            Version::V5 => String::from_str("0.5"),
            Version::V6 => String::from_str("0.6"),
            Version::V7 => String::from_str("0.7"),
        },
        width,
        height,
        viewpoint,
        num_points,
        data,
        field_defs: Schema { fields: defs },
    };
    proof {
        let names_s = fields_names(ftv);
        assert(names@.map(|k: int, t: Vec<u8>| t@) == names_s);
        let fields_s = resolve_fields(names_s, ttv, stv, ctv)->Some_0;
        assert(stage4 matches Some(h) && h.fields == fields_s && h.payload_start == *pos as int);
        let h = stage4->Some_0;
        assert(parse_header(buf@, p0) == Some(h));
        assert(meta_matches(meta, h));
    }
    Ok(meta)
}

} // verus!
