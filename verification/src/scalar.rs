//! Scalar-level codecs.
//!
//! Everything a record is made of passes through here: little-endian byte
//! encoding of raw scalar values, decimal text for integers, and decimal text
//! for floating-point bit patterns.  A "raw" value is the unsigned
//! little-endian interpretation of a scalar's bytes, widened to `u64`; signed
//! scalars are mapped to and from raw values by explicit two's-complement
//! arithmetic.  Integer text is implemented and verified here; floating-point
//! text is delegated to the `rustc_apfloat` soft-float crate behind trusted
//! wrappers.

use vstd::prelude::*;

verus! {

// ---------------------------------------------------------------------------
// Little-endian bytes of raw values
// ---------------------------------------------------------------------------
/// 256^n.
pub open spec fn pow256(n: nat) -> nat
    decreases n,
{
    if n == 0 {
        1
    } else {
        256 * pow256((n - 1) as nat)
    }
}

/// The first `w` little-endian bytes of `x`.
pub open spec fn le_bytes_of(x: u64, w: nat) -> Seq<u8>
    decreases w,
{
    if w == 0 {
        Seq::empty()
    } else {
        seq![(x % 256) as u8] + le_bytes_of(x / 256, (w - 1) as nat)
    }
}

/// The unsigned value of a little-endian byte string.
pub open spec fn le_val(bs: Seq<u8>) -> nat
    decreases bs.len(),
{
    if bs.len() == 0 {
        0
    } else {
        bs[0] as nat + 256 * le_val(bs.drop_first())
    }
}

pub proof fn lemma_le_bytes_len(x: u64, w: nat)
    ensures
        le_bytes_of(x, w).len() == w,
    decreases w,
{
    if w > 0 {
        lemma_le_bytes_len(x / 256, (w - 1) as nat);
    }
}

pub proof fn lemma_le_val_bound(bs: Seq<u8>)
    ensures
        le_val(bs) < pow256(bs.len()),
    decreases bs.len(),
{
    if bs.len() > 0 {
        lemma_le_val_bound(bs.drop_first());
    }
}

/// Encoding then decoding a raw value that fits in `w` bytes gives it back.
pub proof fn lemma_le_round_trip(x: u64, w: nat)
    requires
        x < pow256(w),
    ensures
        le_val(le_bytes_of(x, w)) == x,
    decreases w,
{
    if w > 0 {
        assert(le_bytes_of(x, w).drop_first() =~= le_bytes_of(x / 256, (w - 1) as nat));
        lemma_le_round_trip(x / 256, (w - 1) as nat);
    }
}

/// The handful of powers of 256 the scalar widths use.
pub proof fn lemma_pow256_values()
    ensures
        pow256(0) == 1,
        pow256(1) == 256,
        pow256(2) == 0x1_0000,
        pow256(4) == 0x1_0000_0000,
        pow256(8) == 0x1_0000_0000_0000_0000,
{
    reveal_with_fuel(pow256, 9);
}

pub proof fn lemma_pow256_mono(a: nat, b: nat)
    requires
        a <= b,
    ensures
        pow256(a) <= pow256(b),
    decreases b,
{
    if a < b && b > 0 {
        lemma_pow256_mono(a, (b - 1) as nat);
    }
}

/// Append the `w` little-endian bytes of `x` to `out`.
pub fn put_le_bytes(out: &mut Vec<u8>, x: u64, w: usize)
    requires
        w <= 8,
    ensures
        final(out)@ == old(out)@ + le_bytes_of(x, w as nat),
{
    let mut cur: u64 = x;
    let mut i: usize = 0;
    proof {
        assert(le_bytes_of(x, w as nat).take(0) =~= Seq::<u8>::empty());
    }
    while i < w
        invariant
            i <= w,
            out@ == old(out)@ + le_bytes_of(x, w as nat).take(i as int),
            le_bytes_of(cur, (w - i) as nat) == le_bytes_of(x, w as nat).skip(i as int),
        decreases w - i,
    {
        proof {
            lemma_le_bytes_len(x, w as nat);
            lemma_le_bytes_len(cur, (w - i) as nat);
            assert(le_bytes_of(cur, (w - i) as nat)[0] == (cur % 256) as u8);
            assert(le_bytes_of(x, w as nat)[i as int] == (cur % 256) as u8);
            assert(le_bytes_of(x, w as nat).take(i + 1) =~= le_bytes_of(x, w as nat).take(
                i as int,
            ).push((cur % 256) as u8));
            assert(le_bytes_of(cur, (w - i) as nat).drop_first() =~= le_bytes_of(
                cur / 256,
                (w - i - 1) as nat,
            ));
            assert(le_bytes_of(x, w as nat).skip(i as int).drop_first() =~= le_bytes_of(
                x,
                w as nat,
            ).skip(i + 1));
        }
        out.push((cur % 256) as u8);
        cur = cur / 256;
        i = i + 1;
    }
    proof {
        lemma_le_bytes_len(x, w as nat);
        assert(le_bytes_of(x, w as nat).take(w as int) =~= le_bytes_of(x, w as nat));
    }
}

/// Read the raw value held by `buf[pos .. pos + w]` in little-endian order.
pub fn get_le_bytes(buf: &[u8], pos: usize, w: usize) -> (r: u64)
    requires
        w <= 8,
        pos + w <= buf@.len(),
    ensures
        r == le_val(buf@.subrange(pos as int, pos + w)),
{
    let blen = buf.len();
    let mut acc: u64 = 0;
    let mut j: usize = 0;
    proof {
        assert(buf@.subrange(pos + w, pos + w) =~= Seq::<u8>::empty());
    }
    while j < w
        invariant
            j <= w,
            w <= 8,
            blen == buf@.len(),
            pos + w <= blen,
            acc == le_val(buf@.subrange(pos + w - j, pos + w)),
            acc < pow256(j as nat),
        decreases w - j,
    {
        let off = w - 1 - j;
        let b = buf[pos + off];
        proof {
            let lo = pos + w - j - 1;
            let sub = buf@.subrange(lo, pos + w);
            assert(sub[0] == buf@[lo]);
            assert(sub.drop_first() =~= buf@.subrange(pos + w - j, pos + w));
            lemma_le_val_bound(buf@.subrange(lo, pos + w));
            lemma_pow256_mono((j + 1) as nat, 8);
            assert(pow256(8) == 0x1_0000_0000_0000_0000) by {
                reveal_with_fuel(pow256, 9);
            }
        }
        acc = (b as u64) + 256 * acc;
        j = j + 1;
    }
    proof {
        assert(buf@.subrange(pos as int, pos + w) =~= buf@.subrange(pos + w - w, pos + w));
    }
    acc
}

// ---------------------------------------------------------------------------
// Signed scalars as raw values (two's complement)
// ---------------------------------------------------------------------------
/// The raw (unsigned) value standing for a signed scalar of width `w` bytes.
pub open spec fn raw_of_int(v: int, w: nat) -> nat {
    if v >= 0 {
        v as nat
    } else {
        (v + pow256(w)) as nat
    }
}

/// The signed value of a raw scalar of width `w` bytes.
pub open spec fn int_of_raw(r: nat, w: nat) -> int {
    if r < pow256(w) / 2 {
        r as int
    } else {
        r - pow256(w)
    }
}

pub fn i8_to_raw(x: i8) -> (r: u64)
    ensures
        r == raw_of_int(x as int, 1),
        r < 256,
{
    proof {
        lemma_pow256_values();
    }
    if x >= 0 {
        x as u64
    } else {
        (x as i64 + 256) as u64
    }
}

pub fn raw_to_i8(r: u64) -> (x: i8)
    requires
        r < 256,
    ensures
        x as int == int_of_raw(r as nat, 1),
{
    proof {
        lemma_pow256_values();
    }
    if r < 128 {
        r as i8
    } else {
        (r as i64 - 256) as i8
    }
}

pub fn i16_to_raw(x: i16) -> (r: u64)
    ensures
        r == raw_of_int(x as int, 2),
        r < 0x1_0000,
{
    proof {
        lemma_pow256_values();
    }
    if x >= 0 {
        x as u64
    } else {
        (x as i64 + 0x1_0000) as u64
    }
}

pub fn raw_to_i16(r: u64) -> (x: i16)
    requires
        r < 0x1_0000,
    ensures
        x as int == int_of_raw(r as nat, 2),
{
    proof {
        lemma_pow256_values();
    }
    if r < 0x8000 {
        r as i16
    } else {
        (r as i64 - 0x1_0000) as i16
    }
}

pub fn i32_to_raw(x: i32) -> (r: u64)
    ensures
        r == raw_of_int(x as int, 4),
        r < 0x1_0000_0000,
{
    proof {
        lemma_pow256_values();
    }
    if x >= 0 {
        x as u64
    } else {
        (x as i64 + 0x1_0000_0000) as u64
    }
}

pub fn raw_to_i32(r: u64) -> (x: i32)
    requires
        r < 0x1_0000_0000,
    ensures
        x as int == int_of_raw(r as nat, 4),
{
    proof {
        lemma_pow256_values();
    }
    if r < 0x8000_0000 {
        r as i32
    } else {
        (r as i64 - 0x1_0000_0000) as i32
    }
}

/// Raw and signed views of a scalar are mutually inverse.
pub proof fn lemma_raw_int_round_trip(v: int, w: nat)
    requires
        1 <= w <= 8,
        -(pow256(w) / 2) <= v < pow256(w) / 2,
    ensures
        int_of_raw(raw_of_int(v, w), w) == v,
        raw_of_int(v, w) < pow256(w),
{
    lemma_pow256_values();
    assert(pow256(w) >= 256) by {
        lemma_pow256_mono(1, w);
    }
}

// ---------------------------------------------------------------------------
// Decimal text for integers
// ---------------------------------------------------------------------------
/// Decimal digit bytes of `n`, most significant first, no sign, no padding.
pub open spec fn dec_nat(n: nat) -> Seq<u8>
    decreases n,
{
    if n < 10 {
        seq![(48 + n) as u8]
    } else {
        dec_nat(n / 10).push((48 + n % 10) as u8)
    }
}

/// Decimal byte text of a possibly negative integer.
pub open spec fn dec_int(v: int) -> Seq<u8> {
    if v < 0 {
        seq![45u8] + dec_nat((-v) as nat)
    } else {
        dec_nat(v as nat)
    }
}

pub open spec fn is_digit(b: u8) -> bool {
    48 <= b <= 57
}

pub open spec fn is_digits(s: Seq<u8>) -> bool {
    s.len() > 0 && forall|i: int| 0 <= i < s.len() ==> is_digit(#[trigger] s[i])
}

/// The value of a non-empty digit string.
pub open spec fn digits_val(s: Seq<u8>) -> nat
    decreases s.len(),
{
    if s.len() == 0 {
        0
    } else {
        digits_val(s.drop_last()) * 10 + (if s.last() >= 48 {
            (s.last() - 48) as nat
        } else {
            0
        })
    }
}

/// What `parse` of an unsigned integer type with maximum `max` accepts: an
/// optional `+`, then digits, value within range.
pub open spec fn spec_parse_uint(s: Seq<u8>, max: nat) -> Option<nat> {
    let digits = if s.len() > 0 && s[0] == 43 {
        s.drop_first()
    } else {
        s
    };
    if is_digits(digits) && digits_val(digits) <= max {
        Some(digits_val(digits))
    } else {
        None
    }
}

/// What `parse` of a signed integer type with range `min ..= max` accepts: an
/// optional sign, then digits, value within range.
pub open spec fn spec_parse_int(s: Seq<u8>, min: int, max: int) -> Option<int> {
    let neg = s.len() > 0 && s[0] == 45;
    let digits = if s.len() > 0 && (s[0] == 43 || s[0] == 45) {
        s.drop_first()
    } else {
        s
    };
    if is_digits(digits) {
        let v = if neg {
            -(digits_val(digits) as int)
        } else {
            digits_val(digits) as int
        };
        if min <= v <= max {
            Some(v)
        } else {
            None
        }
    } else {
        None
    }
}

pub proof fn lemma_dec_nat_is_digits(n: nat)
    ensures
        is_digits(dec_nat(n)),
        digits_val(dec_nat(n)) == n,
        is_digit(dec_nat(n)[0]),
    decreases n,
{
    if n < 10 {
        assert(dec_nat(n) == seq![(48 + n) as u8]);
        assert(dec_nat(n).drop_last() =~= Seq::<u8>::empty());
        assert(digits_val(dec_nat(n)) == digits_val(dec_nat(n).drop_last()) * 10 + n);
    } else {
        lemma_dec_nat_is_digits(n / 10);
        assert(dec_nat(n).drop_last() =~= dec_nat(n / 10));
    }
}

/// Parsing the decimal text of `n` gives `n` back, for any admissible range.
pub proof fn lemma_dec_uint_round_trip(n: nat, max: nat)
    requires
        n <= max,
    ensures
        spec_parse_uint(dec_nat(n), max) == Some(n),
{
    lemma_dec_nat_is_digits(n);
}

/// Parsing the decimal text of `v` gives `v` back, for any admissible range.
pub proof fn lemma_dec_int_round_trip(v: int, min: int, max: int)
    requires
        min <= v <= max,
    ensures
        spec_parse_int(dec_int(v), min, max) == Some(v),
{
    if v < 0 {
        lemma_dec_nat_is_digits((-v) as nat);
        let s = dec_int(v);
        assert(s.drop_first() =~= dec_nat((-v) as nat));
    } else {
        lemma_dec_nat_is_digits(v as nat);
    }
}

/// Every digit string's prefix has a value no larger than the whole.
proof fn lemma_digits_val_prefix(s: Seq<u8>, i: int)
    requires
        0 <= i <= s.len(),
    ensures
        digits_val(s.take(i)) <= digits_val(s),
    decreases s.len() - i,
{
    if i < s.len() {
        lemma_digits_val_prefix(s, i + 1);
        assert(s.take(i + 1).drop_last() =~= s.take(i));
        assert(digits_val(s.take(i)) <= digits_val(s.take(i + 1)));
    } else {
        assert(s.take(i) =~= s);
    }
}

/// Append the decimal digits of `n` to `out`.
pub fn fmt_u64_into(out: &mut Vec<u8>, n: u64)
    ensures
        final(out)@ == old(out)@ + dec_nat(n as nat),
    decreases n,
{
    if n < 10 {
        out.push(48 + n as u8);
        assert(out@ =~= old(out)@ + dec_nat(n as nat));
    } else {
        fmt_u64_into(out, n / 10);
        out.push(48 + (n % 10) as u8);
        assert(out@ =~= old(out)@ + dec_nat(n as nat));
    }
}

/// The decimal digits of `n`.
pub fn fmt_u64(n: u64) -> (r: Vec<u8>)
    ensures
        r@ == dec_nat(n as nat),
{
    let mut out: Vec<u8> = Vec::new();
    fmt_u64_into(&mut out, n);
    out
}

/// Append the decimal text of `v`, with a leading minus sign when negative.
pub fn fmt_i64_into(out: &mut Vec<u8>, v: i64)
    requires
        v > i64::MIN,
    ensures
        final(out)@ == old(out)@ + dec_int(v as int),
{
    if v < 0 {
        out.push(45);
        fmt_u64_into(out, (-v) as u64);
        assert(out@ =~= old(out)@ + dec_int(v as int));
    } else {
        fmt_u64_into(out, v as u64);
    }
}

/// The token the digits of `s` came from does not parse when the digits are
/// malformed or the value is out of range.
proof fn lemma_parse_uint_none(s: Seq<u8>, max: nat)
    requires
        ({
            let digits = if s.len() > 0 && s[0] == 43 {
                s.drop_first()
            } else {
                s
            };
            !is_digits(digits) || digits_val(digits) > max
        }),
    ensures
        spec_parse_uint(s, max) is None,
{
}

/// Parse an unsigned decimal token with maximum value `max`.
pub fn parse_uint(tok: &[u8], max: u64) -> (r: Option<u64>)
    ensures
        match r {
            Some(v) => spec_parse_uint(tok@, max as nat) == Some(v as nat),
            None => spec_parse_uint(tok@, max as nat) is None,
        },
{
    let rest: &[u8] = if tok.len() > 0 && tok[0] == 43 {
        slice_drop_first(tok)
    } else {
        tok
    };
    let ghost digits = if tok@.len() > 0 && tok@[0] == 43 {
        tok@.drop_first()
    } else {
        tok@
    };
    assert(rest@ == digits);
    let n = rest.len();
    if n == 0 {
        return None;
    }
    let mut acc: u64 = 0;
    let mut i: usize = 0;
    proof {
        assert(digits.take(0) =~= Seq::<u8>::empty());
    }
    while i < n
        invariant
            i <= n,
            n == digits.len(),
            rest@ == digits,
            forall|k: int| 0 <= k < i ==> is_digit(#[trigger] digits[k]),
            acc == digits_val(digits.take(i as int)),
            acc <= max,
        decreases n - i,
    {
        let b = rest[i];
        if b < 48 || b > 57 {
            proof {
                assert(!is_digits(digits));
                lemma_parse_uint_none(tok@, max as nat);
            }
            return None;
        }
        let d = (b - 48) as u64;
        proof {
            assert(digits.take(i + 1).drop_last() =~= digits.take(i as int));
            assert(digits.take(i + 1).last() == b);
            assert(digits_val(digits.take(i + 1)) == acc * 10 + d);
        }
        if acc > max / 10 || (acc == max / 10 && d > max % 10) {
            // The value through this digit already exceeds `max`; any
            // continuation is at least as large.
            proof {
                assert(acc * 10 + d > max) by (nonlinear_arith)
                    requires
                        acc > max / 10 || (acc == max / 10 && d > max % 10),
                        acc <= max,
                        d < 10,
                        max == (max / 10) * 10 + max % 10,
                ;
                lemma_digits_val_prefix(digits, i + 1);
                assert(digits_val(digits) > max);
                lemma_parse_uint_none(tok@, max as nat);
            }
            return None;
        }
        proof {
            assert(acc * 10 + d <= max) by (nonlinear_arith)
                requires
                    acc <= max / 10,
                    !(acc == max / 10 && d > max % 10),
                    d < 10,
                    max == (max / 10) * 10 + max % 10,
            ;
        }
        acc = acc * 10 + d;
        i = i + 1;
    }
    proof {
        assert(digits.take(n as int) =~= digits);
    }
    Some(acc)
}

/// Parse a signed decimal token with range `min ..= max`.
pub fn parse_int(tok: &[u8], min: i64, max: i64) -> (r: Option<i64>)
    requires
        min <= 0 <= max,
        min > i64::MIN,
    ensures
        match r {
            Some(v) => spec_parse_int(tok@, min as int, max as int) == Some(v as int),
            None => spec_parse_int(tok@, min as int, max as int) is None,
        },
{
    let n = tok.len();
    if n > 0 && tok[0] == 45 {
        let rest = slice_drop_first(tok);
        if rest.len() > 0 && rest[0] == 43 {
            // A sign may not follow another sign.
            return None;
        }
        match parse_uint(rest, (-min) as u64) {
            Some(v) => Some(-(v as i64)),
            None => None,
        }
    } else {
        match parse_uint(tok, max as u64) {
            Some(v) => Some(v as i64),
            None => None,
        }
    }
}

/// All bytes of `tok` but the first.
pub fn slice_drop_first(tok: &[u8]) -> (r: &[u8])
    requires
        tok@.len() > 0,
    ensures
        r@ == tok@.drop_first(),
{
    let r = slice_subrange(tok, 1, tok.len());
    proof {
        assert(r@ =~= tok@.drop_first());
    }
    r
}

/// Borrow `buf[from .. to]`.
pub fn slice_subrange(buf: &[u8], from: usize, to: usize) -> (r: &[u8])
    requires
        from <= to <= buf@.len(),
    ensures
        r@ == buf@.subrange(from as int, to as int),
{
    vstd::slice::slice_subrange(buf, from, to)
}

} // verus!

verus! {

// ---------------------------------------------------------------------------
// Decimal text for floating-point bit patterns (trusted, via rustc_apfloat)
// ---------------------------------------------------------------------------
/// The decimal rendering of the `f32` with bit pattern `bits`.
pub uninterp spec fn dec_of_f32(bits: u32) -> Seq<u8>;

/// The `f32` bit pattern a decimal token parses to, `None` when malformed.
pub uninterp spec fn f32_of_dec(s: Seq<u8>) -> Option<u32>;

/// The decimal rendering of the `f64` with bit pattern `bits`.
pub uninterp spec fn dec_of_f64(bits: u64) -> Seq<u8>;

/// The `f64` bit pattern a decimal token parses to, `None` when malformed.
pub uninterp spec fn f64_of_dec(s: Seq<u8>) -> Option<u64>;

/// The bit pattern encodes a 32-bit NaN: exponent all ones, mantissa nonzero.
pub open spec fn is_nan_bits32(b: u32) -> bool {
    (b >> 23) & 0xff == 0xff && b & 0x7f_ffff != 0
}

/// The bit pattern encodes a 64-bit NaN: exponent all ones, mantissa nonzero.
pub open spec fn is_nan_bits64(b: u64) -> bool {
    (b >> 52) & 0x7ff == 0x7ff && b & 0xf_ffff_ffff_ffff != 0
}

/// Relies on rustc_apfloat's `Display` for `ieee::Single`: prints the value
/// with bit pattern `bits` in decimal with enough digits that parsing the text
/// back yields the same value (so for every non-NaN pattern the text parses to
/// exactly `bits`); the text is never empty and holds only ASCII characters
/// above the whitespace range.
#[verifier::external_body]
pub fn format_f32_bits(bits: u32) -> (r: Vec<u8>)
    ensures
        r@ == dec_of_f32(bits),
        r@.len() > 0,
        forall|i: int| 0 <= i < r@.len() ==> 33 <= #[trigger] r@[i] < 127,
        !is_nan_bits32(bits) ==> f32_of_dec(r@) == Some(bits),
{
    let v = <rustc_apfloat::ieee::Single as rustc_apfloat::Float>::from_bits(bits as u128);
    v.to_string().into_bytes()
}

/// Relies on rustc_apfloat's `Display` for `ieee::Double`, as
/// [`format_f32_bits`] relies on it for `ieee::Single`.
#[verifier::external_body]
pub fn format_f64_bits(bits: u64) -> (r: Vec<u8>)
    ensures
        r@ == dec_of_f64(bits),
        r@.len() > 0,
        forall|i: int| 0 <= i < r@.len() ==> 33 <= #[trigger] r@[i] < 127,
        !is_nan_bits64(bits) ==> f64_of_dec(r@) == Some(bits),
{
    let v = <rustc_apfloat::ieee::Double as rustc_apfloat::Float>::from_bits(bits as u128);
    v.to_string().into_bytes()
}

/// Relies on rustc_apfloat's `FromStr` for `ieee::Single` (with
/// `core::str::from_utf8` in front): parses a decimal or special float
/// literal, rounding to nearest even, and returns the bit pattern; `None`
/// when the token is not a valid literal (or not UTF-8, which no valid
/// literal is).
#[verifier::external_body]
pub fn parse_f32_bits(tok: &[u8]) -> (r: Option<u32>)
    ensures
        r == f32_of_dec(tok@),
{
    let s = match core::str::from_utf8(tok) {
        Ok(s) => s,
        Err(_) => return None,
    };
    match <rustc_apfloat::ieee::Single as core::str::FromStr>::from_str(s) {
        Ok(v) => Some(
            <rustc_apfloat::ieee::Single as rustc_apfloat::Float>::to_bits(v) as u32,
        ),
        Err(_) => None,
    }
}

/// Relies on rustc_apfloat's `FromStr` for `ieee::Double`, as
/// [`parse_f32_bits`] relies on it for `ieee::Single`.
#[verifier::external_body]
pub fn parse_f64_bits(tok: &[u8]) -> (r: Option<u64>)
    ensures
        r == f64_of_dec(tok@),
{
    let s = match core::str::from_utf8(tok) {
        Ok(s) => s,
        Err(_) => return None,
    };
    match <rustc_apfloat::ieee::Double as core::str::FromStr>::from_str(s) {
        Ok(v) => Some(<rustc_apfloat::ieee::Double as rustc_apfloat::Float>::to_bits(v) as u64),
        Err(_) => None,
    }
}

// ---------------------------------------------------------------------------
// ASCII bytes to String (trusted, via core::str::from_utf8)
// ---------------------------------------------------------------------------
/// Relies on `core::str::from_utf8`: bytes below 128 are valid UTF-8 and
/// decode to the chars with the same code points.
#[verifier::external_body]
pub fn ascii_to_string(bytes: &[u8]) -> (r: String)
    requires
        forall|i: int| 0 <= i < bytes@.len() ==> bytes@[i] < 128,
    ensures
        r@.len() == bytes@.len(),
        forall|i: int| 0 <= i < bytes@.len() ==> r@[i] == bytes@[i] as char,
{
    core::str::from_utf8(bytes).unwrap().to_owned()
}

} // verus!
