//! LZF compression and decompression for the `binary_compressed` payload.
//!
//! The stream is a sequence of commands: a control byte below 32 opens a
//! literal run of `control + 1` raw bytes; a control byte of 32 or more is a
//! back-reference whose top three bits give a base length (a base of 7 takes
//! one extension byte), and whose low five bits, with one more byte, give the
//! offset.  [`lzf_run`] is the specification-level decoder all contracts
//! speak of: [`decompress`] is proved to agree with it exactly, and
//! [`compress`] is proved to emit a stream that `lzf_run` decodes back to its
//! input — the round-trip law.

use vstd::prelude::*;

use crate::error::Error;

verus! {

/// Log2 of the hash table size.
pub const HLOG: usize = 14;

/// Number of slots in the compressor's hash table.
pub const HSIZE: usize = 16384;

/// A literal run is flushed at this many bytes.
pub const MAX_LIT: usize = 32;

/// Largest back-reference offset the wire format can carry.
pub const MAX_OFF: usize = 8192;

/// Largest back-reference length the wire format can carry.
pub const MAX_REF: usize = 264;

/// Append `len` bytes to `out`, each copied from `off` positions before the
/// write position; an offset smaller than the length re-reads bytes written
/// by the same copy.
pub open spec fn back_copy(out: Seq<u8>, off: int, len: int) -> Seq<u8>
    decreases len,
{
    if len <= 0 {
        out
    } else {
        let prev = back_copy(out, off, len - 1);
        prev.push(prev[prev.len() - off])
    }
}

/// Decode the LZF stream `inp` onto the already-produced `out`; `None` for a
/// malformed stream (truncated command, or a reference before the start).
pub open spec fn lzf_run(inp: Seq<u8>, out: Seq<u8>) -> Option<Seq<u8>>
    decreases inp.len(),
{
    if inp.len() == 0 {
        Some(out)
    } else {
        let c = inp[0];
        if c < 32 {
            let l = c as int + 1;
            if inp.len() >= 1 + l {
                lzf_run(inp.skip(1 + l), out + inp.subrange(1, 1 + l))
            } else {
                None
            }
        } else {
            let base = c as int / 32;
            let hdr: int = if base == 7 {
                3
            } else {
                2
            };
            if inp.len() >= hdr {
                let len = (if base == 7 {
                    base + inp[1]
                } else {
                    base
                }) + 2;
                let off = (c as int % 32) * 256 + inp[hdr - 1] + 1;
                if off <= out.len() {
                    lzf_run(inp.skip(hdr), back_copy(out, off, len))
                } else {
                    None
                }
            } else {
                None
            }
        }
    }
}

pub proof fn lemma_back_copy_len(out: Seq<u8>, off: int, len: int)
    ensures
        back_copy(out, off, len).len() == out.len() + (if len <= 0 {
            0
        } else {
            len
        }),
    decreases len,
{
    if len > 0 {
        lemma_back_copy_len(out, off, len - 1);
    }
}

/// Decoding only ever appends: the result is no shorter than `out`.
pub proof fn lemma_lzf_run_grows(inp: Seq<u8>, out: Seq<u8>)
    ensures
        lzf_run(inp, out) matches Some(f) ==> f.len() >= out.len(),
    decreases inp.len(),
{
    if inp.len() > 0 {
        let c = inp[0];
        if c < 32 {
            let l = c as int + 1;
            if inp.len() >= 1 + l {
                lemma_lzf_run_grows(inp.skip(1 + l), out + inp.subrange(1, 1 + l));
            }
        } else {
            let base = c as int / 32;
            let hdr: int = if base == 7 {
                3
            } else {
                2
            };
            if inp.len() >= hdr {
                let len = (if base == 7 {
                    base + inp[1]
                } else {
                    base
                }) + 2;
                let off = (c as int % 32) * 256 + inp[hdr - 1] + 1;
                if off <= out.len() {
                    lemma_back_copy_len(out, off, len);
                    lemma_lzf_run_grows(inp.skip(hdr), back_copy(out, off, len));
                }
            }
        }
    }
}

/// Decoding a stream in two parts: when the first decodes, the whole decodes
/// as the second continued on the first's result.
pub proof fn lemma_lzf_run_append(a: Seq<u8>, b: Seq<u8>, out: Seq<u8>)
    requires
        lzf_run(a, out) is Some,
    ensures
        lzf_run(a + b, out) == lzf_run(b, lzf_run(a, out)->Some_0),
    decreases a.len(),
{
    if a.len() == 0 {
        assert(a + b =~= b);
    } else {
        let ab = a + b;
        let c = a[0];
        assert(ab[0] == c);
        if c < 32 {
            let l = c as int + 1;
            assert(a.len() >= 1 + l);
            assert(ab.subrange(1, 1 + l) =~= a.subrange(1, 1 + l));
            assert(ab.skip(1 + l) =~= a.skip(1 + l) + b);
            lemma_lzf_run_append(a.skip(1 + l), b, out + a.subrange(1, 1 + l));
        } else {
            let base = c as int / 32;
            let hdr: int = if base == 7 {
                3
            } else {
                2
            };
            assert(a.len() >= hdr);
            assert(ab[1] == a[1]);
            assert(ab[hdr - 1] == a[hdr - 1]);
            let len = (if base == 7 {
                base + a[1]
            } else {
                base
            }) + 2;
            let off = (c as int % 32) * 256 + a[hdr - 1] + 1;
            assert(off <= out.len());
            assert(ab.skip(hdr) =~= a.skip(hdr) + b);
            lemma_lzf_run_append(a.skip(hdr), b, back_copy(out, off, len));
        }
    }
}

/// Copying `len` bytes from `off` back, over a prefix of `s` whose next
/// `len` bytes repeat the bytes `off` earlier, extends the prefix.
pub proof fn lemma_back_copy_match(s: Seq<u8>, ref_pos: int, in_pos: int, len: int)
    requires
        0 <= len,
        0 <= ref_pos < in_pos <= s.len(),
        in_pos + len <= s.len(),
        forall|j: int| 0 <= j < len ==> s[ref_pos + j] == s[#[trigger] (in_pos + j)],
    ensures
        back_copy(s.take(in_pos), in_pos - ref_pos, len) == s.take(in_pos + len),
    decreases len,
{
    if len == 0 {
        assert(back_copy(s.take(in_pos), in_pos - ref_pos, len) =~= s.take(in_pos + len));
    } else {
        lemma_back_copy_match(s, ref_pos, in_pos, len - 1);
        let off = in_pos - ref_pos;
        let prev = back_copy(s.take(in_pos), off, len - 1);
        lemma_back_copy_len(s.take(in_pos), off, len - 1);
        assert(prev[prev.len() - off] == s[ref_pos + (len - 1)]);
        assert(s[ref_pos + (len - 1)] == s[in_pos + (len - 1)]);
        assert(prev.push(s[in_pos + (len - 1)]) =~= s.take(in_pos + len));
    }
}

/// Decompress an LZF stream, expecting exactly `output_len` decoded bytes.
///
/// Agrees exactly with [`lzf_run`]: the call succeeds if and only if the
/// stream decodes and its decoded form has the expected length, and then
/// returns that decoded form.
pub fn decompress(input: &[u8], output_len: usize) -> (r: Result<Vec<u8>, Error>)
    ensures
        match r {
            Ok(o) => lzf_run(input@, Seq::empty()) == Some(o@) && o@.len() == output_len,
            Err(e) => {
                &&& match lzf_run(input@, Seq::empty()) {
                    Some(o) => o.len() != output_len,
                    None => true,
                }
                &&& e matches Error::ParseError { .. }
            },
        },
{
    let n = input.len();
    let mut out: Vec<u8> = Vec::new();
    let mut in_pos: usize = 0;
    proof {
        assert(input@.skip(0) =~= input@);
        assert(out@ =~= Seq::<u8>::empty());
    }
    while in_pos < n
        invariant
            in_pos <= n == input@.len(),
            out@.len() <= output_len,
            lzf_run(input@, Seq::empty()) == lzf_run(input@.skip(in_pos as int), out@),
        decreases n - in_pos,
    {
        let ghost rest = input@.skip(in_pos as int);
        let ctrl = input[in_pos];
        proof {
            assert(rest[0] == ctrl);
        }
        if ctrl < 32 {
            // Literal run
            let l = ctrl as usize + 1;
            if l > n - (in_pos + 1) {
                return Err(
                    Error::new_parse_error(
                        0,
                        "LZF decompression error: literal run exceeds input size",
                    ),
                );
            }
            if l > output_len - out.len() {
                proof {
                    if lzf_run(rest, out@) is Some {
                        lemma_lzf_run_grows(
                            rest.skip(1 + l),
                            out@ + rest.subrange(1, 1 + (l as int)),
                        );
                    }
                }
                return Err(
                    Error::new_parse_error(0, "LZF decompression error: output buffer overflow"),
                );
            }
            let ghost out0 = out@;
            let mut j: usize = 0;
            while j < l
                invariant
                    j <= l,
                    in_pos + 1 + l <= n == input@.len(),
                    out@ == out0 + input@.subrange(in_pos + 1, in_pos + 1 + j),
                decreases l - j,
            {
                proof {
                    assert(input@.subrange(in_pos + 1, in_pos + 1 + j + 1) =~= input@.subrange(
                        in_pos + 1,
                        in_pos + 1 + j,
                    ).push(input@[in_pos + 1 + j]));
                }
                out.push(input[in_pos + 1 + j]);
                j = j + 1;
            }
            proof {
                assert(rest.subrange(1, 1 + (l as int)) =~= input@.subrange(
                    in_pos + 1,
                    in_pos + 1 + l,
                ));
                assert(rest.skip(1 + (l as int)) =~= input@.skip(in_pos + 1 + l));
            }
            in_pos = in_pos + 1 + l;
        } else {
            // Back reference
            let base = (ctrl / 32) as usize;
            let hdr: usize = if base == 7 {
                3
            } else {
                2
            };
            if base == 7 && n - in_pos < 2 {
                return Err(
                    Error::new_parse_error(
                        0,
                        "LZF decompression error: long match length exceeds input",
                    ),
                );
            }
            if n - in_pos < hdr {
                return Err(
                    Error::new_parse_error(
                        0,
                        "LZF decompression error: reference offset exceeds input size",
                    ),
                );
            }
            let len: usize = if base == 7 {
                base + input[in_pos + 1] as usize + 2
            } else {
                base + 2
            };
            let offset = (ctrl % 32) as usize * 256 + input[in_pos + hdr - 1] as usize + 1;
            proof {
                assert(rest[1] == input@[in_pos + 1]);
                assert(rest[hdr - 1] == input@[in_pos + hdr - 1]);
            }
            if offset > out.len() {
                return Err(
                    Error::new_parse_error(0, "LZF decompression error: invalid back reference"),
                );
            }
            if len > output_len - out.len() {
                proof {
                    if lzf_run(rest, out@) is Some {
                        lemma_back_copy_len(out@, offset as int, len as int);
                        lemma_lzf_run_grows(
                            rest.skip(hdr as int),
                            back_copy(out@, offset as int, len as int),
                        );
                    }
                }
                return Err(
                    Error::new_parse_error(0, "LZF decompression error: output buffer overflow"),
                );
            }
            let ghost out0 = out@;
            let mut j: usize = 0;
            while j < len
                invariant
                    j <= len,
                    1 <= offset <= out0.len(),
                    out@ == back_copy(out0, offset as int, j as int),
                    out@.len() == out0.len() + j,
                decreases len - j,
            {
                let b = out[out.len() - offset];
                proof {
                    lemma_back_copy_len(out0, offset as int, j + 1);
                }
                out.push(b);
                j = j + 1;
            }
            proof {
                assert(rest.skip(hdr as int) =~= input@.skip(in_pos + hdr));
            }
            in_pos = in_pos + hdr;
        }
    }
    proof {
        assert(input@.skip(n as int) =~= Seq::<u8>::empty());
    }
    if out.len() != output_len {
        return Err(
            Error::new_parse_error(0, "LZF decompression error: decoded size mismatch"),
        );
    }
    Ok(out)
}

} // verus!

verus! {

/// The part of the compressor's output that is already a complete stream:
/// all of it, or everything before the pending literal run's count byte.
pub open spec fn closed_part(o: Seq<u8>, lit: int, lit_pos: int) -> Seq<u8> {
    if lit > 0 {
        o.take(lit_pos)
    } else {
        o
    }
}

/// The compressor's hash of a three-byte prefix: the three bytes packed
/// big-endian, folded by a shift and an exclusive or, reduced to a table
/// slot.
fn hash3(b0: u8, b1: u8, b2: u8) -> (h: usize)
    ensures
        h < HSIZE,
        h == ({
            let v = ((b0 as usize) * 65536 + (b1 as usize) * 256 + (b2 as usize)) as usize;
            ((v >> ((24 - HLOG) as usize)) ^ v) % HSIZE
        }),
{
    let v = (b0 as usize) * 65536 + (b1 as usize) * 256 + (b2 as usize);
    ((v >> (24 - HLOG)) ^ v) % HSIZE
}

/// Write the pending literal run's count byte, completing the run: the
/// output then decodes to what it decoded to before, followed by the run's
/// bytes.
fn flush_lit(out: &mut Vec<u8>, lit: usize, lit_pos: usize, Ghost(pre): Ghost<Seq<u8>>)
    requires
        1 <= lit <= 32,
        lit_pos + 1 + lit == old(out)@.len(),
        lzf_run(old(out)@.take(lit_pos as int), Seq::empty()) == Some(pre),
    ensures
        final(out)@ == old(out)@.update(lit_pos as int, (lit - 1) as u8),
        final(out)@.len() == old(out)@.len(),
        final(out)@.take(lit_pos as int) == old(out)@.take(lit_pos as int),
        lzf_run(final(out)@, Seq::empty()) == Some(
            pre + old(out)@.subrange(lit_pos + 1, old(out)@.len() as int),
        ),
{
    out[lit_pos] = (lit - 1) as u8;
    proof {
        let patched = old(out)@.update(lit_pos as int, (lit - 1) as u8);
        let closed = old(out)@.take(lit_pos as int);
        let suf = old(out)@.subrange(lit_pos + 1, old(out)@.len() as int);
        let cmd = seq![(lit - 1) as u8] + suf;
        assert(patched =~= closed + cmd);
        assert(patched.take(lit_pos as int) =~= closed);
        lemma_lzf_run_append(closed, cmd, Seq::empty());
        assert(cmd[0] == (lit - 1) as u8);
        assert(cmd[0] < 32);
        assert(cmd.len() == 1 + lit);
        assert(cmd.subrange(1, 1 + lit as int) =~= suf);
        assert(cmd.skip(1 + lit as int) =~= Seq::<u8>::empty());
        reveal_with_fuel(lzf_run, 3);
        assert(lzf_run(cmd, pre) == Some(pre + suf));
    }
}

/// Compress `input` with the greedy single-pass LZF scheme.
///
/// The call always succeeds; an empty input gives an empty stream.  The
/// round-trip law stands in the contract: the emitted stream decodes, under
/// [`lzf_run`], to exactly the input — so [`decompress`] of the result with
/// `input.len()` returns the input.
#[verifier::rlimit(100)]
#[verifier::spinoff_prover]
pub fn compress(input: &[u8]) -> (r: Result<Vec<u8>, Error>)
    ensures
        r is Ok,
        r matches Ok(o) ==> lzf_run(o@, Seq::empty()) == Some(input@),
        r matches Ok(o) ==> (input@.len() == 0 ==> o@.len() == 0),
        r matches Ok(o) ==> o@.len() <= 2 * input@.len(),
        r matches Ok(o) ==> (input@.len() > 0 ==> o@.len() > 0 && o@[0] < 32),
{
    let n = input.len();
    if n == 0 {
        let o: Vec<u8> = Vec::new();
        proof {
            assert(o@ =~= Seq::<u8>::empty());
            assert(input@ =~= Seq::<u8>::empty());
        }
        return Ok(o);
    }
    let mut out: Vec<u8> = Vec::new();
    let mut htab: Vec<usize> = vec![0usize; HSIZE];
    let mut in_pos: usize = 0;
    let mut lit: usize = 0;
    let mut lit_pos: usize = 0;
    proof {
        assert(closed_part(out@, 0, 0) =~= Seq::<u8>::empty());
        assert(input@.take(0) =~= Seq::<u8>::empty());
    }
    while in_pos < n
        invariant
            in_pos <= n == input@.len(),
            htab@.len() == HSIZE,
            out@.len() <= 2 * in_pos,
            in_pos > 0 ==> out@.len() > 0,
            out@.len() > 0 ==> out@[0] < 32,
            lit <= 31,
            lit <= in_pos,
            lit > 0 ==> lit_pos + 1 + lit == out@.len(),
            lit > 0 ==> out@.subrange(lit_pos + 1, out@.len() as int) == input@.subrange(
                in_pos - lit,
                in_pos as int,
            ),
            lzf_run(closed_part(out@, lit as int, lit_pos as int), Seq::empty()) == Some(
                input@.take(in_pos - lit),
            ),
        decreases n - in_pos,
    {
        let mut matched = false;
        if n - in_pos >= 4 {
            let hval = hash3(input[in_pos], input[in_pos + 1], input[in_pos + 2]);
            let ref_pos = htab[hval];
            htab[hval] = in_pos;
            if ref_pos != 0 && in_pos > ref_pos && in_pos - ref_pos <= MAX_OFF && input[ref_pos]
                == input[in_pos] && input[ref_pos + 1] == input[in_pos + 1] && input[ref_pos + 2]
                == input[in_pos + 2] {
                // Extend the match as far as the wire format and the input allow.
                let max_len = if MAX_REF < n - in_pos {
                    MAX_REF
                } else {
                    n - in_pos
                };
                let mut match_len: usize = 3;
                while match_len < max_len && ref_pos + match_len < n && input[ref_pos + match_len]
                    == input[in_pos + match_len]
                    invariant
                        3 <= match_len <= max_len,
                        max_len <= n - in_pos,
                        max_len <= MAX_REF,
                        ref_pos < in_pos,
                        forall|q: int|
                            0 <= q < match_len ==> input@[ref_pos + q] == input@[
                                #[trigger] (in_pos + q)
                            ],
                    decreases max_len - match_len,
                {
                    match_len = match_len + 1;
                }
                // Complete any pending literal run.
                if lit > 0 {
                    flush_lit(&mut out, lit, lit_pos, Ghost(input@.take(in_pos - lit)));
                    proof {
                        assert(input@.take(in_pos - lit) + input@.subrange(
                            in_pos - lit,
                            in_pos as int,
                        ) =~= input@.take(in_pos as int));
                    }
                    lit = 0;
                }
                // Emit the back-reference.
                let ghost p = out@;
                let offset = in_pos - ref_pos - 1;
                let len_emit = match_len - 2;
                if len_emit < 7 {
                    out.push((len_emit * 32 + offset / 256) as u8);
                } else {
                    out.push((224 + offset / 256) as u8);
                    out.push((len_emit - 7) as u8);
                }
                out.push((offset % 256) as u8);
                proof {
                    let f = input@.take(in_pos as int);
                    let cmd = out@.skip(p.len() as int);
                    assert(out@ =~= p + cmd);
                    lemma_lzf_run_append(p, cmd, Seq::empty());
                    let c = cmd[0];
                    if len_emit < 7 {
                        assert(cmd =~= seq![
                            (len_emit * 32 + offset / 256) as u8,
                            (offset % 256) as u8,
                        ]);
                        assert(c as int / 32 == len_emit && c as int % 32 == offset / 256) by (nonlinear_arith)
                            requires
                                c == len_emit * 32 + offset / 256,
                                1 <= len_emit < 7,
                                0 <= offset / 256 < 32,
                        ;
                    } else {
                        assert(cmd =~= seq![
                            (224 + offset / 256) as u8,
                            (len_emit - 7) as u8,
                            (offset % 256) as u8,
                        ]);
                        assert(c as int / 32 == 7 && c as int % 32 == offset / 256) by (nonlinear_arith)
                            requires
                                c == 224 + offset / 256,
                                0 <= offset / 256 < 32,
                        ;
                    }
                    assert(offset == (offset / 256) * 256 + offset % 256);
                    assert((c as int % 32) * 256 + (offset % 256) + 1 == in_pos - ref_pos);
                    assert(f.len() == in_pos);
                    lemma_back_copy_match(input@, ref_pos as int, in_pos as int, match_len as int);
                    reveal_with_fuel(lzf_run, 3);
                    let hdr: int = if len_emit < 7 {
                        2
                    } else {
                        3
                    };
                    assert(cmd.len() == hdr);
                    assert(cmd[hdr - 1] == (offset % 256) as u8);
                    let dlen = (if c as int / 32 == 7 {
                        7 + cmd[1]
                    } else {
                        c as int / 32
                    }) + 2;
                    assert(dlen == match_len);
                    assert(cmd.skip(hdr) =~= Seq::<u8>::empty());
                    assert(lzf_run(cmd, f) == Some(
                        back_copy(f, in_pos - ref_pos, match_len as int),
                    ));
                    assert(lzf_run(cmd, f) == Some(input@.take(in_pos + match_len)));
                    assert(lzf_run(out@, Seq::empty()) == Some(input@.take(in_pos + match_len)));
                }
                in_pos = in_pos + match_len;
                matched = true;
            }
        }
        if !matched {
            // No match: extend the literal run with this byte.
            let ghost closed0 = closed_part(out@, lit as int, lit_pos as int);
            if lit == 0 {
                lit_pos = out.len();
                out.push(0);
                proof {
                    assert(out@.take(lit_pos as int) =~= closed0);
                }
            }
            out.push(input[in_pos]);
            lit = lit + 1;
            in_pos = in_pos + 1;
            proof {
                assert(out@.take(lit_pos as int) =~= closed0);
                assert(out@.subrange(lit_pos + 1, out@.len() as int) =~= input@.subrange(
                    in_pos - lit,
                    in_pos as int,
                ));
            }
            if lit == MAX_LIT {
                flush_lit(&mut out, MAX_LIT, lit_pos, Ghost(input@.take(in_pos - lit)));
                proof {
                    assert(input@.take(in_pos - lit) + input@.subrange(
                        in_pos - lit,
                        in_pos as int,
                    ) =~= input@.take(in_pos as int));
                }
                lit = 0;
            }
        }
    }
    if lit > 0 {
        flush_lit(&mut out, lit, lit_pos, Ghost(input@.take(in_pos - lit)));
        proof {
            assert(input@.take(in_pos - lit) + input@.subrange(in_pos - lit, in_pos as int)
                =~= input@.take(in_pos as int));
        }
    }
    proof {
        assert(input@.take(n as int) =~= input@);
    }
    Ok(out)
}

} // verus!

