//! Byte-level text helpers: splitting a line into whitespace-separated
//! tokens, and joining tokens with single spaces.

use vstd::prelude::*;

verus! {

/// ASCII whitespace, as `split_ascii_whitespace` sees it.
pub open spec fn is_ws(b: u8) -> bool {
    b == 32 || b == 9 || b == 10 || b == 13 || b == 11 || b == 12
}

/// One token: non-empty, no whitespace byte.
pub open spec fn is_token(t: Seq<u8>) -> bool {
    t.len() > 0 && forall|i: int| 0 <= i < t.len() ==> !is_ws(#[trigger] t[i])
}

/// The whitespace-separated tokens of `s[i..]`, given the token bytes `cur`
/// read so far and the tokens `acc` already complete.
pub open spec fn split_ws_acc(s: Seq<u8>, i: int, cur: Seq<u8>, acc: Seq<Seq<u8>>) -> Seq<
    Seq<u8>,
>
    decreases s.len() - i,
{
    if i < 0 || i >= s.len() {
        if cur.len() > 0 {
            acc.push(cur)
        } else {
            acc
        }
    } else if is_ws(s[i]) {
        if cur.len() > 0 {
            split_ws_acc(s, i + 1, Seq::empty(), acc.push(cur))
        } else {
            split_ws_acc(s, i + 1, Seq::empty(), acc)
        }
    } else {
        split_ws_acc(s, i + 1, cur.push(s[i]), acc)
    }
}

/// The whitespace-separated tokens of `s`.
pub open spec fn split_ws(s: Seq<u8>) -> Seq<Seq<u8>> {
    split_ws_acc(s, 0, Seq::empty(), Seq::empty())
}

/// The tokens joined by single spaces.
pub open spec fn join_sp(toks: Seq<Seq<u8>>) -> Seq<u8>
    decreases toks.len(),
{
    if toks.len() == 0 {
        Seq::empty()
    } else if toks.len() == 1 {
        toks[0]
    } else {
        join_sp(toks.drop_last()) + seq![32u8] + toks.last()
    }
}

/// Split `line` into its whitespace-separated tokens.
pub fn tokenize(line: &[u8]) -> (r: Vec<Vec<u8>>)
    ensures
        r@.map(|k: int, t: Vec<u8>| t@) == split_ws(line@),
{
    let n = line.len();
    let mut acc: Vec<Vec<u8>> = Vec::new();
    let mut cur: Vec<u8> = Vec::new();
    let mut i: usize = 0;
    proof {
        assert(acc@.map(|k: int, t: Vec<u8>| t@) =~= Seq::<Seq<u8>>::empty());
        assert(cur@ =~= Seq::<u8>::empty());
    }
    while i < n
        invariant
            i <= n == line@.len(),
            split_ws(line@) == split_ws_acc(
                line@,
                i as int,
                cur@,
                acc@.map(|k: int, t: Vec<u8>| t@),
            ),
        decreases n - i,
    {
        let b = line[i];
        let ghost accm = acc@.map(|k: int, t: Vec<u8>| t@);
        if b == 32 || b == 9 || b == 10 || b == 13 || b == 11 || b == 12 {
            proof {
                assert(is_ws(line@[i as int]));
            }
            if cur.len() > 0 {
                let done = cur;
                cur = Vec::new();
                proof {
                    assert(acc@.push(done).map(|k: int, t: Vec<u8>| t@) =~= accm.push(done@));
                    assert(split_ws_acc(line@, i as int, done@, accm) == split_ws_acc(
                        line@,
                        i + 1,
                        Seq::empty(),
                        accm.push(done@),
                    ));
                }
                acc.push(done);
            } else {
                proof {
                    assert(split_ws_acc(line@, i as int, cur@, accm) == split_ws_acc(
                        line@,
                        i + 1,
                        Seq::empty(),
                        accm,
                    ));
                }
            }
            proof {
                assert(cur@ =~= Seq::<u8>::empty());
            }
        } else {
            proof {
                assert(!is_ws(line@[i as int]));
                assert(split_ws_acc(line@, i as int, cur@, accm) == split_ws_acc(
                    line@,
                    i + 1,
                    cur@.push(b),
                    accm,
                ));
            }
            cur.push(b);
        }
        i = i + 1;
    }
    if cur.len() > 0 {
        proof {
            assert(acc@.push(cur).map(|k: int, t: Vec<u8>| t@) =~= acc@.map(
                |k: int, t: Vec<u8>| t@,
            ).push(cur@));
        }
        acc.push(cur);
    }
    acc
}

/// Joining one more token appends a space (except at the front) and the
/// token.
pub proof fn lemma_join_sp_push(toks: Seq<Seq<u8>>, t: Seq<u8>)
    ensures
        join_sp(toks.push(t)) == join_sp(toks) + (if toks.len() == 0 {
            t
        } else {
            seq![32u8] + t
        }),
{
    assert(toks.push(t).drop_last() =~= toks);
    assert(toks.push(t).last() == t);
    if toks.len() == 0 {
        assert(join_sp(toks.push(t)) == t);
        assert(join_sp(toks) + t =~= t);
    } else {
        assert(join_sp(toks) + (seq![32u8] + t) =~= join_sp(toks) + seq![32u8] + t);
    }
}

/// Append `tok` to `out`, preceded by a space unless it is the first token.
pub fn join_push(out: &mut Vec<u8>, tok: &[u8], first: bool)
    ensures
        final(out)@ == old(out)@ + (if first {
            tok@
        } else {
            seq![32u8] + tok@
        }),
{
    if !first {
        out.push(32);
    }
    let ghost mid = out@;
    let mut j: usize = 0;
    let m = tok.len();
    while j < m
        invariant
            j <= m == tok@.len(),
            out@ == mid + tok@.take(j as int),
        decreases m - j,
    {
        out.push(tok[j]);
        j = j + 1;
    }
    proof {
        assert(tok@.take(m as int) =~= tok@);
        if first {
            assert(out@ =~= old(out)@ + tok@);
        } else {
            assert(out@ =~= old(out)@ + (seq![32u8] + tok@));
        }
    }
}

} // verus!

verus! {

/// Scanning a token's bytes accumulates them into the current token.
pub proof fn lemma_split_acc_token(s: Seq<u8>, i: int, cur: Seq<u8>, acc: Seq<Seq<u8>>, t: Seq<u8>)
    requires
        0 <= i,
        i + t.len() <= s.len(),
        forall|j: int| 0 <= j < t.len() ==> s[i + j] == t[j] && !is_ws(#[trigger] t[j]),
    ensures
        split_ws_acc(s, i, cur, acc) == split_ws_acc(s, i + t.len(), cur + t, acc),
    decreases t.len(),
{
    if t.len() == 0 {
        assert(cur + t =~= cur);
    } else {
        assert(s[i] == t[0]);
        assert(!is_ws(s[i]));
        assert(split_ws_acc(s, i, cur, acc) == split_ws_acc(s, i + 1, cur.push(s[i]), acc));
        lemma_split_acc_token(s, i + 1, cur.push(t[0]), acc, t.drop_first());
        assert(forall|j: int|
            0 <= j < t.drop_first().len() ==> s[i + 1 + j] == t.drop_first()[j] && !is_ws(
                #[trigger] t.drop_first()[j],
            ));
        assert(cur.push(t[0]) + t.drop_first() =~= cur + t);
    }
}

/// Joining then splitting gives the tokens back, whatever came before.
proof fn lemma_split_ws_joined(s: Seq<u8>, i: int, acc: Seq<Seq<u8>>, toks: Seq<Seq<u8>>)
    requires
        0 <= i <= s.len(),
        s.skip(i) == join_sp(toks),
        forall|k: int| 0 <= k < toks.len() ==> is_token(#[trigger] toks[k]),
    ensures
        split_ws_acc(s, i, Seq::empty(), acc) == acc + toks,
    decreases toks.len(),
{
    if toks.len() == 0 {
        assert(s.skip(i).len() == 0);
        assert(i == s.len());
        assert(acc + toks =~= acc);
    } else if toks.len() == 1 {
        let t = toks[0];
        assert(s.skip(i) == t);
        assert forall|j: int| 0 <= j < t.len() implies s[i + j] == #[trigger] t[j] by {
            assert(s.skip(i)[j] == s[i + j]);
        }
        assert(Seq::<u8>::empty() + t =~= t);
        lemma_split_acc_token(s, i, Seq::empty(), acc, t);
        assert(i + t.len() == s.len());
        assert(split_ws_acc(s, i + t.len(), t, acc) == acc.push(t));
        assert(acc.push(t) =~= acc + toks);
    } else {
        let t = toks[0];
        lemma_join_sp_front(toks);
        assert(s.skip(i) == t + seq![32u8] + join_sp(toks.drop_first()));
        assert forall|j: int| 0 <= j < t.len() implies s[i + j] == #[trigger] t[j] by {
            assert(s.skip(i)[j] == s[i + j]);
            assert((t + seq![32u8] + join_sp(toks.drop_first()))[j] == t[j]);
        }
        assert(Seq::<u8>::empty() + t =~= t);
        lemma_split_acc_token(s, i, Seq::empty(), acc, t);
        assert(s[i + t.len()] == 32) by {
            assert(s.skip(i)[t.len() as int] == s[i + t.len()]);
            assert((t + seq![32u8] + join_sp(toks.drop_first()))[t.len() as int] == 32u8);
        }
        assert(split_ws_acc(s, i + t.len(), t, acc) == split_ws_acc(
            s,
            i + t.len() + 1,
            Seq::empty(),
            acc.push(t),
        ));
        assert(s.skip(i + t.len() + 1) =~= join_sp(toks.drop_first())) by {
            let tl = t.len() as int;
            let rest = join_sp(toks.drop_first());
            assert(s.skip(i).len() == tl + 1 + rest.len());
            assert forall|j: int| 0 <= j < rest.len() implies s.skip(i + tl + 1)[j] == rest[j] by {
                assert(s.skip(i + tl + 1)[j] == s[i + tl + 1 + j]);
                assert(s.skip(i)[tl + 1 + j] == s[i + tl + 1 + j]);
                assert((t + seq![32u8] + rest)[tl + 1 + j] == rest[j]);
            }
        }
        lemma_split_ws_joined(s, i + t.len() + 1, acc.push(t), toks.drop_first());
        assert(acc.push(t) + toks.drop_first() =~= acc + toks);
    }
}

/// The front decomposition of a joined token list.
proof fn lemma_join_sp_front(toks: Seq<Seq<u8>>)
    requires
        toks.len() >= 2,
    ensures
        join_sp(toks) == toks[0] + seq![32u8] + join_sp(toks.drop_first()),
    decreases toks.len(),
{
    if toks.len() == 2 {
        assert(toks.drop_last() =~= seq![toks[0]]);
        assert(toks.drop_first() =~= seq![toks[1]]);
        assert(join_sp(seq![toks[0]]) == toks[0]);
        assert(join_sp(seq![toks[1]]) == toks[1]);
    } else {
        let dl = toks.drop_last();
        lemma_join_sp_front(dl);
        assert(dl[0] == toks[0]);
        assert(join_sp(toks) == join_sp(dl) + seq![32u8] + toks.last());
        assert(toks.drop_first().drop_last() =~= dl.drop_first());
        assert(toks.drop_first().len() >= 2);
        assert(join_sp(toks.drop_first()) == join_sp(dl.drop_first()) + seq![32u8]
            + toks.last());
        assert(toks[0] + seq![32u8] + (join_sp(dl.drop_first()) + seq![32u8] + toks.last())
            =~= (toks[0] + seq![32u8] + join_sp(dl.drop_first())) + seq![32u8] + toks.last());
    }
}

/// No byte of a joined token list is a newline (or any whitespace other than
/// the single separating spaces).
proof fn lemma_join_sp_no_newline(toks: Seq<Seq<u8>>)
    requires
        forall|k: int| 0 <= k < toks.len() ==> is_token(#[trigger] toks[k]),
    ensures
        forall|j: int| 0 <= j < join_sp(toks).len() ==> #[trigger] join_sp(toks)[j] != 10,
    decreases toks.len(),
{
    if toks.len() == 0 {
    } else if toks.len() == 1 {
    } else {
        lemma_join_sp_no_newline(toks.drop_last());
        assert(forall|j: int|
            0 <= j < join_sp(toks).len() ==> #[trigger] join_sp(toks)[j] != 10) by {
            assert(forall|j: int|
                0 <= j < join_sp(toks.drop_last()).len() ==> #[trigger] join_sp(
                    toks.drop_last(),
                )[j] != 10);
            assert(join_sp(toks) == join_sp(toks.drop_last()) + seq![32u8] + toks.last());
        }
    }
}

/// A newline-terminated joined line is read back as exactly its tokens: the
/// newline is the line end, and splitting the line gives the tokens.
pub proof fn lemma_line_splits_back(s: Seq<u8>, p: int, toks: Seq<Seq<u8>>)
    requires
        0 <= p,
        p + join_sp(toks).len() + 1 <= s.len(),
        s.subrange(p, p + join_sp(toks).len() + 1) == join_sp(toks) + seq![10u8],
        forall|k: int| 0 <= k < toks.len() ==> is_token(#[trigger] toks[k]),
    ensures
        crate::record::line_end_of(s, p) == p + join_sp(toks).len(),
        split_ws(s.subrange(p, p + join_sp(toks).len())) == toks,
        crate::record::line_next_of(s, p) == p + join_sp(toks).len() + 1,
{
    let jl = join_sp(toks).len() as int;
    lemma_join_sp_no_newline(toks);
    assert forall|q: int| p <= q < p + jl implies s[q] != 10 by {
        assert(s.subrange(p, p + jl + 1)[q - p] == s[q]);
        assert((join_sp(toks) + seq![10u8])[q - p] == join_sp(toks)[q - p]);
    }
    assert(s[p + jl] == 10) by {
        assert(s.subrange(p, p + jl + 1)[jl] == s[p + jl]);
        assert((join_sp(toks) + seq![10u8])[jl] == 10u8);
    }
    lemma_line_end_at(s, p, p + jl);
    let line = s.subrange(p, p + jl);
    assert(line =~= join_sp(toks)) by {
        assert forall|q: int| 0 <= q < jl implies line[q] == join_sp(toks)[q] by {
            assert(line[q] == s[p + q]);
            assert(s.subrange(p, p + jl + 1)[q] == s[p + q]);
            assert((join_sp(toks) + seq![10u8])[q] == join_sp(toks)[q]);
        }
    }
    assert(line.skip(0) =~= join_sp(toks));
    lemma_split_ws_joined(line, 0, Seq::empty(), toks);
    assert(Seq::<Seq<u8>>::empty() + toks =~= toks);
}

/// `line_end_of` finds the first newline.
proof fn lemma_line_end_at(s: Seq<u8>, p: int, e: int)
    requires
        0 <= p <= e < s.len(),
        forall|q: int| p <= q < e ==> s[q] != 10,
        s[e] == 10,
    ensures
        crate::record::line_end_of(s, p) == e,
    decreases e - p,
{
    if p < e {
        lemma_line_end_at(s, p + 1, e);
    }
}

} // verus!

verus! {

/// Trailing whitespace after a pending token closes it and adds nothing.
pub proof fn lemma_split_ws_trailing(s: Seq<u8>, i: int, cur: Seq<u8>, acc: Seq<Seq<u8>>)
    requires
        0 <= i <= s.len(),
        forall|j: int| i <= j < s.len() ==> is_ws(#[trigger] s[j]),
        cur.len() > 0,
    ensures
        split_ws_acc(s, i, cur, acc) == acc.push(cur),
    decreases s.len() - i,
{
    if i < s.len() {
        lemma_split_ws_all_ws(s, i + 1, acc.push(cur));
    }
}

/// Whitespace to the end of the input adds no token.
pub proof fn lemma_split_ws_all_ws(s: Seq<u8>, i: int, acc: Seq<Seq<u8>>)
    requires
        0 <= i <= s.len(),
        forall|j: int| i <= j < s.len() ==> is_ws(#[trigger] s[j]),
    ensures
        split_ws_acc(s, i, Seq::empty(), acc) == acc,
    decreases s.len() - i,
{
    if i < s.len() {
        lemma_split_ws_all_ws(s, i + 1, acc);
    }
}

} // verus!
