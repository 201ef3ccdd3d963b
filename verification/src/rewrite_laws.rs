//! The round trip of font renaming: rewriting a content stream with a rename
//! map and then with the inverse map gives the stream back.
//!
//! The proof follows the tokenizer through the rewritten stream: every gap
//! and every token that is not renamed is copied byte for byte, and a renamed
//! font operand is again a name of regular bytes, so the rewritten stream
//! splits into the same tokens, shifted.

use vstd::prelude::*;
use vstd::utf8::{encode_utf8, encode_utf8_decode_utf8};
use crate::collections::{lookup_utf8, NameMap};
use crate::content_stream::{
    comment_end, font_target, gap_start, hex_end, is_pdf_ws, is_regular_byte, is_tf,
    lemma_comment_end, lemma_hex_end, lemma_literal_end, lemma_regular_end, lemma_token_step,
    lemma_tokens_ordered, literal_end, regular_end, rewrite_prefix, rewrite_spec,
    rewritten_piece, token_bytes, token_step, tokens, tokens_from, tokens_in_bounds, SpecToken,
    TokenKind,
};

verus! {

/// `d` holds the bytes `c[lo..hi]` at offset `o`, and what follows them
/// agrees too: the same byte at `hi`, or the end of both.
pub open spec fn agree(c: Seq<u8>, d: Seq<u8>, lo: int, hi: int, o: int) -> bool {
    &&& 0 <= lo <= hi <= c.len()
    &&& 0 <= lo + o
    &&& hi + o <= d.len()
    &&& forall|q: int| lo <= q < hi ==> d[q + o] == #[trigger] c[q]
    &&& (hi == c.len() ==> hi + o == d.len())
    &&& (hi < c.len() ==> hi + o < d.len() && d[hi + o] == c[hi])
}

proof fn lemma_regular_end_stop(c: Seq<u8>, p: int)
    requires
        0 <= p <= c.len(),
    ensures
        regular_end(c, p) < c.len() ==> !is_regular_byte(c[regular_end(c, p)]),
    decreases c.len() - p,
{
    if p < c.len() && is_regular_byte(c[p]) {
        lemma_regular_end_stop(c, p + 1);
    }
}

proof fn lemma_regular_end_shift(c: Seq<u8>, d: Seq<u8>, lo: int, hi: int, o: int, p: int)
    requires
        agree(c, d, lo, hi, o),
        lo <= p <= regular_end(c, p) <= hi,
    ensures
        regular_end(d, p + o) == regular_end(c, p) + o,
    decreases c.len() - p,
{
    if 0 <= p < c.len() && is_regular_byte(c[p]) {
        lemma_regular_end(c, p + 1);
        assert(d[p + o] == c[p]);
        lemma_regular_end_shift(c, d, lo, hi, o, p + 1);
    } else if p < hi {
        assert(d[p + o] == c[p]);
    }
}

proof fn lemma_comment_end_shift(c: Seq<u8>, d: Seq<u8>, lo: int, hi: int, o: int, p: int)
    requires
        agree(c, d, lo, hi, o),
        lo <= p <= comment_end(c, p) <= hi,
    ensures
        comment_end(d, p + o) == comment_end(c, p) + o,
    decreases c.len() - p,
{
    if 0 <= p < c.len() && c[p] != 10 && c[p] != 13 {
        lemma_comment_end(c, p + 1);
        assert(d[p + o] == c[p]);
        lemma_comment_end_shift(c, d, lo, hi, o, p + 1);
    } else if p < hi {
        assert(d[p + o] == c[p]);
    }
}

proof fn lemma_hex_end_shift(c: Seq<u8>, d: Seq<u8>, lo: int, hi: int, o: int, p: int)
    requires
        agree(c, d, lo, hi, o),
        lo <= p <= hex_end(c, p) <= hi,
    ensures
        hex_end(d, p + o) == hex_end(c, p) + o,
    decreases c.len() - p,
{
    if 0 <= p < c.len() && c[p] != 62 {
        lemma_hex_end(c, p + 1);
        assert(d[p + o] == c[p]);
        lemma_hex_end_shift(c, d, lo, hi, o, p + 1);
    } else if p < hi {
        assert(d[p + o] == c[p]);
    }
}

proof fn lemma_literal_end_shift(
    c: Seq<u8>,
    d: Seq<u8>,
    lo: int,
    hi: int,
    o: int,
    p: int,
    depth: int,
)
    requires
        agree(c, d, lo, hi, o),
        lo <= p <= literal_end(c, p, depth) <= hi,
    ensures
        literal_end(d, p + o, depth) == literal_end(c, p, depth) + o,
    decreases c.len() + 1 - p,
{
    if 0 <= p < c.len() && depth > 0 {
        assert(d[p + o] == c[p]);
        if c[p] == 92 {
            if p + 2 > c.len() {
                assert(literal_end(c, p + 2, depth) == p + 2);
            }
            lemma_literal_end(c, p + 2, depth);
            lemma_literal_end_shift(c, d, lo, hi, o, p + 2, depth);
        } else if c[p] == 40 {
            lemma_literal_end(c, p + 1, depth + 1);
            lemma_literal_end_shift(c, d, lo, hi, o, p + 1, depth + 1);
        } else if c[p] == 41 {
            lemma_literal_end(c, p + 1, depth - 1);
            lemma_literal_end_shift(c, d, lo, hi, o, p + 1, depth - 1);
        } else {
            lemma_literal_end(c, p + 1, depth);
            lemma_literal_end_shift(c, d, lo, hi, o, p + 1, depth);
        }
    }
}

/// A token shifted by `o`.
pub open spec fn shift_token(t: Option<SpecToken>, o: int) -> Option<SpecToken> {
    match t {
        Some(t) => Some((t.0 + o, t.1 + o, t.2)),
        None => None,
    }
}

/// The tokenizer reads the same step from the same bytes: what it reads at
/// `i` in `c` it reads at `i + o` in `d`, shifted, when `d` holds the bytes of
/// the step and agrees on the byte after it.
proof fn lemma_step_shift(c: Seq<u8>, d: Seq<u8>, i: int, o: int)
    requires
        0 <= i < c.len(),
        token_step(c, i).1 <= c.len(),
        agree(c, d, i, token_step(c, i).1, o),
    ensures
        token_step(d, i + o) == (shift_token(token_step(c, i).0, o), token_step(c, i).1 + o),
{
    lemma_token_step(c, i);
    let e = token_step(c, i).1;
    let b = c[i];
    assert(d[i + o] == c[i]);
    if is_pdf_ws(b) {
    } else if b == 37 {
        lemma_comment_end(c, i);
        lemma_comment_end_shift(c, d, i, e, o, i);
    } else if b == 40 {
        lemma_literal_end(c, i + 1, 1);
        lemma_literal_end_shift(c, d, i, e, o, i + 1, 1);
    } else if b == 60 {
        if i + 1 < c.len() && c[i + 1] == 60 {
            assert(d[i + 1 + o] == c[i + 1]);
        } else {
            lemma_hex_end(c, i + 1);
            let h = hex_end(c, i + 1);
            if i + 1 < e {
                assert(d[i + 1 + o] == c[i + 1]);
            }
            lemma_hex_end_shift(c, d, i, e, o, i + 1);
        }
    } else if b == 62 {
        if i + 1 < e {
            assert(d[i + 1 + o] == c[i + 1]);
        }
    } else if b == 91 || b == 93 || b == 123 || b == 125 || b == 41 {
    } else if b == 47 {
        lemma_regular_end(c, i + 1);
        lemma_regular_end_shift(c, d, i, e, o, i + 1);
    } else {
        lemma_regular_end(c, i);
        lemma_regular_end_shift(c, d, i, e, o, i);
        assert(d.subrange(i + o, e + o) =~= c.subrange(i, e));
    }
}

/// The UTF-8 encoding of `v` is a non-empty run of regular bytes: `/` and
/// it form a whole name token.
pub open spec fn regular_name(v: Seq<char>) -> bool {
    &&& encode_utf8(v).len() > 0
    &&& forall|r: int| 0 <= r < encode_utf8(v).len() ==> is_regular_byte(#[trigger] encode_utf8(v)[r])
}

/// What the rewrite needs of `c` and `m`: every token of `c` ends within it,
/// `m` is finite and not empty, and every new name is a regular name.
pub open spec fn rewrite_setup(c: Seq<u8>, m: Map<Seq<char>, Seq<char>>) -> bool {
    &&& tokens_in_bounds(c)
    &&& m.dom().finite()
    &&& m.dom().len() > 0
    &&& forall|k: Seq<char>| #[trigger] m.contains_key(k) ==> regular_name(m[k])
}

/// The tokens `t` of `c` lie in order within `c`, and a name starts with `/`.
pub open spec fn tokens_ok(c: Seq<u8>, t: Seq<SpecToken>) -> bool {
    &&& forall|k: int| 0 <= k < t.len() ==> 0 <= #[trigger] t[k].0 < t[k].1 <= c.len()
    &&& forall|k: int| 0 <= k < t.len() - 1 ==> #[trigger] t[k].1 <= t[k + 1].0
    &&& forall|k: int|
        0 <= k < t.len() ==> (#[trigger] t[k].2 == TokenKind::Name ==> t[k].0 + 1 <= t[k].1
            && c[t[k].0] == 47)
}

proof fn lemma_tokens_ok(c: Seq<u8>)
    requires
        tokens_in_bounds(c),
    ensures
        tokens_ok(c, tokens(c)),
{
    lemma_tokens_ordered(c, 0);
}

/// How far the rewritten stream has moved from `c` at the gap before token
/// `k`.
pub open spec fn offset(c: Seq<u8>, t: Seq<SpecToken>, m: Map<Seq<char>, Seq<char>>, k: nat) -> int {
    rewrite_prefix(c, t, m, k).len() - gap_start(t, k as int)
}

/// Token `j` of `c` as it stands in the rewritten stream.
pub open spec fn new_token(c: Seq<u8>, t: Seq<SpecToken>, m: Map<Seq<char>, Seq<char>>, j: int) -> SpecToken {
    let s = t[j].0 + offset(c, t, m, j as nat);
    (s, s + rewritten_piece(c, t, m, j).len(), t[j].2)
}

/// The tokens of `c` as they stand in the rewritten stream.
pub open spec fn new_tokens(c: Seq<u8>, t: Seq<SpecToken>, m: Map<Seq<char>, Seq<char>>) -> Seq<SpecToken> {
    Seq::new(t.len(), |j: int| new_token(c, t, m, j))
}

/// The piece written for token `k`: its own bytes, or `/` and a regular
/// name; either way it starts with the token's first byte.
proof fn lemma_piece(c: Seq<u8>, m: Map<Seq<char>, Seq<char>>, k: int)
    requires
        rewrite_setup(c, m),
        tokens_ok(c, tokens(c)),
        0 <= k < tokens(c).len(),
    ensures
        ({
            let t = tokens(c);
            let p = rewritten_piece(c, t, m, k);
            &&& p.len() >= 1
            &&& p[0] == c[t[k].0]
            &&& font_target(c, t, m, k) is None ==> p == c.subrange(t[k].0, t[k].1)
            &&& font_target(c, t, m, k) matches Some(v) ==> {
                &&& p == seq![47u8] + encode_utf8(v)
                &&& t[k].2 == TokenKind::Name
                &&& forall|r: int| 1 <= r < p.len() ==> is_regular_byte(#[trigger] p[r])
            }
        }),
{
    let t = tokens(c);
    match font_target(c, t, m, k) {
        Some(v) => {
            let name = c.subrange(t[k].0 + 1, t[k].1);
            let q = choose|q: Seq<char>| m.contains_key(q) && encode_utf8(q) == name;
            assert(m.contains_key(q));
            assert(regular_name(m[q]));
            let p = rewritten_piece(c, t, m, k);
            assert forall|r: int| 1 <= r < p.len() implies is_regular_byte(#[trigger] p[r]) by {
                assert(p[r] == encode_utf8(v)[r - 1]);
            }
        },
        None => {},
    }
}

/// Each step of the rewrite moves the offset by how much longer the piece is
/// than the token.
proof fn lemma_offset_step(c: Seq<u8>, m: Map<Seq<char>, Seq<char>>, k: int)
    requires
        tokens_ok(c, tokens(c)),
        0 <= k < tokens(c).len(),
    ensures
        ({
            let t = tokens(c);
            &&& gap_start(t, k) <= t[k].0
            &&& offset(c, t, m, (k + 1) as nat) == offset(c, t, m, k as nat) + rewritten_piece(
                c,
                t,
                m,
                k,
            ).len() - (t[k].1 - t[k].0)
        }),
{
    let t = tokens(c);
    if k > 0 {
        assert(t[k - 1].1 <= t[k].0);
    }
    assert(rewrite_prefix(c, t, m, (k + 1) as nat) == rewrite_prefix(c, t, m, k as nat) + c.subrange(
        gap_start(t, k),
        t[k].0,
    ) + rewritten_piece(c, t, m, k));
}

/// The output for fewer tokens is a prefix of the output for more.
proof fn lemma_prefix_grows(c: Seq<u8>, m: Map<Seq<char>, Seq<char>>, k: nat, j: nat)
    requires
        tokens_ok(c, tokens(c)),
        k <= j <= tokens(c).len(),
    ensures
        ({
            let t = tokens(c);
            &&& rewrite_prefix(c, t, m, k).len() <= rewrite_prefix(c, t, m, j).len()
            &&& forall|x: int|
                0 <= x < rewrite_prefix(c, t, m, k).len() ==> #[trigger] rewrite_prefix(c, t, m, j)[x]
                    == rewrite_prefix(c, t, m, k)[x]
        }),
    decreases j,
{
    let t = tokens(c);
    if k < j {
        lemma_prefix_grows(c, m, k, (j - 1) as nat);
        lemma_offset_step(c, m, j - 1);
        let a = rewrite_prefix(c, t, m, (j - 1) as nat);
        let b = rewrite_prefix(c, t, m, j);
        assert(b == a + c.subrange(gap_start(t, j - 1), t[j - 1].0) + rewritten_piece(c, t, m, j - 1));
        assert forall|x: int| 0 <= x < rewrite_prefix(c, t, m, k).len() implies #[trigger] b[x]
            == rewrite_prefix(c, t, m, k)[x] by {
            assert(b[x] == a[x]);
        }
    }
}

/// The rewritten stream holds the output for the first `k` tokens first, and
/// is the output for all of them followed by the rest of `c`.
proof fn lemma_stream_prefix(c: Seq<u8>, m: Map<Seq<char>, Seq<char>>, k: nat)
    requires
        rewrite_setup(c, m),
        tokens_ok(c, tokens(c)),
        k <= tokens(c).len(),
    ensures
        ({
            let t = tokens(c);
            let d = rewrite_spec(c, m);
            let n = t.len();
            &&& gap_start(t, n as int) <= c.len()
            &&& d == rewrite_prefix(c, t, m, n) + c.subrange(gap_start(t, n as int), c.len() as int)
            &&& rewrite_prefix(c, t, m, k).len() <= d.len()
            &&& forall|x: int|
                0 <= x < rewrite_prefix(c, t, m, k).len() ==> #[trigger] d[x] == rewrite_prefix(
                    c,
                    t,
                    m,
                    k,
                )[x]
        }),
{
    let t = tokens(c);
    let n = t.len();
    if n > 0 {
        assert(t[n - 1].1 <= c.len());
    }
    lemma_prefix_grows(c, m, k, n);
    let d = rewrite_spec(c, m);
    let rn = rewrite_prefix(c, t, m, n);
    assert forall|x: int| 0 <= x < rewrite_prefix(c, t, m, k).len() implies #[trigger] d[x]
        == rewrite_prefix(c, t, m, k)[x] by {
        assert(d[x] == rn[x]);
    }
}

/// At the gap before token `k` (or the tail, for `k` the number of tokens)
/// the rewritten stream holds the bytes of `c` at the offset, up to and
/// including the first byte of the token; the end of `c` is the end of the
/// rewritten stream.
proof fn lemma_gap_byte(c: Seq<u8>, m: Map<Seq<char>, Seq<char>>, k: nat, q: int)
    requires
        rewrite_setup(c, m),
        tokens_ok(c, tokens(c)),
        k <= tokens(c).len(),
        gap_start(tokens(c), k as int) <= q,
        k < tokens(c).len() ==> q <= tokens(c)[k as int].0,
        k == tokens(c).len() ==> q <= c.len(),
    ensures
        ({
            let t = tokens(c);
            let d = rewrite_spec(c, m);
            let o = offset(c, t, m, k);
            &&& 0 <= q + o <= d.len()
            &&& q < c.len() ==> q + o < d.len() && d[q + o] == c[q]
            &&& q == c.len() ==> q + o == d.len()
        }),
{
    let t = tokens(c);
    let d = rewrite_spec(c, m);
    let n = t.len();
    let o = offset(c, t, m, k);
    if k < n {
        let ki = k as int;
        lemma_offset_step(c, m, ki);
        lemma_piece(c, m, ki);
        lemma_stream_prefix(c, m, k + 1);
        let a = rewrite_prefix(c, t, m, k);
        let g = c.subrange(gap_start(t, ki), t[ki].0);
        let p = rewritten_piece(c, t, m, ki);
        let b = rewrite_prefix(c, t, m, k + 1);
        assert(b == a + g + p);
        let x = q + o;
        assert(x == a.len() + (q - gap_start(t, ki)));
        assert(d[x] == b[x]);
        if q < t[ki].0 {
            assert(b[x] == g[q - gap_start(t, ki)]);
        } else {
            assert(b[x] == p[0]);
        }
    } else {
        lemma_stream_prefix(c, m, k);
    }
}

/// The piece of token `k` stands in the rewritten stream where the token
/// moved to.
proof fn lemma_piece_bytes(c: Seq<u8>, m: Map<Seq<char>, Seq<char>>, k: int)
    requires
        rewrite_setup(c, m),
        tokens_ok(c, tokens(c)),
        0 <= k < tokens(c).len(),
    ensures
        ({
            let t = tokens(c);
            let d = rewrite_spec(c, m);
            let nt = new_token(c, t, m, k);
            &&& 0 <= nt.0 < nt.1 <= d.len()
            &&& token_bytes(d, nt) == rewritten_piece(c, t, m, k)
        }),
{
    let t = tokens(c);
    let d = rewrite_spec(c, m);
    lemma_offset_step(c, m, k);
    lemma_piece(c, m, k);
    lemma_stream_prefix(c, m, (k + 1) as nat);
    let a = rewrite_prefix(c, t, m, k as nat);
    let g = c.subrange(gap_start(t, k), t[k].0);
    let p = rewritten_piece(c, t, m, k);
    let b = rewrite_prefix(c, t, m, (k + 1) as nat);
    assert(b == a + g + p);
    let nt = new_token(c, t, m, k);
    assert(nt.0 == a.len() + g.len());
    assert forall|r: int| 0 <= r < p.len() implies token_bytes(d, nt)[r] == p[r] by {
        assert(d[nt.0 + r] == b[a.len() + g.len() + r]);
    }
    assert(token_bytes(d, nt) =~= p);
}

/// A run of regular bytes from `lo` up to a non-regular byte or the end at
/// `hi` is scanned whole.
proof fn lemma_regular_run(d: Seq<u8>, lo: int, hi: int)
    requires
        0 <= lo <= hi <= d.len(),
        forall|x: int| lo <= x < hi ==> is_regular_byte(#[trigger] d[x]),
        hi < d.len() ==> !is_regular_byte(d[hi]),
    ensures
        regular_end(d, lo) == hi,
    decreases hi - lo,
{
    if lo < hi {
        assert(is_regular_byte(d[lo]));
        lemma_regular_run(d, lo + 1, hi);
    }
}

/// The tokenizer finds in the rewritten stream the tokens of `c`, moved:
/// from the gap before token `k`, it reads the moved tokens `k` onward.
proof fn lemma_tokens_sim(c: Seq<u8>, m: Map<Seq<char>, Seq<char>>, k: nat, i: int)
    requires
        rewrite_setup(c, m),
        tokens_ok(c, tokens(c)),
        k <= tokens(c).len(),
        tokens_from(c, i) == tokens(c).subrange(k as int, tokens(c).len() as int),
        gap_start(tokens(c), k as int) <= i <= c.len(),
        k < tokens(c).len() ==> i <= tokens(c)[k as int].0,
    ensures
        tokens_from(rewrite_spec(c, m), i + offset(c, tokens(c), m, k)) == new_tokens(
            c,
            tokens(c),
            m,
        ).subrange(k as int, tokens(c).len() as int),
    decreases c.len() + 1 - i,
{
    let t = tokens(c);
    let n = t.len();
    let d = rewrite_spec(c, m);
    let o = offset(c, t, m, k);
    let nts = new_tokens(c, t, m);
    let ki = k as int;
    lemma_gap_byte(c, m, k, i);
    if i >= c.len() {
        assert(tokens_from(c, i) == Seq::<SpecToken>::empty());
        assert(t.subrange(ki, n as int).len() == 0);
        assert(tokens_from(d, i + o) == Seq::<SpecToken>::empty());
        assert(nts.subrange(ki, n as int) =~= Seq::<SpecToken>::empty());
    } else {
        lemma_token_step(c, i);
        let st = token_step(c, i);
        let e = st.1;
        match st.0 {
            None => {
                assert(tokens_from(c, i) == tokens_from(c, e));
                assert(e <= c.len());
                lemma_tokens_ordered(c, e);
                if k < n {
                    assert(tokens_from(c, e)[0] == t[ki]);
                }
                assert forall|q: int| i <= q < e implies d[q + o] == #[trigger] c[q] by {
                    lemma_gap_byte(c, m, k, q);
                }
                lemma_gap_byte(c, m, k, e);
                lemma_step_shift(c, d, i, o);
                assert(tokens_from(d, i + o) == tokens_from(d, e + o));
                lemma_tokens_sim(c, m, k, e);
            },
            Some(tk) => {
                assert(tokens_from(c, i) == seq![tk] + tokens_from(c, e));
                let rest = t.subrange(ki, n as int);
                assert(rest.len() > 0) by {
                    assert((seq![tk] + tokens_from(c, e)).len() > 0);
                }
                assert(rest[0] == tk);
                assert(t[ki] == tk);
                assert(tokens_from(c, e) =~= t.subrange(ki + 1, n as int)) by {
                    assert forall|j: int| 0 <= j < tokens_from(c, e).len() implies tokens_from(c, e)[j]
                        == t.subrange(ki + 1, n as int)[j] by {
                        assert((seq![tk] + tokens_from(c, e))[j + 1] == tokens_from(c, e)[j]);
                        assert(rest[j + 1] == t[ki + 1 + j]);
                    }
                }
                lemma_offset_step(c, m, ki);
                lemma_piece(c, m, ki);
                lemma_piece_bytes(c, m, ki);
                let p = rewritten_piece(c, t, m, ki);
                let o2 = offset(c, t, m, k + 1);
                let nt = new_token(c, t, m, ki);
                if k + 1 < n {
                    assert(t[ki].1 <= t[ki + 1].0);
                }
                lemma_gap_byte(c, m, k + 1, e);
                match font_target(c, t, m, ki) {
                    Some(v) => {
                        assert(d[i + o] == 47) by {
                            assert(token_bytes(d, nt)[0] == p[0]);
                        }
                        assert forall|x: int| i + o + 1 <= x < i + o + p.len() implies is_regular_byte(
                            #[trigger] d[x],
                        ) by {
                            assert(d[x] == token_bytes(d, nt)[x - (i + o)]);
                            assert(is_regular_byte(p[x - (i + o)]));
                        }
                        if e < c.len() {
                            lemma_regular_end_stop(c, i + 1);
                        }
                        lemma_regular_run(d, i + o + 1, i + o + p.len());
                        assert(token_step(d, i + o) == (Some(nt), i + o + p.len()));
                    },
                    None => {
                        assert forall|q: int| i <= q < e implies d[q + o] == #[trigger] c[q] by {
                            assert(d[q + o] == token_bytes(d, nt)[q - i]);
                            assert(p[q - i] == c[q]);
                        }
                        lemma_step_shift(c, d, i, o);
                    },
                }
                assert(tokens_from(d, i + o) == seq![nt] + tokens_from(d, e + o2));
                lemma_tokens_sim(c, m, k + 1, e);
                assert(nts.subrange(ki, n as int) =~= seq![nt] + nts.subrange(ki + 1, n as int));
            },
        }
    }
}

/// The tokens of the rewritten stream are the tokens of `c`, moved.
proof fn lemma_rewritten_tokens(c: Seq<u8>, m: Map<Seq<char>, Seq<char>>)
    requires
        rewrite_setup(c, m),
    ensures
        tokens(rewrite_spec(c, m)) == new_tokens(c, tokens(c), m),
        tokens_ok(c, tokens(c)),
{
    lemma_tokens_ok(c);
    let t = tokens(c);
    assert(t.subrange(0, t.len() as int) =~= t);
    lemma_tokens_sim(c, m, 0, 0);
    assert(new_tokens(c, t, m).subrange(0, t.len() as int) =~= new_tokens(c, t, m));
}

/// `m` read backwards: each new name to the key that `m` renames to it.
pub open spec fn inverse_map(m: Map<Seq<char>, Seq<char>>) -> Map<Seq<char>, Seq<char>> {
    Map::new(
        |v: Seq<char>| m.values().contains(v),
        |v: Seq<char>| choose|k: Seq<char>| m.contains_key(k) && m[k] == v,
    )
}

/// No two keys of `m` get the same new name.
pub open spec fn injective_names(m: Map<Seq<char>, Seq<char>>) -> bool {
    forall|k1: Seq<char>, k2: Seq<char>|
        #[trigger] m.contains_key(k1) && #[trigger] m.contains_key(k2) && k1 != k2 ==> m[k1] != m[k2]
}

/// Token `k` is the font operand of a `Tf` operator: a name, then a number,
/// then the keyword `Tf`.
pub open spec fn tf_operand(c: Seq<u8>, t: Seq<SpecToken>, k: int) -> bool {
    t[k].2 == TokenKind::Name && k + 2 < t.len() && t[k + 1].2 == TokenKind::Number && is_tf(
        c,
        t[k + 2],
    )
}

/// The name of token `k`: its bytes after the `/`.
pub open spec fn operand_name(c: Seq<u8>, t: Seq<SpecToken>, k: int) -> Seq<u8> {
    c.subrange(t[k].0 + 1, t[k].1)
}

/// Where the gap before token `k` starts in the rewritten stream.
proof fn lemma_new_gap_start(c: Seq<u8>, m: Map<Seq<char>, Seq<char>>, k: int)
    requires
        rewrite_setup(c, m),
        tokens_ok(c, tokens(c)),
        0 <= k <= tokens(c).len(),
    ensures
        gap_start(new_tokens(c, tokens(c), m), k) == gap_start(tokens(c), k) + offset(
            c,
            tokens(c),
            m,
            k as nat,
        ),
{
    if k > 0 {
        lemma_offset_step(c, m, k - 1);
    }
}

/// Rewriting the rewritten stream with the inverse map gives each token of
/// `c` back: a renamed operand's new name leads back to its key, whose
/// encoding is the operand's name; an operand the map leaves alone the
/// inverse leaves alone too; every other token is copied.
proof fn lemma_piece_back(c: Seq<u8>, m: Map<Seq<char>, Seq<char>>, j: int)
    requires
        rewrite_setup(c, m),
        injective_names(m),
        forall|q: int|
            0 <= q < tokens(c).len() && #[trigger] tf_operand(c, tokens(c), q) && lookup_utf8(
                inverse_map(m),
                operand_name(c, tokens(c), q),
            ) is Some ==> lookup_utf8(m, operand_name(c, tokens(c), q)) is Some,
        0 <= j < tokens(c).len(),
    ensures
        rewritten_piece(rewrite_spec(c, m), tokens(rewrite_spec(c, m)), inverse_map(m), j)
            == token_bytes(c, tokens(c)[j]),
{
    lemma_rewritten_tokens(c, m);
    let t = tokens(c);
    let n = t.len();
    let d = rewrite_spec(c, m);
    let t2 = tokens(d);
    let inv = inverse_map(m);
    assert(t2 == new_tokens(c, t, m));
    lemma_piece(c, m, j);
    lemma_piece_bytes(c, m, j);
    let p = rewritten_piece(c, t, m, j);
    assert(t2[j] == new_token(c, t, m, j));
    assert(token_bytes(d, t2[j]) == p);
    if j + 2 < n {
        lemma_piece(c, m, j + 2);
        lemma_piece_bytes(c, m, j + 2);
        assert(t2[j + 2] == new_token(c, t, m, j + 2));
        assert(is_tf(d, t2[j + 2]) == is_tf(c, t[j + 2]));
        assert(t2[j + 1] == new_token(c, t, m, j + 1));
    }
    assert(tf_operand(d, t2, j) == tf_operand(c, t, j));
    let name_c = operand_name(c, t, j);
    let name_d = operand_name(d, t2, j);
    assert(name_d =~= p.subrange(1, p.len() as int));
    if tf_operand(c, t, j) {
        match font_target(c, t, m, j) {
            Some(v) => {
                let kc = choose|q: Seq<char>| m.contains_key(q) && encode_utf8(q) == name_c;
                assert(m.contains_key(kc) && encode_utf8(kc) == name_c);
                assert(v == m[kc]);
                assert(name_d =~= encode_utf8(v));
                assert(m.values().contains(v));
                assert(inv.contains_key(v));
                let q2 = choose|q: Seq<char>| inv.contains_key(q) && encode_utf8(q) == name_d;
                assert(inv.contains_key(q2) && encode_utf8(q2) == name_d);
                encode_utf8_decode_utf8(q2);
                encode_utf8_decode_utf8(v);
                assert(q2 == v);
                let kb = choose|k: Seq<char>| m.contains_key(k) && m[k] == v;
                assert(m.contains_key(kb) && m[kb] == v);
                assert(kb == kc);
                assert(inv[v] == kb);
                assert(lookup_utf8(inv, name_d) == Some(kc));
                assert(c[t[j].0] == 47);
                assert(token_bytes(c, t[j]) =~= seq![47u8] + name_c);
            },
            None => {
                assert(lookup_utf8(m, name_c) is None);
                assert(name_d == name_c) by {
                    assert(name_d =~= name_c);
                }
                assert(lookup_utf8(inv, name_c) is None);
            },
        }
    }
}

/// The gap before token `j` stands unchanged in the rewritten stream.
proof fn lemma_gap_copied(c: Seq<u8>, m: Map<Seq<char>, Seq<char>>, j: int)
    requires
        rewrite_setup(c, m),
        0 <= j < tokens(c).len(),
    ensures
        ({
            let t = tokens(c);
            let d = rewrite_spec(c, m);
            let t2 = tokens(d);
            d.subrange(gap_start(t2, j), t2[j].0) == c.subrange(gap_start(t, j), t[j].0)
        }),
{
    lemma_rewritten_tokens(c, m);
    let t = tokens(c);
    let d = rewrite_spec(c, m);
    let t2 = tokens(d);
    lemma_new_gap_start(c, m, j);
    lemma_offset_step(c, m, j);
    let g = gap_start(t, j);
    let o = offset(c, t, m, j as nat);
    assert(t2[j] == new_token(c, t, m, j));
    assert forall|q: int| g <= q < t[j].0 implies d[q + o] == c[q] by {
        lemma_gap_byte(c, m, j as nat, q);
    }
    lemma_gap_byte(c, m, j as nat, t[j].0);
    assert(d.subrange(gap_start(t2, j), t2[j].0) =~= c.subrange(g, t[j].0));
}

/// The output of the inverse rewrite for the first `k` tokens is `c` up to
/// the gap before token `k`.
proof fn lemma_round_prefix(c: Seq<u8>, m: Map<Seq<char>, Seq<char>>, k: nat)
    requires
        rewrite_setup(c, m),
        injective_names(m),
        forall|q: int|
            0 <= q < tokens(c).len() && #[trigger] tf_operand(c, tokens(c), q) && lookup_utf8(
                inverse_map(m),
                operand_name(c, tokens(c), q),
            ) is Some ==> lookup_utf8(m, operand_name(c, tokens(c), q)) is Some,
        k <= tokens(c).len(),
    ensures
        rewrite_prefix(rewrite_spec(c, m), tokens(rewrite_spec(c, m)), inverse_map(m), k)
            == c.subrange(0, gap_start(tokens(c), k as int)),
    decreases k,
{
    if k > 0 {
        let t = tokens(c);
        let d = rewrite_spec(c, m);
        let t2 = tokens(d);
        let inv = inverse_map(m);
        let j = k - 1;
        lemma_round_prefix(c, m, j as nat);
        lemma_tokens_ok(c);
        lemma_gap_copied(c, m, j);
        lemma_piece_back(c, m, j);
        let g = gap_start(t, j);
        if j > 0 {
            assert(0 <= t[j - 1].0 < t[j - 1].1);
            assert(t[j - 1].1 <= t[j].0);
        }
        assert(0 <= t[j].0 < t[j].1 <= c.len());
        assert(0 <= g <= t[j].0);
        assert(rewrite_prefix(d, t2, inv, k) == rewrite_prefix(d, t2, inv, j as nat) + d.subrange(
            gap_start(t2, j),
            t2[j].0,
        ) + rewritten_piece(d, t2, inv, j));
        assert(c.subrange(0, g) + c.subrange(g, t[j].0) + c.subrange(t[j].0, t[j].1) =~= c.subrange(
            0,
            t[j].1,
        ));
    }
}

/// Renaming fonts and then renaming them back gives the content stream back.
///
/// Rewrite the font operands of `c` with a map `m`, then rewrite the result
/// with the inverse of `m`: the result is `c`, byte for byte. This holds when
/// every token of `c` ends within it, `m` gives no two keys the same new
/// name, every new name is a non-empty name of regular bytes (so it reads
/// back as one name token), and every font operand of `c` that the inverse
/// would rename is one that `m` renames (so the inverse touches only what `m`
/// wrote).
pub proof fn lemma_rewrite_round_trip(c: Seq<u8>, m: Map<Seq<char>, Seq<char>>)
    requires
        tokens_in_bounds(c),
        m.dom().finite(),
        injective_names(m),
        forall|k: Seq<char>| #[trigger] m.contains_key(k) ==> regular_name(m[k]),
        forall|q: int|
            0 <= q < tokens(c).len() && #[trigger] tf_operand(c, tokens(c), q) && lookup_utf8(
                inverse_map(m),
                operand_name(c, tokens(c), q),
            ) is Some ==> lookup_utf8(m, operand_name(c, tokens(c), q)) is Some,
    ensures
        rewrite_spec(rewrite_spec(c, m), inverse_map(m)) == c,
{
    let inv = inverse_map(m);
    if m.dom().len() == 0 {
        m.dom().lemma_len0_is_empty();
        assert(inv.dom() =~= Set::<Seq<char>>::empty()) by {
            assert forall|v: Seq<char>| !inv.dom().contains(v) by {
                if m.values().contains(v) {
                    let k = choose|k: Seq<char>| m.contains_key(k) && m[k] == v;
                    assert(m.dom().contains(k));
                }
            }
        }
    } else {
        lemma_rewritten_tokens(c, m);
        let t = tokens(c);
        let n = t.len();
        let d = rewrite_spec(c, m);
        let t2 = tokens(d);
        let k0 = m.dom().choose();
        assert(m.contains_key(k0));
        assert(m.values().contains(m[k0]));
        m.lemma_values_len();
        assert(inv.dom() =~= m.values());
        assert(inv.dom().contains(m[k0]));
        lemma_round_prefix(c, m, n);
        lemma_new_gap_start(c, m, n as int);
        lemma_stream_prefix(c, m, n);
        let g = gap_start(t, n as int);
        let o = offset(c, t, m, n);
        lemma_gap_byte(c, m, n, c.len() as int);
        assert(d.subrange(gap_start(t2, n as int), d.len() as int) =~= c.subrange(g, c.len() as int)) by {
            assert forall|q: int| g <= q < c.len() implies d[q + o] == c[q] by {
                lemma_gap_byte(c, m, n, q);
            }
        }
        assert(c.subrange(0, g) + c.subrange(g, c.len() as int) =~= c);
    }
}

/// A rewritten stream can be rewritten again: when every token of `c` ends
/// within it and every new name of `m` is a non-empty name of regular bytes,
/// every token of the rewritten stream ends within it too.
pub proof fn lemma_rewrite_keeps_tokens_in_bounds(c: Seq<u8>, m: Map<Seq<char>, Seq<char>>)
    requires
        tokens_in_bounds(c),
        m.dom().finite(),
        forall|k: Seq<char>| #[trigger] m.contains_key(k) ==> regular_name(m[k]),
    ensures
        tokens_in_bounds(rewrite_spec(c, m)),
{
    if m.dom().len() > 0 {
        lemma_rewritten_tokens(c, m);
        let d = rewrite_spec(c, m);
        assert forall|k: int| 0 <= k < tokens(d).len() implies #[trigger] tokens(d)[k].1 <= d.len() by {
            lemma_piece_bytes(c, m, k);
            assert(tokens(d)[k] == new_token(c, tokens(c), m, k));
        }
    }
}

/// The round trip for rename maps held as `NameMap`s: when `inv` maps each
/// new name of `m` back to its key, rewriting the font operands of
/// `content` with `m` and then with `inv` gives `content` back, and the
/// rewritten stream can be handed to the rewrite again. The conditions are
/// those of `lemma_rewrite_round_trip`; a `NameMap` is always finite.
pub proof fn lemma_name_map_round_trip(content: Seq<u8>, m: &NameMap, inv: &NameMap)
    requires
        tokens_in_bounds(content),
        inv@ == inverse_map(m@),
        injective_names(m@),
        forall|k: Seq<char>| #[trigger] m@.contains_key(k) ==> regular_name(m@[k]),
        forall|q: int|
            0 <= q < tokens(content).len() && #[trigger] tf_operand(content, tokens(content), q)
                && lookup_utf8(inv@, operand_name(content, tokens(content), q)) is Some
                ==> lookup_utf8(m@, operand_name(content, tokens(content), q)) is Some,
    ensures
        tokens_in_bounds(rewrite_spec(content, m@)),
        rewrite_spec(rewrite_spec(content, m@), inv@) == content,
{
    m.lemma_finite();
    lemma_rewrite_keeps_tokens_in_bounds(content, m@);
    lemma_rewrite_round_trip(content, m@);
}

} // verus!
