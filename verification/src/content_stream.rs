//! Utilities for analyzing and modifying PDF content streams: finding the
//! fonts a stream selects, renaming fonts in resource dictionaries, and
//! rewriting the font operands of `Tf` operators.

use vstd::prelude::*;
use vstd::utf8::encode_utf8;
use vstd::utf8::{decode_utf8, valid_utf8};
use crate::collections::{
    assoc_map, distinct_keys, lemma_assoc_map_contains, lemma_assoc_map_index, lemma_assoc_map_len,
    lookup_utf8, NameMap, NameSet,
};
use crate::objects::{
    copy_object, lemma_dictionary_entry, lemma_dictionary_key, lemma_object_view, Dictionary, Object, ObjectView,
};
use crate::text::{dec, dec_chars, extend_chars, lemma_dec_injective, lemma_dec_len};
use crate::text::{chars_of, split_newline_chars, split_newlines, split_whitespace_chars, string_of, sub_chars, words};

verus! {

/// PDF whitespace (ISO 32000-1 Table 1): NUL, TAB, LF, FF, CR, SPACE.
pub open spec fn is_pdf_ws(b: u8) -> bool {
    b == 0 || b == 9 || b == 10 || b == 12 || b == 13 || b == 32
}

/// PDF delimiters (ISO 32000-1 Table 2): `( ) < > [ ] { } / %`.
pub open spec fn is_pdf_delim(b: u8) -> bool {
    b == 40 || b == 41 || b == 60 || b == 62 || b == 91 || b == 93 || b == 123 || b == 125 || b
        == 47 || b == 37
}

/// Regular characters: neither whitespace nor delimiters.
pub open spec fn is_regular_byte(b: u8) -> bool {
    !is_pdf_ws(b) && !is_pdf_delim(b)
}

/// True for PDF whitespace.
pub fn is_pdf_whitespace(b: u8) -> (r: bool)
    ensures
        r == is_pdf_ws(b),
{
    b == 0 || b == 9 || b == 10 || b == 12 || b == 13 || b == 32
}

/// True for PDF delimiter characters.
pub fn is_pdf_delimiter(b: u8) -> (r: bool)
    ensures
        r == is_pdf_delim(b),
{
    b == 40 || b == 41 || b == 60 || b == 62 || b == 91 || b == 93 || b == 123 || b == 125 || b
        == 47 || b == 37
}

/// True for regular characters.
pub fn is_regular(b: u8) -> (r: bool)
    ensures
        r == is_regular_byte(b),
{
    !is_pdf_whitespace(b) && !is_pdf_delimiter(b)
}

/// Byte `b` at position `idx` may appear in a PDF number: a digit, a
/// period, or a sign at the start.
pub open spec fn number_byte_ok(b: u8, idx: int) -> bool {
    (idx == 0 && (b == 43 || b == 45)) || (48 <= b && b <= 57) || b == 46
}

/// `s` is a PDF numeric token: integer or real, optional leading sign, at
/// least one digit.
pub open spec fn is_number_bytes(s: Seq<u8>) -> bool {
    &&& s.len() > 0
    &&& forall|k: int| 0 <= k < s.len() ==> number_byte_ok(#[trigger] s[k], k)
    &&& exists|k: int| 0 <= k < s.len() && 48 <= #[trigger] s[k] && s[k] <= 57
}

/// True if `bytes` is a PDF numeric token (integer or real, optional sign).
pub fn is_pdf_number(bytes: &[u8]) -> (r: bool)
    ensures
        r == is_number_bytes(bytes@),
{
    if bytes.len() == 0 {
        return false;
    }
    let mut seen_digit = false;
    let mut idx: usize = 0;
    while idx < bytes.len()
        invariant
            0 <= idx <= bytes@.len(),
            forall|k: int| 0 <= k < idx ==> number_byte_ok(#[trigger] bytes@[k], k),
            seen_digit == exists|k: int| 0 <= k < idx && 48 <= #[trigger] bytes@[k] && bytes@[k] <= 57,
        decreases bytes@.len() - idx,
    {
        let b = bytes[idx];
        if (b == 43 || b == 45) && idx == 0 {
        } else if 48 <= b && b <= 57 {
            seen_digit = true;
        } else if b == 46 {
        } else {
            assert(!number_byte_ok(bytes@[idx as int], idx as int));
            return false;
        }
        idx += 1;
    }
    seen_digit
}

/// The end of the run of regular bytes starting at `i`.
pub open spec fn regular_end(c: Seq<u8>, i: int) -> int
    decreases c.len() - i,
{
    if 0 <= i < c.len() && is_regular_byte(c[i]) {
        regular_end(c, i + 1)
    } else {
        i
    }
}

/// The end of a comment starting at `i`: the next CR or LF, or the end.
pub open spec fn comment_end(c: Seq<u8>, i: int) -> int
    decreases c.len() - i,
{
    if 0 <= i < c.len() && c[i] != 10 && c[i] != 13 {
        comment_end(c, i + 1)
    } else {
        i
    }
}

/// The end of a literal string whose body continues at `i` with `depth`
/// open parentheses: balanced parentheses, a backslash skipping the byte
/// after it. A backslash as the last byte leaves the end one past the input.
pub open spec fn literal_end(c: Seq<u8>, i: int, depth: int) -> int
    decreases c.len() + 1 - i,
{
    if 0 <= i < c.len() && depth > 0 {
        if c[i] == 92 {
            literal_end(c, i + 2, depth)
        } else if c[i] == 40 {
            literal_end(c, i + 1, depth + 1)
        } else if c[i] == 41 {
            literal_end(c, i + 1, depth - 1)
        } else {
            literal_end(c, i + 1, depth)
        }
    } else {
        i
    }
}

/// The position of the next `>` at or after `i`, or the end.
pub open spec fn hex_end(c: Seq<u8>, i: int) -> int
    decreases c.len() - i,
{
    if 0 <= i < c.len() && c[i] != 62 {
        hex_end(c, i + 1)
    } else {
        i
    }
}

/// The kind of a content-stream token, as far as a `/name size Tf` run is
/// concerned.
#[derive(PartialEq, Eq, Structural, Clone, Copy, Debug)]
pub enum TokenKind {
    Name,
    Number,
    Keyword,
    /// String/hex literal, array/dict delimiter, or any other token that breaks
    /// a `/name <size> Tf` run.
    Other,
}

/// A token: its byte span `start..end` and its kind.
pub type SpecToken = (int, int, TokenKind);

/// What the tokenizer reads at position `i < c.len()`: a token or nothing
/// (whitespace, a comment), and the position after it.
pub open spec fn token_step(c: Seq<u8>, i: int) -> (Option<SpecToken>, int) {
    let b = c[i];
    let n = c.len();
    if is_pdf_ws(b) {
        (None, i + 1)
    } else if b == 37 {
        (None, comment_end(c, i))
    } else if b == 40 {
        let e = literal_end(c, i + 1, 1);
        (Some((i, e, TokenKind::Other)), e)
    } else if b == 60 {
        if i + 1 < n && c[i + 1] == 60 {
            (Some((i, i + 2, TokenKind::Other)), i + 2)
        } else {
            let h = hex_end(c, i + 1);
            let e = if h < n {
                h + 1
            } else {
                h
            };
            (Some((i, e, TokenKind::Other)), e)
        }
    } else if b == 62 {
        let e = if i + 1 < n && c[i + 1] == 62 {
            i + 2
        } else {
            i + 1
        };
        (Some((i, e, TokenKind::Other)), e)
    } else if b == 91 || b == 93 || b == 123 || b == 125 || b == 41 {
        (Some((i, i + 1, TokenKind::Other)), i + 1)
    } else if b == 47 {
        let e = regular_end(c, i + 1);
        (Some((i, e, TokenKind::Name)), e)
    } else {
        let e = regular_end(c, i);
        let kind = if is_number_bytes(c.subrange(i, e)) {
            TokenKind::Number
        } else {
            TokenKind::Keyword
        };
        (Some((i, e, kind)), e)
    }
}

pub(crate) proof fn lemma_regular_end(c: Seq<u8>, i: int)
    requires
        0 <= i <= c.len(),
    ensures
        i <= regular_end(c, i) <= c.len(),
        forall|k: int| i <= k < regular_end(c, i) ==> is_regular_byte(#[trigger] c[k]),
    decreases c.len() - i,
{
    if i < c.len() && is_regular_byte(c[i]) {
        lemma_regular_end(c, i + 1);
    }
}

pub(crate) proof fn lemma_comment_end(c: Seq<u8>, i: int)
    requires
        0 <= i <= c.len(),
    ensures
        i <= comment_end(c, i) <= c.len(),
    decreases c.len() - i,
{
    if i < c.len() && c[i] != 10 && c[i] != 13 {
        lemma_comment_end(c, i + 1);
    }
}

pub(crate) proof fn lemma_literal_end(c: Seq<u8>, i: int, depth: int)
    requires
        0 <= i <= c.len(),
    ensures
        i <= literal_end(c, i, depth) <= c.len() + 1,
    decreases c.len() + 1 - i,
{
    if i < c.len() && depth > 0 {
        if c[i] == 92 {
            if i + 2 <= c.len() {
                lemma_literal_end(c, i + 2, depth);
            } else {
                assert(literal_end(c, i + 2, depth) == i + 2);
            }
        } else if c[i] == 40 {
            lemma_literal_end(c, i + 1, depth + 1);
        } else if c[i] == 41 {
            lemma_literal_end(c, i + 1, depth - 1);
        } else {
            lemma_literal_end(c, i + 1, depth);
        }
    }
}

pub(crate) proof fn lemma_hex_end(c: Seq<u8>, i: int)
    requires
        0 <= i <= c.len(),
    ensures
        i <= hex_end(c, i) <= c.len(),
    decreases c.len() - i,
{
    if i < c.len() && c[i] != 62 {
        lemma_hex_end(c, i + 1);
    }
}

/// Each step of the tokenizer moves forward, by at most one byte past the
/// end, and a token spans exactly the bytes of the step.
pub proof fn lemma_token_step(c: Seq<u8>, i: int)
    requires
        0 <= i < c.len(),
    ensures
        i < token_step(c, i).1 <= c.len() + 1,
        token_step(c, i).0 matches Some(t) ==> t.0 == i && t.1 == token_step(c, i).1,
        token_step(c, i).0 matches Some(t) ==> (t.2 == TokenKind::Name ==> i + 1 <= t.1 <= c.len()
            && c[i] == 47),
        token_step(c, i).1 == c.len() + 1 ==> c[i] == 40,
{
    let b = c[i];
    if is_pdf_ws(b) {
    } else if b == 37 {
        lemma_comment_end(c, i + 1);
    } else if b == 40 {
        lemma_literal_end(c, i + 1, 1);
    } else if b == 60 {
        lemma_hex_end(c, i + 1);
    } else if b == 62 {
    } else if b == 91 || b == 93 || b == 123 || b == 125 || b == 41 {
    } else if b == 47 {
        lemma_regular_end(c, i + 1);
    } else {
        lemma_regular_end(c, i + 1);
    }
}

/// The tokens of `c` from position `i` on.
pub open spec fn tokens_from(c: Seq<u8>, i: int) -> Seq<SpecToken>
    decreases c.len() + 1 - i,
{
    if i < 0 || i >= c.len() {
        Seq::empty()
    } else {
        let st = token_step(c, i);
        proof {
            lemma_token_step(c, i);
        }
        match st.0 {
            Some(t) => seq![t] + tokens_from(c, st.1),
            None => tokens_from(c, st.1),
        }
    }
}

/// The tokens of a content stream: significant tokens with their byte
/// spans; whitespace and comments are the gaps between them, and string and
/// hex literals are whole `Other` tokens.
pub open spec fn tokens(c: Seq<u8>) -> Seq<SpecToken> {
    tokens_from(c, 0)
}

/// Tokens come in order: each starts where or after the previous one ended,
/// each is non-empty, and only the last can end past the input (a literal
/// string closed by a trailing backslash).
pub proof fn lemma_tokens_ordered(c: Seq<u8>, i: int)
    requires
        0 <= i,
    ensures
        forall|k: int|
            0 <= k < tokens_from(c, i).len() ==> i <= #[trigger] tokens_from(c, i)[k].0
                < tokens_from(c, i)[k].1 <= c.len() + 1 && tokens_from(c, i)[k].0 < c.len(),
        forall|k: int|
            0 <= k < tokens_from(c, i).len() - 1 ==> #[trigger] tokens_from(c, i)[k].1 <= tokens_from(
                c,
                i,
            )[k + 1].0 && tokens_from(c, i)[k].1 <= c.len(),
        forall|k: int|
            0 <= k < tokens_from(c, i).len() ==> (#[trigger] tokens_from(c, i)[k].2
                == TokenKind::Name ==> tokens_from(c, i)[k].0 + 1 <= tokens_from(c, i)[k].1
                <= c.len() && c[tokens_from(c, i)[k].0] == 47),
    decreases c.len() + 1 - i,
{
    if i < c.len() {
        let st = token_step(c, i);
        lemma_token_step(c, i);
        lemma_tokens_ordered(c, st.1);
        let rest = tokens_from(c, st.1);
        match st.0 {
            Some(t) => {
                let all = seq![t] + rest;
                assert(tokens_from(c, i) == all);
                assert forall|k: int| 0 <= k < all.len() implies i <= #[trigger] all[k].0 < all[k].1
                    <= c.len() + 1 && all[k].0 < c.len() by {
                    if k > 0 {
                        assert(all[k] == rest[k - 1]);
                    }
                }
                assert forall|k: int| 0 <= k < all.len() - 1 implies #[trigger] all[k].1 <= all[k
                    + 1].0 && all[k].1 <= c.len() by {
                    if k > 0 {
                        assert(all[k] == rest[k - 1]);
                        assert(all[k + 1] == rest[k]);
                    } else {
                        assert(all[1] == rest[0]);
                    }
                }
                assert forall|k: int| 0 <= k < all.len() && #[trigger] all[k].2 == TokenKind::Name
                    implies all[k].0 + 1 <= all[k].1 <= c.len() && c[all[k].0] == 47 by {
                    if k > 0 {
                        assert(all[k] == rest[k - 1]);
                    }
                }
            },
            None => {},
        }
    }
}

/// A token's span and kind.
pub struct Token {
    pub start: usize,
    pub end: usize,
    pub kind: TokenKind,
}

/// The spans and kinds of `toks`.
pub open spec fn token_views(toks: Seq<Token>) -> Seq<SpecToken> {
    toks.map_values(|t: Token| (t.start as int, t.end as int, t.kind))
}

fn scan_regular(c: &[u8], i: usize) -> (j: usize)
    requires
        i <= c@.len(),
    ensures
        j == regular_end(c@, i as int),
{
    let mut j = i;
    while j < c.len() && is_regular(c[j])
        invariant
            i <= j <= c@.len(),
            regular_end(c@, i as int) == regular_end(c@, j as int),
        decreases c@.len() - j,
    {
        j += 1;
    }
    j
}

fn scan_comment(c: &[u8], i: usize) -> (j: usize)
    requires
        i <= c@.len(),
    ensures
        j == comment_end(c@, i as int),
{
    let mut j = i;
    while j < c.len() && c[j] != 10 && c[j] != 13
        invariant
            i <= j <= c@.len(),
            comment_end(c@, i as int) == comment_end(c@, j as int),
        decreases c@.len() - j,
    {
        j += 1;
    }
    j
}

fn scan_hex(c: &[u8], i: usize) -> (j: usize)
    requires
        i <= c@.len(),
    ensures
        j == hex_end(c@, i as int),
{
    let mut j = i;
    while j < c.len() && c[j] != 62
        invariant
            i <= j <= c@.len(),
            hex_end(c@, i as int) == hex_end(c@, j as int),
        decreases c@.len() - j,
    {
        j += 1;
    }
    j
}

fn scan_literal(c: &[u8], i: usize) -> (j: usize)
    requires
        i <= c@.len() < usize::MAX,
    ensures
        j == literal_end(c@, i as int, 1),
{
    let mut j = i;
    let mut depth: usize = 1;
    while j < c.len() && depth > 0
        invariant
            i <= j <= c@.len() + 1,
            c@.len() < usize::MAX,
            depth <= j - i + 1,
            literal_end(c@, i as int, 1) == literal_end(c@, j as int, depth as int),
        decreases c@.len() + 1 - j,
    {
        let b = c[j];
        if b == 92 {
            j += 1;
        } else if b == 40 {
            depth += 1;
        } else if b == 41 {
            depth -= 1;
        }
        j += 1;
    }
    j
}

/// The token at position `i < c.len()`, if any, and the position after it.
fn next_token(c: &[u8], i: usize) -> (r: (Option<Token>, usize))
    requires
        i < c@.len() < usize::MAX,
    ensures
        r.1 == token_step(c@, i as int).1,
        r.0 matches Some(t) ==> token_step(c@, i as int).0 == Some(
            (t.start as int, t.end as int, t.kind),
        ),
        r.0 is None ==> token_step(c@, i as int).0 is None,
{
    proof {
        lemma_token_step(c@, i as int);
    }
    let n = c.len();
    let b = c[i];
    if is_pdf_whitespace(b) {
        (None, i + 1)
    } else if b == 37 {
        let e = scan_comment(c, i);
        (None, e)
    } else if b == 40 {
        let e = scan_literal(c, i + 1);
        (Some(Token { start: i, end: e, kind: TokenKind::Other }), e)
    } else if b == 60 {
        if i + 1 < n && c[i + 1] == 60 {
            (Some(Token { start: i, end: i + 2, kind: TokenKind::Other }), i + 2)
        } else {
            let h = scan_hex(c, i + 1);
            let e = if h < n {
                h + 1
            } else {
                h
            };
            (Some(Token { start: i, end: e, kind: TokenKind::Other }), e)
        }
    } else if b == 62 {
        let e = if i + 1 < n && c[i + 1] == 62 {
            i + 2
        } else {
            i + 1
        };
        (Some(Token { start: i, end: e, kind: TokenKind::Other }), e)
    } else if b == 91 || b == 93 || b == 123 || b == 125 || b == 41 {
        (Some(Token { start: i, end: i + 1, kind: TokenKind::Other }), i + 1)
    } else if b == 47 {
        let e = scan_regular(c, i + 1);
        (Some(Token { start: i, end: e, kind: TokenKind::Name }), e)
    } else {
        let e = scan_regular(c, i);
        let slice = vstd::slice::slice_subrange(c, i, e);
        let kind = if is_pdf_number(slice) {
            TokenKind::Number
        } else {
            TokenKind::Keyword
        };
        (Some(Token { start: i, end: e, kind }), e)
    }
}

/// Split a content stream into significant tokens, recording each token's
/// byte span.
pub fn tokenize_content(content: &[u8]) -> (toks: Vec<Token>)
    requires
        content@.len() < usize::MAX,
    ensures
        token_views(toks@) == tokens(content@),
{
    let n = content.len();
    let mut toks: Vec<Token> = Vec::new();
    let mut i: usize = 0;
    while i < n
        invariant
            n == content@.len() < usize::MAX,
            i <= n + 1,
            token_views(toks@) + tokens_from(content@, i as int) == tokens(content@),
        decreases n + 1 - i,
    {
        proof {
            lemma_token_step(content@, i as int);
        }
        let (t, j) = next_token(content, i);
        match t {
            Some(tok) => {
                let ghost tv = (tok.start as int, tok.end as int, tok.kind);
                let ghost before = token_views(toks@);
                toks.push(tok);
                proof {
                    assert(token_views(toks@) =~= before.push(tv));
                    assert(tokens_from(content@, i as int) == seq![tv] + tokens_from(
                        content@,
                        j as int,
                    ));
                    assert(before.push(tv) + tokens_from(content@, j as int) =~= before + (seq![tv]
                        + tokens_from(content@, j as int)));
                }
            },
            None => {},
        }
        i = j;
    }
    assert(tokens_from(content@, i as int) =~= Seq::<SpecToken>::empty());
    assert(token_views(toks@) + Seq::<SpecToken>::empty() =~= token_views(toks@));
    toks
}


/// Every token of `c` ends within `c` (no literal string is cut short by a
/// backslash as the last byte).
pub open spec fn tokens_in_bounds(c: Seq<u8>) -> bool {
    forall|k: int| 0 <= k < tokens(c).len() ==> #[trigger] tokens(c)[k].1 <= c.len()
}

/// The bytes of token `t`.
pub open spec fn token_bytes(c: Seq<u8>, t: SpecToken) -> Seq<u8> {
    c.subrange(t.0, t.1)
}

/// `t` is the keyword `Tf`.
pub open spec fn is_tf(c: Seq<u8>, t: SpecToken) -> bool {
    t.2 == TokenKind::Keyword && token_bytes(c, t) == seq![84u8, 102u8]
}

/// The new name for token `k` when it is the font operand of a `Tf`
/// operator (a name, followed by a number and the keyword `Tf`) and its name
/// (the bytes after `/`) is the UTF-8 encoding of a key of `m`.
pub open spec fn font_target(c: Seq<u8>, toks: Seq<SpecToken>, m: Map<Seq<char>, Seq<char>>, k: int) -> Option<Seq<char>> {
    if toks[k].2 == TokenKind::Name && k + 2 < toks.len() && toks[k + 1].2 == TokenKind::Number
        && is_tf(c, toks[k + 2]) {
        lookup_utf8(m, c.subrange(toks[k].0 + 1, toks[k].1))
    } else {
        None
    }
}

/// The output bytes for token `k`: `/` and the new name's UTF-8 bytes for a
/// font target, the token's own bytes otherwise.
pub open spec fn rewritten_piece(c: Seq<u8>, toks: Seq<SpecToken>, m: Map<Seq<char>, Seq<char>>, k: int) -> Seq<u8> {
    match font_target(c, toks, m, k) {
        Some(new_name) => seq![47u8] + encode_utf8(new_name),
        None => token_bytes(c, toks[k]),
    }
}

/// Where the gap before token `k` starts: the end of token `k - 1`.
pub open spec fn gap_start(toks: Seq<SpecToken>, k: int) -> int {
    if k == 0 {
        0
    } else {
        toks[k - 1].1
    }
}

/// The output for the first `k` tokens: each gap copied verbatim, then the
/// token's piece.
pub open spec fn rewrite_prefix(c: Seq<u8>, toks: Seq<SpecToken>, m: Map<Seq<char>, Seq<char>>, k: nat) -> Seq<u8>
    decreases k,
{
    if k == 0 {
        Seq::empty()
    } else {
        rewrite_prefix(c, toks, m, (k - 1) as nat) + c.subrange(gap_start(toks, k - 1), toks[k - 1].0)
            + rewritten_piece(c, toks, m, k - 1)
    }
}

/// The rewritten content stream: with an empty map, the content itself;
/// otherwise every byte copied verbatim except the names of font targets.
pub open spec fn rewrite_spec(c: Seq<u8>, m: Map<Seq<char>, Seq<char>>) -> Seq<u8> {
    if m.dom().len() == 0 {
        c
    } else {
        let toks = tokens(c);
        rewrite_prefix(c, toks, m, toks.len()) + c.subrange(gap_start(toks, toks.len() as int), c.len() as int)
    }
}

/// Appends `c[lo..hi]` to `out`.
fn extend_range(out: &mut Vec<u8>, c: &[u8], lo: usize, hi: usize)
    requires
        lo <= hi <= c@.len(),
    ensures
        final(out)@ == old(out)@ + c@.subrange(lo as int, hi as int),
{
    let ghost o0 = out@;
    let mut i = lo;
    while i < hi
        invariant
            lo <= i <= hi <= c@.len(),
            out@ == o0 + c@.subrange(lo as int, i as int),
        decreases hi - i,
    {
        out.push(c[i]);
        assert(c@.subrange(lo as int, i + 1) =~= c@.subrange(lo as int, i as int).push(c@[i as int]));
        i += 1;
    }
}

/// Rewrite font references in a content stream using a name mapping: a name
/// in the operand position of a `Tf` operator (`/Name size Tf`) whose name is
/// a key of `mappings` is replaced by `/` and the mapped name; every other
/// byte (whitespace, comments, string and hex literals) is copied verbatim.
#[verifier::spinoff_prover]
#[verifier::rlimit(50)]
pub fn rewrite_font_references(content: &[u8], mappings: &NameMap) -> (out: Vec<u8>)
    requires
        mappings@.dom().len() > 0 ==> content@.len() < usize::MAX && tokens_in_bounds(content@),
    ensures
        out@ == rewrite_spec(content@, mappings@),
{
    if mappings.is_empty() {
        return vstd::slice::slice_to_vec(content);
    }
    let toks = tokenize_content(content);
    let ghost c = content@;
    let ghost tv = tokens(c);
    let ghost m = mappings@;
    proof {
        lemma_tokens_ordered(c, 0);
    }
    let mut out: Vec<u8> = Vec::new();
    let mut pos: usize = 0;
    let nt = toks.len();
    for i in 0..nt
        invariant
            nt == toks@.len() == tv.len(),
            token_views(toks@) == tv,
            tv == tokens(c),
            c == content@,
            m == mappings@,
            tokens_in_bounds(c),
            forall|k: int| 0 <= k < tv.len() ==> 0 <= #[trigger] tv[k].0 < tv[k].1 <= c.len(),
            forall|k: int| 0 <= k < tv.len() - 1 ==> #[trigger] tv[k].1 <= tv[k + 1].0,
            forall|k: int| 0 <= k < tv.len() ==> (#[trigger] tv[k].2 == TokenKind::Name ==> tv[k].0 + 1 <= tv[k].1),
            pos == gap_start(tv, i as int),
            pos <= c.len(),
            i < nt ==> pos <= tv[i as int].0,
            out@ == rewrite_prefix(c, tv, m, i as nat),
    {
        let start = toks[i].start;
        let end = toks[i].end;
        assert(tv[i as int] == (start as int, end as int, toks@[i as int].kind));
        extend_range(&mut out, content, pos, start);
        let mut target: Option<&String> = None;
        if toks[i].kind == TokenKind::Name && nt - i > 2 && toks[i + 1].kind == TokenKind::Number
            && toks[i + 2].kind == TokenKind::Keyword {
            let s2 = toks[i + 2].start;
            let e2 = toks[i + 2].end;
            assert(tv[i + 2] == (s2 as int, e2 as int, toks@[i + 2].kind));
            assert(tv[i + 1] == (toks@[i + 1].start as int, toks@[i + 1].end as int, toks@[i + 1].kind));
            if e2 - s2 == 2 && content[s2] == 84 && content[s2 + 1] == 102 {
                assert(token_bytes(c, tv[i + 2]) =~= seq![84u8, 102u8]);
                let name = vstd::slice::slice_subrange(content, start + 1, end);
                target = mappings.get_utf8(name);
            } else {
                assert(token_bytes(c, tv[i + 2]).len() != 2 || token_bytes(c, tv[i + 2])[0] != 84
                    || token_bytes(c, tv[i + 2])[1] != 102);
            }
        }
        let ghost before = out@;
        match target {
            Some(new_name) => {
                out.push(47);
                let nb = new_name.as_str().as_bytes();
                extend_range(&mut out, nb, 0, nb.len());
                proof {
                    assert(nb@.subrange(0, nb@.len() as int) =~= nb@);
                    assert(out@ =~= before + (seq![47u8] + encode_utf8(new_name@)));
                }
            },
            None => {
                extend_range(&mut out, content, start, end);
            },
        }
        assert(rewritten_piece(c, tv, m, i as int) == out@.subrange(before.len() as int, out@.len() as int));
        assert(out@ =~= before + rewritten_piece(c, tv, m, i as int));
        pos = end;
    }
    extend_range(&mut out, content, pos, content.len());
    out
}


/// Renaming each font to itself leaves a content stream unchanged: every
/// byte outside a font target is copied verbatim, and a font target is
/// rewritten to `/` and the same name.
pub proof fn lemma_rewrite_identity(c: Seq<u8>, m: Map<Seq<char>, Seq<char>>)
    requires
        tokens_in_bounds(c),
        forall|k: Seq<char>| #[trigger] m.contains_key(k) ==> m[k] == k,
    ensures
        rewrite_spec(c, m) == c,
{
    if m.dom().len() > 0 {
        let tv = tokens(c);
        lemma_tokens_ordered(c, 0);
        lemma_rewrite_prefix_identity(c, tv, m, tv.len());
        let g = gap_start(tv, tv.len() as int);
        assert(c.subrange(0, g) + c.subrange(g, c.len() as int) =~= c);
    }
}

proof fn lemma_rewrite_prefix_identity(c: Seq<u8>, tv: Seq<SpecToken>, m: Map<Seq<char>, Seq<char>>, k: nat)
    requires
        tv == tokens(c),
        tokens_in_bounds(c),
        k <= tv.len(),
        forall|j: int| 0 <= j < tv.len() ==> 0 <= #[trigger] tv[j].0 < tv[j].1 <= c.len() + 1,
        forall|j: int| 0 <= j < tv.len() - 1 ==> #[trigger] tv[j].1 <= tv[j + 1].0,
        forall|j: int| 0 <= j < tv.len() ==> (#[trigger] tv[j].2 == TokenKind::Name ==> tv[j].0 + 1 <= tv[j].1 <= c.len() && c[tv[j].0] == 47),
        forall|q: Seq<char>| #[trigger] m.contains_key(q) ==> m[q] == q,
    ensures
        rewrite_prefix(c, tv, m, k) == c.subrange(0, gap_start(tv, k as int)),
    decreases k,
{
    if k > 0 {
        let j = k - 1;
        lemma_rewrite_prefix_identity(c, tv, m, j as nat);
        assert(tv[j].1 <= c.len());
        if j > 0 {
            assert(tv[j - 1].1 <= tv[j].0);
        }
        let piece = rewritten_piece(c, tv, m, j);
        assert(piece == token_bytes(c, tv[j])) by {
            match font_target(c, tv, m, j) {
                Some(nn) => {
                    let name = c.subrange(tv[j].0 + 1, tv[j].1);
                    let q = choose|q: Seq<char>| m.contains_key(q) && encode_utf8(q) == name;
                    assert(nn == m[q]);
                    assert(seq![47u8] + name =~= c.subrange(tv[j].0, tv[j].1));
                },
                None => {},
            }
        }
        let g = gap_start(tv, j);
        assert(c.subrange(0, g) + c.subrange(g, tv[j].0) + c.subrange(tv[j].0, tv[j].1) =~= c.subrange(
            0,
            tv[j].1,
        ));
    }
}


/// The text of a byte string decoded as UTF-8, each invalid sequence
/// replaced by U+FFFD (what `String::from_utf8_lossy` returns).
pub uninterp spec fn utf8_lossy(bytes: Seq<u8>) -> Seq<char>;

/// Decodes `bytes` as UTF-8 with replacement characters (calls
/// `String::from_utf8_lossy`). Claims the result is a function of the bytes
/// and, as the documentation of `from_utf8_lossy` states, that valid UTF-8
/// is decoded unchanged.
#[verifier::external_body]
fn decode_lossy(bytes: &[u8]) -> (s: String)
    ensures
        s@ == utf8_lossy(bytes@),
        valid_utf8(bytes@) ==> s@ == decode_utf8(bytes@),
{
    String::from_utf8_lossy(bytes).into_owned()
}

/// Word `i` of a line is a font name operand: it starts with `/` and the
/// word two places later is `Tf`.
pub open spec fn is_font_operand(ws: Seq<Seq<char>>, i: int) -> bool {
    &&& 0 <= i
    &&& i + 2 < ws.len()
    &&& ws[i].len() > 0
    &&& ws[i][0] == '/'
    &&& ws[i + 2] == seq!['T', 'f']
}

/// The font names (without `/`) selected in a line split into words.
pub open spec fn line_fonts(ws: Seq<Seq<char>>) -> Set<Seq<char>> {
    Set::new(|f: Seq<char>| exists|i: int| #[trigger] is_font_operand(ws, i) && f == ws[i].drop_first())
}

/// The font names selected in the lines `ls`.
pub open spec fn fonts_of_lines(ls: Seq<Seq<char>>) -> Set<Seq<char>>
    decreases ls.len(),
{
    if ls.len() == 0 {
        Set::empty()
    } else {
        fonts_of_lines(ls.drop_last()).union(line_fonts(words(ls.last())))
    }
}

/// The font names referenced in a content stream's text: in each line, every
/// whitespace-separated word `/Name` followed, two words later, by `Tf`.
pub open spec fn font_references(text: Seq<char>) -> Set<Seq<char>> {
    fonts_of_lines(split_newlines(text))
}

/// The font references of a content stream given as text.
pub fn extract_font_references_from_text(text: &str) -> (fonts: NameSet)
    ensures
        fonts@ == font_references(text@),
{
    let chars = chars_of(text);
    let lines = split_newline_chars(chars.as_slice());
    let ghost ls = lines@.map_values(|w: Vec<char>| w@);
    let mut fonts = NameSet::new();
    for li in 0..lines.len()
        invariant
            ls == lines@.map_values(|w: Vec<char>| w@),
            ls == split_newlines(text@),
            ls.len() == lines@.len(),
            fonts@ == fonts_of_lines(ls.take(li as int)),
    {
        let ws = split_whitespace_chars(lines[li].as_slice());
        let ghost wv = ws@.map_values(|w: Vec<char>| w@);
        let ghost f0 = fonts@;
        let nw = ws.len();
        let mut i: usize = 0;
        while nw > 2 && i < nw - 2
            invariant
                nw == ws@.len() == wv.len(),
                wv == ws@.map_values(|w: Vec<char>| w@),
                wv == words(ls[li as int]),
                fonts@ == f0.union(Set::new(|f: Seq<char>| exists|j: int| 0 <= j < i && #[trigger] is_font_operand(wv, j) && f == wv[j].drop_first())),
            decreases nw - i,
        {
            let ghost fi = fonts@;
            let w = &ws[i];
            let t = &ws[i + 2];
            if w.len() > 0 && w[0] == '/' && t.len() == 2 && t[0] == 'T' && t[1] == 'f' {
                assert(wv[i + 2] =~= seq!['T', 'f']);
                assert(is_font_operand(wv, i as int));
                let name = sub_chars(w.as_slice(), 1, w.len());
                assert(name@ =~= wv[i as int].drop_first());
                fonts.insert(string_of(name.as_slice()));
            } else {
                assert(!is_font_operand(wv, i as int));
            }
            proof {
                assert(fonts@ =~= f0.union(Set::new(|f: Seq<char>| exists|j: int| 0 <= j < i + 1 && #[trigger] is_font_operand(wv, j) && f == wv[j].drop_first())));
            }
            i += 1;
        }
        proof {
            assert forall|j: int| #[trigger] is_font_operand(wv, j) implies j < i by {
                assert(j + 2 < nw);
            }
            assert(fonts@ =~= f0.union(line_fonts(wv)));
            assert(ls.take(li + 1).drop_last() =~= ls.take(li as int));
        }
    }
    assert(ls.take(lines.len() as int) =~= ls);
    fonts
}

/// Extract all font references from a content stream: the names `/Name`
/// used as the font operand of a `Tf` operator on one line
/// (`/F1 12 Tf`), read from the bytes decoded as UTF-8 with replacement.
pub fn extract_font_references(content: &[u8]) -> (fonts: NameSet)
    ensures
        fonts@ == font_references(utf8_lossy(content@)),
{
    let text = decode_lossy(content);
    extract_font_references_from_text(text.as_str())
}

/// The name `key` with the `Orig` prefix.
pub open spec fn orig_name(key: Seq<char>) -> Seq<char> {
    seq!['O', 'r', 'i', 'g'] + key
}

/// `Orig` followed by `key`.
fn make_orig_name(key: &str) -> (r: String)
    ensures
        r@ == orig_name(key@),
{
    let mut r = String::from_str("Orig");
    proof {
        reveal_strlit("Orig");
    }
    r.append(key);
    r
}

/// Rename fonts in a dictionary by adding the prefix `Orig` to every key;
/// values are carried over unchanged. Distinct keys stay distinct, so no
/// entry is lost.
pub fn rename_preserved_fonts(fonts: &Dictionary) -> (renamed: Dictionary)
    requires
        fonts.wf(),
    ensures
        renamed.wf(),
        renamed.entries_view() == fonts.entries_view().map_values(
            |p: (Seq<char>, ObjectView)| (orig_name(p.0), p.1),
        ),
        forall|k: Seq<char>| #[trigger] fonts@.contains_key(k) ==> renamed@.contains_key(orig_name(k))
            && renamed@[orig_name(k)] == fonts@[k],
        forall|k2: Seq<char>| #[trigger] renamed@.contains_key(k2) ==> exists|k: Seq<char>|
            fonts@.contains_key(k) && k2 == orig_name(k),
{
    let mut out = Dictionary::new();
    let n = fonts.entry_count();
    let ghost ev = fonts.entries_view();
    let ghost target = ev.map_values(|p: (Seq<char>, ObjectView)| (orig_name(p.0), p.1));
    for i in 0..n
        invariant
            n == ev.len(),
            ev == fonts.entries_view(),
            fonts.wf(),
            target == ev.map_values(|p: (Seq<char>, ObjectView)| (orig_name(p.0), p.1)),
            out.wf(),
            out.entries_view() == target.take(i as int),
    {
        let key = fonts.key_at(i);
        let value = copy_object(fonts.value_at(i));
        let name = make_orig_name(key.as_str());
        proof {
            lemma_dictionary_key(&out, name@);
            if out@.contains_key(name@) {
                let j = choose|j: int| 0 <= j < out.entries_view().len() && #[trigger] out.entries_view()[j].0 == name@;
                assert(out.entries_view()[j] == target[j]);
                assert(orig_name(ev[j].0) == orig_name(ev[i as int].0));
                assert(ev[j].0 =~= orig_name(ev[j].0).subrange(4, orig_name(ev[j].0).len() as int));
                assert(ev[i as int].0 =~= orig_name(ev[i as int].0).subrange(4, orig_name(ev[i as int].0).len() as int));
            }
        }
        out.set(name.as_str(), value);
        proof {
            assert(target.take(i + 1) =~= target.take(i as int).push(target[i as int]));
        }
    }
    proof {
        assert(target.take(n as int) =~= target);
        assert forall|k: Seq<char>| #[trigger] fonts@.contains_key(k) implies out@.contains_key(orig_name(k))
            && out@[orig_name(k)] == fonts@[k] by {
            lemma_dictionary_key(fonts, k);
            let j = choose|j: int| 0 <= j < ev.len() && #[trigger] ev[j].0 == k;
            lemma_dictionary_entry(fonts, j);
            lemma_dictionary_entry(&out, j);
        }
        assert forall|k2: Seq<char>| #[trigger] out@.contains_key(k2) implies exists|k: Seq<char>|
            fonts@.contains_key(k) && k2 == orig_name(k) by {
            lemma_dictionary_key(&out, k2);
            let j = choose|j: int| 0 <= j < target.len() && #[trigger] out.entries_view()[j].0 == k2;
            lemma_dictionary_entry(fonts, j);
            assert(fonts@.contains_key(ev[j].0));
        }
    }
    out
}

/// `key` renamed by `map`: the mapped name if mapped, `key` otherwise.
pub open spec fn renamed_key(map: Map<Seq<char>, Seq<char>>, key: Seq<char>) -> Seq<char> {
    if map.contains_key(key) {
        map[key]
    } else {
        key
    }
}

/// Apply a font rename `map` to a preserved font dictionary: keys present in
/// the map are renamed to their mapped value, every other key is kept, and
/// all values are carried over. Entries are set in order, so if two keys are
/// renamed to the same name the later entry's value wins.
pub fn apply_font_rename_map(fonts: &Dictionary, map: &NameMap) -> (out: Dictionary)
    requires
        fonts.wf(),
    ensures
        out.wf(),
        out@ == assoc_map(renamed_entries(fonts.entries_view(), map@)),
{
    let mut out = Dictionary::new();
    let n = fonts.entry_count();
    let ghost ev = fonts.entries_view();
    let ghost target = renamed_entries(ev, map@);
    for i in 0..n
        invariant
            n == ev.len(),
            ev == fonts.entries_view(),
            target == renamed_entries(ev, map@),
            out.wf(),
            out@ == assoc_map(target.take(i as int)),
    {
        let key = fonts.key_at(i);
        let value = copy_object(fonts.value_at(i));
        match map.get(key.as_str()) {
            Some(new_key) => out.set(new_key.as_str(), value),
            None => out.set(key.as_str(), value),
        }
        proof {
            assert(target.take(i + 1) =~= target.take(i as int).push(target[i as int]));
            assert(target.take(i + 1).drop_last() =~= target.take(i as int));
        }
    }
    assert(target.take(n as int) =~= target);
    out
}

/// Renaming with a map that sends every key of a dictionary to `Orig` +
/// key gives the dictionary `rename_preserved_fonts` builds: the entries of
/// `apply_font_rename_map` under such a map are exactly the prefixed ones.
pub proof fn lemma_prefix_map_renames_all(
    entries: Seq<(Seq<char>, ObjectView)>,
    map: Map<Seq<char>, Seq<char>>,
)
    requires
        forall|i: int| 0 <= i < entries.len() ==> map.contains_key(#[trigger] entries[i].0) && map[entries[i].0]
            == orig_name(entries[i].0),
    ensures
        assoc_map(renamed_entries(entries, map)) == assoc_map(
            entries.map_values(|p: (Seq<char>, ObjectView)| (orig_name(p.0), p.1)),
        ),
{
    assert(renamed_entries(entries, map) =~= entries.map_values(
        |p: (Seq<char>, ObjectView)| (orig_name(p.0), p.1),
    ));
}

/// A font has embedded font data: its `/FontDescriptor` is a dictionary with
/// a `/FontFile`, `/FontFile2` or `/FontFile3` entry, or is a reference
/// (which might have one).
pub open spec fn embeds_font_data(font: Map<Seq<char>, ObjectView>) -> bool {
    let fd = seq!['F', 'o', 'n', 't', 'D', 'e', 's', 'c', 'r', 'i', 'p', 't', 'o', 'r'];
    let ff = seq!['F', 'o', 'n', 't', 'F', 'i', 'l', 'e'];
    if font.contains_key(fd) {
        match font[fd] {
            ObjectView::Dictionary(es) => assoc_map(es).contains_key(ff) || assoc_map(es).contains_key(
                ff.push('2'),
            ) || assoc_map(es).contains_key(ff.push('3')),
            ObjectView::Reference(_) => true,
            _ => false,
        }
    } else {
        false
    }
}

/// Check if a font has embedded font data (FontFile/FontFile2/FontFile3).
pub fn has_embedded_font_data(font_dict: &Dictionary) -> (r: bool)
    requires
        font_dict.wf(),
    ensures
        r == embeds_font_data(font_dict@),
{
    proof {
        reveal_strlit("FontDescriptor");
        reveal_strlit("FontFile");
        reveal_strlit("FontFile2");
        reveal_strlit("FontFile3");
        assert("FontDescriptor"@ =~= seq!['F', 'o', 'n', 't', 'D', 'e', 's', 'c', 'r', 'i', 'p', 't', 'o', 'r']);
        assert("FontFile"@ =~= seq!['F', 'o', 'n', 't', 'F', 'i', 'l', 'e']);
        assert("FontFile2"@ =~= seq!['F', 'o', 'n', 't', 'F', 'i', 'l', 'e'].push('2'));
        assert("FontFile3"@ =~= seq!['F', 'o', 'n', 't', 'F', 'i', 'l', 'e'].push('3'));
    }
    match font_dict.get("FontDescriptor") {
        Some(obj) => {
            proof {
                lemma_object_view(*obj);
            }
            match obj {
                Object::Dictionary(descriptor) => descriptor.contains_key("FontFile")
                    || descriptor.contains_key("FontFile2") || descriptor.contains_key("FontFile3"),
                Object::Reference(_) => true,
                _ => false,
            }
        },
        None => false,
    }
}


/// The keys of the base-14 fonts injected into a page's `/Font` dictionary.
pub const INJECTED_BASE_FONT_KEYS: [&'static str; 12] = [
    "Helvetica",
    "Helvetica-Bold",
    "Helvetica-Oblique",
    "Helvetica-BoldOblique",
    "Times-Roman",
    "Times-Bold",
    "Times-Italic",
    "Times-BoldItalic",
    "Courier",
    "Courier-Bold",
    "Courier-Oblique",
    "Courier-BoldOblique",
];

/// The `s`-th candidate name for a colliding `key`: `Orig{key}`, then
/// `Orig{key}_1`, `Orig{key}_2`, ...
pub open spec fn candidate(key: Seq<char>, s: nat) -> Seq<char> {
    if s == 0 {
        orig_name(key)
    } else {
        orig_name(key) + seq!['_'] + dec(s)
    }
}

/// `name` cannot be used: it is reserved, a preserved key, or already the
/// new name of some key.
pub open spec fn is_taken(name: Seq<char>, reserved: Set<Seq<char>>, preserved: Set<Seq<char>>, m: Map<Seq<char>, Seq<char>>) -> bool {
    reserved.contains(name) || preserved.contains(name) || m.values().contains(name)
}

/// `s` is the first candidate for `key` that is not taken.
pub open spec fn is_first_free(key: Seq<char>, reserved: Set<Seq<char>>, preserved: Set<Seq<char>>, m: Map<Seq<char>, Seq<char>>, s: nat) -> bool {
    &&& !is_taken(candidate(key, s), reserved, preserved, m)
    &&& forall|t: nat| t < s ==> is_taken(#[trigger] candidate(key, t), reserved, preserved, m)
}

/// The index of the first free candidate for `key`.
pub open spec fn first_free(key: Seq<char>, reserved: Set<Seq<char>>, preserved: Set<Seq<char>>, m: Map<Seq<char>, Seq<char>>) -> nat {
    choose|s: nat| is_first_free(key, reserved, preserved, m, s)
}

/// The rename map after considering `key`: a reserved key gets its first
/// free candidate; any other key is left out.
pub open spec fn collision_step(m: Map<Seq<char>, Seq<char>>, key: Seq<char>, reserved: Set<Seq<char>>, preserved: Set<Seq<char>>) -> Map<Seq<char>, Seq<char>> {
    if reserved.contains(key) {
        m.insert(key, candidate(key, first_free(key, reserved, preserved, m)))
    } else {
        m
    }
}

/// The rename map after considering `keys` in order.
pub open spec fn collision_map(keys: Seq<Seq<char>>, reserved: Set<Seq<char>>, preserved: Set<Seq<char>>) -> Map<Seq<char>, Seq<char>>
    decreases keys.len(),
{
    if keys.len() == 0 {
        Map::empty()
    } else {
        collision_step(collision_map(keys.drop_last(), reserved, preserved), keys.last(), reserved, preserved)
    }
}

proof fn lemma_candidate_injective(key: Seq<char>, a: nat, b: nat)
    requires
        candidate(key, a) == candidate(key, b),
    ensures
        a == b,
{
    lemma_dec_len(a);
    lemma_dec_len(b);
    let p = orig_name(key);
    if a != 0 && b != 0 {
        assert(dec(a) =~= candidate(key, a).subrange(p.len() as int + 1, candidate(key, a).len() as int));
        assert(dec(b) =~= candidate(key, b).subrange(p.len() as int + 1, candidate(key, b).len() as int));
        lemma_dec_injective(a, b);
    } else if a != 0 {
        assert(candidate(key, a).len() > candidate(key, b).len());
    } else if b != 0 {
        assert(candidate(key, b).len() > candidate(key, a).len());
    }
}

/// If the first `n` candidates are all taken, at least `n` names are taken.
proof fn lemma_taken_bound(key: Seq<char>, reserved: Set<Seq<char>>, preserved: Set<Seq<char>>, m: Map<Seq<char>, Seq<char>>, n: nat)
    requires
        reserved.finite(),
        preserved.finite(),
        m.dom().finite(),
        forall|t: nat| t < n ==> is_taken(#[trigger] candidate(key, t), reserved, preserved, m),
    ensures
        n <= reserved.union(preserved).union(m.values()).len(),
        reserved.union(preserved).union(m.values()).finite(),
{
    m.lemma_values_len();
    let tset = reserved.union(preserved).union(m.values());
    let xs = vstd::set_lib::set_int_range(0, n as int);
    vstd::set_lib::lemma_int_range(0, n as int);
    let f = |t: int| candidate(key, t as nat);
    assert(vstd::relations::injective_on(f, xs)) by {
        assert forall|a: int, b: int| xs.contains(a) && xs.contains(b) && #[trigger] f(a) == #[trigger] f(b) implies a == b by {
            lemma_candidate_injective(key, a as nat, b as nat);
        }
    }
    let ys = xs.map(f);
    vstd::set_lib::lemma_map_size(xs, ys, f);
    assert(ys.subset_of(tset)) by {
        assert forall|y: Seq<char>| ys.contains(y) implies tset.contains(y) by {
            let t = choose|t: int| xs.contains(t) && f(t) == y;
            assert(is_taken(candidate(key, t as nat), reserved, preserved, m));
        }
    }
    vstd::set_lib::lemma_len_union(reserved, preserved);
    vstd::set_lib::lemma_len_union(reserved.union(preserved), m.values());
    vstd::set_lib::lemma_len_subset(ys, tset);
}

proof fn lemma_first_free_unique(key: Seq<char>, reserved: Set<Seq<char>>, preserved: Set<Seq<char>>, m: Map<Seq<char>, Seq<char>>, s: nat)
    requires
        is_first_free(key, reserved, preserved, m, s),
    ensures
        first_free(key, reserved, preserved, m) == s,
        is_first_free(key, reserved, preserved, m, first_free(key, reserved, preserved, m)),
{
    let f = first_free(key, reserved, preserved, m);
    assert(is_first_free(key, reserved, preserved, m, f));
    if f < s {
        assert(is_taken(candidate(key, f), reserved, preserved, m));
    } else if s < f {
        assert(is_taken(candidate(key, s), reserved, preserved, m));
    }
}

proof fn lemma_least_free(key: Seq<char>, reserved: Set<Seq<char>>, preserved: Set<Seq<char>>, m: Map<Seq<char>, Seq<char>>, t: nat)
    requires
        !is_taken(candidate(key, t), reserved, preserved, m),
    ensures
        exists|s: nat| is_first_free(key, reserved, preserved, m, s),
    decreases t,
{
    if exists|u: nat| u < t && !is_taken(#[trigger] candidate(key, u), reserved, preserved, m) {
        let u = choose|u: nat| u < t && !is_taken(#[trigger] candidate(key, u), reserved, preserved, m);
        lemma_least_free(key, reserved, preserved, m, u);
    } else {
        assert(is_first_free(key, reserved, preserved, m, t));
    }
}

/// Among finitely many taken names some candidate is free, so the first free
/// candidate exists.
pub proof fn lemma_first_free_exists(key: Seq<char>, reserved: Set<Seq<char>>, preserved: Set<Seq<char>>, m: Map<Seq<char>, Seq<char>>)
    requires
        reserved.finite(),
        preserved.finite(),
        m.dom().finite(),
    ensures
        is_first_free(key, reserved, preserved, m, first_free(key, reserved, preserved, m)),
{
    m.lemma_values_len();
    vstd::set_lib::lemma_len_union(reserved, preserved);
    vstd::set_lib::lemma_len_union(reserved.union(preserved), m.values());
    let n = reserved.union(preserved).union(m.values()).len() + 1;
    if forall|t: nat| t < n ==> is_taken(#[trigger] candidate(key, t), reserved, preserved, m) {
        lemma_taken_bound(key, reserved, preserved, m, n);
    } else {
        let t = choose|t: nat| t < n && !is_taken(#[trigger] candidate(key, t), reserved, preserved, m);
        lemma_least_free(key, reserved, preserved, m, t);
        let s = choose|s: nat| is_first_free(key, reserved, preserved, m, s);
        lemma_first_free_unique(key, reserved, preserved, m, s);
    }
}

/// What the rename map built from `keys` guarantees: exactly the reserved
/// keys are renamed; no new name is reserved or a preserved key; no two keys
/// get the same new name.
pub proof fn lemma_collision_map(keys: Seq<Seq<char>>, reserved: Set<Seq<char>>, preserved: Set<Seq<char>>)
    requires
        reserved.finite(),
        preserved.finite(),
    ensures
        collision_map(keys, reserved, preserved).dom().finite(),
        forall|k: Seq<char>| #[trigger] collision_map(keys, reserved, preserved).contains_key(k)
            <==> keys.contains(k) && reserved.contains(k),
        forall|k: Seq<char>| #[trigger] collision_map(keys, reserved, preserved).contains_key(k)
            ==> !reserved.contains(collision_map(keys, reserved, preserved)[k])
            && !preserved.contains(collision_map(keys, reserved, preserved)[k]),
        forall|k1: Seq<char>, k2: Seq<char>|
            #[trigger] collision_map(keys, reserved, preserved).contains_key(k1)
                && #[trigger] collision_map(keys, reserved, preserved).contains_key(k2) && k1 != k2
                ==> collision_map(keys, reserved, preserved)[k1] != collision_map(keys, reserved, preserved)[k2],
    decreases keys.len(),
{
    if keys.len() > 0 {
        let prev = keys.drop_last();
        lemma_collision_map(prev, reserved, preserved);
        let m0 = collision_map(prev, reserved, preserved);
        let key = keys.last();
        let m = collision_map(keys, reserved, preserved);
        assert forall|k: Seq<char>| keys.contains(k) <==> prev.contains(k) || k == key by {
            if keys.contains(k) {
                let i = choose|i: int| 0 <= i < keys.len() && keys[i] == k;
                if i < keys.len() - 1 {
                    assert(prev[i] == k);
                }
            }
            if prev.contains(k) {
                let i = choose|i: int| 0 <= i < prev.len() && prev[i] == k;
                assert(keys[i] == k);
            }
            if k == key {
                assert(keys[keys.len() - 1] == k);
            }
        }
        if reserved.contains(key) {
            lemma_first_free_exists(key, reserved, preserved, m0);
            let c = candidate(key, first_free(key, reserved, preserved, m0));
            assert(!m0.values().contains(c));
            assert forall|k1: Seq<char>, k2: Seq<char>|
                #[trigger] m.contains_key(k1) && #[trigger] m.contains_key(k2) && k1 != k2 implies m[k1] != m[k2] by {
                if k1 == key {
                    assert(m0.contains_key(k2));
                    assert(m0.values().contains(m0[k2]));
                } else if k2 == key {
                    assert(m0.contains_key(k1));
                    assert(m0.values().contains(m0[k1]));
                }
            }
        }
    }
}

/// The `s`-th candidate name for `key`.
fn build_candidate(key: &str, s: u64) -> (r: String)
    ensures
        r@ == candidate(key@, s as nat),
{
    let mut r = make_orig_name(key);
    if s > 0 {
        let mut tail: Vec<char> = Vec::new();
        tail.push('_');
        let d = dec_chars(s);
        extend_chars(&mut tail, d.as_slice());
        let t = string_of(tail.as_slice());
        r.append(t.as_str());
        assert(tail@ =~= seq!['_'] + dec(s as nat));
    }
    r
}

/// Build a rename map for preserved fonts, disambiguating only the keys that
/// collide with `reserved` (the keys already present in the destination
/// `/Font` dictionary). Each colliding key gets the first of `Orig{key}`,
/// `Orig{key}_1`, `Orig{key}_2`, ... that is neither reserved, nor a
/// preserved key, nor already given to another key; non-colliding keys are
/// absent from the map.
pub fn collision_font_mapping(preserved_keys: &[&str], reserved: &NameSet) -> (map: NameMap)
    requires
        reserved@.len() + 2 * preserved_keys@.len() < u32::MAX,
    ensures
        map@ == collision_map(
            preserved_keys@.map_values(|s: &str| s@),
            reserved@,
            preserved_keys@.map_values(|s: &str| s@).to_set(),
        ),
        forall|k: Seq<char>| #[trigger] map@.contains_key(k) <==> preserved_keys@.map_values(
            |s: &str| s@,
        ).contains(k) && reserved@.contains(k),
        forall|k: Seq<char>| #[trigger] map@.contains_key(k) ==> !reserved@.contains(map@[k])
            && !preserved_keys@.map_values(|s: &str| s@).contains(map@[k]),
        forall|k1: Seq<char>, k2: Seq<char>|
            #[trigger] map@.contains_key(k1) && #[trigger] map@.contains_key(k2) && k1 != k2
                ==> map@[k1] != map@[k2],
{
    let ghost keys = preserved_keys@.map_values(|s: &str| s@);
    let mut pset = NameSet::new();
    for i in 0..preserved_keys.len()
        invariant
            keys == preserved_keys@.map_values(|s: &str| s@),
            pset@ == keys.take(i as int).to_set(),
            pset@.len() <= i,
            pset@.finite(),
    {
        let k = preserved_keys[i].to_owned();
        pset.insert(k);
        proof {
            assert(keys.take(i + 1) =~= keys.take(i as int).push(keys[i as int]));
            keys.take(i as int).lemma_push_to_set_commute(keys[i as int]);
            if !keys.take(i as int).to_set().contains(keys[i as int]) {
                assert(pset@.len() == keys.take(i as int).to_set().len() + 1);
            } else {
                assert(pset@ =~= keys.take(i as int).to_set());
            }
        }
    }
    assert(keys.take(preserved_keys.len() as int) =~= keys);
    let ghost pv = pset@;
    proof {
        vstd::seq_lib::seq_to_set_is_finite(keys);
    }
    let mut map = NameMap::new();
    for i in 0..preserved_keys.len()
        invariant
            keys == preserved_keys@.map_values(|s: &str| s@),
            pset@ == pv,
            pv == keys.to_set(),
            pv.len() <= preserved_keys@.len(),
            reserved@.len() + 2 * preserved_keys@.len() < u32::MAX,
            map@ == collision_map(keys.take(i as int), reserved@, pv),
            map@.dom().finite(),
            map@.dom().len() <= i,
    {
        let key = preserved_keys[i];
        proof {
            assert(keys.take(i + 1).drop_last() =~= keys.take(i as int));
            assert(keys[i as int] == key@);
        }
        if reserved.contains(key) {
            let ghost m0 = map@;
            proof {
                reserved.lemma_finite();
                lemma_first_free_exists(key@, reserved@, pv, m0);
                m0.lemma_values_len();
                vstd::set_lib::lemma_len_union(reserved@, pv);
                vstd::set_lib::lemma_len_union(reserved@.union(pv), m0.values());
            }
            let ghost bound = reserved@.union(pv).union(m0.values()).len();
            let mut s: u64 = 0;
            let mut cand = build_candidate(key, s);
            while reserved.contains(cand.as_str()) || pset.contains(cand.as_str()) || map.has_value(cand.as_str())
                invariant
                    map@ == m0,
                    pset@ == pv,
                    m0.dom().finite(),
                    pv.finite(),
                    reserved@.finite(),
                    cand@ == candidate(key@, s as nat),
                    forall|t: nat| t < s ==> is_taken(#[trigger] candidate(key@, t), reserved@, pv, m0),
                    s <= bound,
                    bound == reserved@.union(pv).union(m0.values()).len(),
                    bound <= reserved@.len() + 2 * preserved_keys@.len(),
                    reserved@.len() + 2 * preserved_keys@.len() < u32::MAX,
                decreases bound - s,
            {
                proof {
                    assert(is_taken(candidate(key@, s as nat), reserved@, pv, m0));
                    assert forall|t: nat| t < s + 1 implies is_taken(#[trigger] candidate(key@, t), reserved@, pv, m0) by {
                        if t < s {
                        }
                    }
                    lemma_taken_bound(key@, reserved@, pv, m0, (s + 1) as nat);
                }
                s += 1;
                cand = build_candidate(key, s);
            }
            proof {
                assert(is_first_free(key@, reserved@, pv, m0, s as nat));
                lemma_first_free_unique(key@, reserved@, pv, m0, s as nat);
            }
            let k = key.to_owned();
            map.insert(k, cand);
        }
        proof {
            assert(map@.dom() =~= collision_map(keys.take(i + 1), reserved@, pv).dom());
        }
    }
    proof {
        assert(keys.take(preserved_keys.len() as int) =~= keys);
        reserved.lemma_finite();
        lemma_collision_map(keys, reserved@, pv);
    }
    map
}

/// The entries `e` with each key renamed by `m`.
pub open spec fn renamed_entries(
    e: Seq<(Seq<char>, ObjectView)>,
    m: Map<Seq<char>, Seq<char>>,
) -> Seq<(Seq<char>, ObjectView)> {
    e.map_values(|p: (Seq<char>, ObjectView)| (renamed_key(m, p.0), p.1))
}

/// The keys of the entries `e`, in order.
pub open spec fn entry_keys(e: Seq<(Seq<char>, ObjectView)>) -> Seq<Seq<char>> {
    e.map_values(|p: (Seq<char>, ObjectView)| p.0)
}

/// Renaming preserved fonts with the collision map built from their own
/// keys loses and shadows none of them and introduces no fresh collision.
///
/// For the entries `e` of a preserved `/Font` dictionary (distinct keys) and
/// the names `reserved` already taken in the destination: the dictionary
/// that `apply_font_rename_map` builds with the map that
/// `collision_font_mapping` builds has one key per preserved font; each font
/// is found, with its value, under its renamed key; a font whose key was not
/// reserved keeps its key; and no key of the result is reserved.
pub proof fn lemma_collision_rename_keeps_fonts(
    e: Seq<(Seq<char>, ObjectView)>,
    reserved: Set<Seq<char>>,
)
    requires
        distinct_keys(e),
        reserved.finite(),
    ensures
        ({
            let keys = entry_keys(e);
            let m = collision_map(keys, reserved, keys.to_set());
            let out = assoc_map(renamed_entries(e, m));
            &&& out.dom().finite()
            &&& out.dom().len() == e.len()
            &&& forall|i: int|
                0 <= i < e.len() ==> out.contains_key(#[trigger] renamed_key(m, e[i].0))
                    && out[renamed_key(m, e[i].0)] == e[i].1
            &&& forall|i: int|
                0 <= i < e.len() && !reserved.contains(#[trigger] e[i].0) ==> renamed_key(m, e[i].0)
                    == e[i].0
            &&& forall|k: Seq<char>| #[trigger] out.contains_key(k) ==> !reserved.contains(k)
        }),
{
    let keys = entry_keys(e);
    let pv = keys.to_set();
    vstd::seq_lib::seq_to_set_is_finite(keys);
    lemma_collision_map(keys, reserved, pv);
    let m = collision_map(keys, reserved, pv);
    let r = renamed_entries(e, m);
    assert forall|i: int| 0 <= i < e.len() implies #[trigger] keys.contains(e[i].0) && pv.contains(
        e[i].0,
    ) by {
        assert(keys[i] == e[i].0);
    }
    assert forall|i: int, j: int| 0 <= i < j < r.len() implies #[trigger] r[i].0 != #[trigger] r[j].0 by {
        let ki = e[i].0;
        let kj = e[j].0;
        assert(ki != kj);
        assert(keys.contains(ki) && keys.contains(kj));
        assert(pv.contains(ki) && pv.contains(kj));
        if m.contains_key(ki) && m.contains_key(kj) {
        } else if m.contains_key(ki) {
            assert(!pv.contains(m[ki]));
        } else if m.contains_key(kj) {
            assert(!pv.contains(m[kj]));
        }
    }
    lemma_assoc_map_len(r);
    assert forall|i: int| 0 <= i < e.len() implies assoc_map(r).contains_key(
        #[trigger] renamed_key(m, e[i].0),
    ) && assoc_map(r)[renamed_key(m, e[i].0)] == e[i].1 by {
        lemma_assoc_map_index(r, i);
    }
    assert forall|i: int| 0 <= i < e.len() && !reserved.contains(#[trigger] e[i].0) implies renamed_key(
        m,
        e[i].0,
    ) == e[i].0 by {
        assert(keys.contains(e[i].0));
    }
    assert forall|k: Seq<char>| #[trigger] assoc_map(r).contains_key(k) implies !reserved.contains(k) by {
        lemma_assoc_map_contains(r, k);
        let i = choose|i: int| 0 <= i < r.len() && #[trigger] r[i].0 == k;
        assert(keys.contains(e[i].0));
    }
}

/// Inside a literal string, a backslash escapes the byte after it: from a
/// backslash, the string ends where it ends from the byte after the escaped
/// one, at the same nesting depth, whatever that byte is. An escaped `(` or
/// `)` neither opens nor closes a level.
pub proof fn lemma_literal_escape(c: Seq<u8>, i: int, depth: int)
    requires
        0 <= i < c.len(),
        depth > 0,
        c[i] == 92,
    ensures
        literal_end(c, i, depth) == literal_end(c, i + 2, depth),
{
}

/// Inside a literal string, an unescaped `(` opens a level and an unescaped
/// `)` closes one; the string ends just after the `)` that closes its first
/// level; any other byte leaves the depth as it is.
pub proof fn lemma_literal_parens(c: Seq<u8>, i: int, depth: int)
    requires
        0 <= i < c.len(),
        depth > 0,
    ensures
        c[i] == 40 ==> literal_end(c, i, depth) == literal_end(c, i + 1, depth + 1),
        c[i] == 41 && depth == 1 ==> literal_end(c, i, depth) == i + 1,
        c[i] == 41 && depth > 1 ==> literal_end(c, i, depth) == literal_end(c, i + 1, depth - 1),
        c[i] != 40 && c[i] != 41 && c[i] != 92 ==> literal_end(c, i, depth) == literal_end(
            c,
            i + 1,
            depth,
        ),
{
    if c[i] == 41 && depth == 1 {
        assert(literal_end(c, i + 1, 0) == i + 1);
    }
}

/// A literal string whose body holds no backslash and no parenthesis but a
/// closing `)` ends just after it: with `(` at `i` and the first `)` after
/// it at `j`, the token read at `i` spans `i..j + 1`.
pub proof fn lemma_plain_literal_token(c: Seq<u8>, i: int, j: int)
    requires
        0 <= i < j < c.len(),
        c[i] == 40,
        c[j] == 41,
        forall|k: int| i < k < j ==> c[k] != 40 && c[k] != 41 && c[k] != 92,
    ensures
        token_step(c, i) == (Some((i, j + 1, TokenKind::Other)), j + 1),
{
    lemma_plain_literal_run(c, i + 1, j);
}

proof fn lemma_plain_literal_run(c: Seq<u8>, p: int, j: int)
    requires
        0 <= p <= j < c.len(),
        c[j] == 41,
        forall|k: int| p <= k < j ==> c[k] != 40 && c[k] != 41 && c[k] != 92,
    ensures
        literal_end(c, p, 1) == j + 1,
    decreases j - p,
{
    if p < j {
        lemma_plain_literal_run(c, p + 1, j);
    } else {
        assert(literal_end(c, j + 1, 0) == j + 1);
    }
}

/// A literal string with an escaped `)` in it: `(a\)(b))` followed by
/// `/F1` is one literal string token of 8 bytes, then the name `/F1`.
pub proof fn lemma_escaped_paren_example()
    ensures
        ({
            let c = seq![40u8, 97u8, 92u8, 41u8, 40u8, 98u8, 41u8, 41u8, 47u8, 70u8, 49u8];
            tokens(c) == seq![(0int, 8int, TokenKind::Other), (8int, 11int, TokenKind::Name)]
        }),
{
    let c = seq![40u8, 97u8, 92u8, 41u8, 40u8, 98u8, 41u8, 41u8, 47u8, 70u8, 49u8];
    assert(literal_end(c, 8, 0) == 8);
    assert(literal_end(c, 7, 1) == 8);
    assert(literal_end(c, 6, 2) == 8);
    assert(literal_end(c, 5, 2) == 8);
    assert(literal_end(c, 4, 1) == 8);
    assert(literal_end(c, 2, 1) == 8);
    assert(literal_end(c, 1, 1) == 8);
    assert(token_step(c, 0) == (Some((0int, 8int, TokenKind::Other)), 8int));
    assert(regular_end(c, 11) == 11);
    assert(regular_end(c, 10) == 11);
    assert(regular_end(c, 9) == 11);
    assert(token_step(c, 8) == (Some((8int, 11int, TokenKind::Name)), 11int));
    assert(tokens_from(c, 11) == Seq::<SpecToken>::empty());
    assert(tokens_from(c, 8) =~= seq![(8int, 11int, TokenKind::Name)]);
    assert(tokens_from(c, 0) =~= seq![(0int, 8int, TokenKind::Other), (8int, 11int, TokenKind::Name)]);
}

/// The byte classes of a content stream (ISO 32000-1 §7.2.2, Tables 1 and
/// 2): the white-space bytes are NUL, TAB, LF, FF, CR and SPACE; the
/// delimiters are `( ) < > [ ] { } / %`; every other byte is regular and
/// may appear in a name or a number.
pub proof fn lemma_byte_classes(b: u8)
    ensures
        is_pdf_ws(b) <==> (b == 0 || b == 9 || b == 10 || b == 12 || b == 13 || b == 32),
        is_pdf_delim(b) <==> (b == 40 || b == 41 || b == 60 || b == 62 || b == 91 || b == 93 || b
            == 123 || b == 125 || b == 47 || b == 37),
        is_regular_byte(b) <==> !(b == 0 || b == 9 || b == 10 || b == 12 || b == 13 || b == 32
            || b == 40 || b == 41 || b == 60 || b == 62 || b == 91 || b == 93 || b == 123 || b
            == 125 || b == 47 || b == 37),
{
}

/// The operator of a font selection is the keyword `Tf`, exactly: a token
/// is `Tf` when it is a keyword of the two bytes `T`, `f`.
pub proof fn lemma_tf_keyword(c: Seq<u8>, t: SpecToken)
    requires
        0 <= t.0 <= t.1 <= c.len(),
    ensures
        is_tf(c, t) <==> (t.2 == TokenKind::Keyword && t.1 - t.0 == 2 && c[t.0] == 84 && c[t.0
            + 1] == 102),
{
    if is_tf(c, t) {
        assert(token_bytes(c, t).len() == seq![84u8, 102u8].len());
        assert(token_bytes(c, t)[0] == seq![84u8, 102u8][0]);
        assert(token_bytes(c, t)[1] == seq![84u8, 102u8][1]);
        assert(token_bytes(c, t)[0] == c[t.0]);
        assert(token_bytes(c, t)[1] == c[t.0 + 1]);
    }
    if t.1 - t.0 == 2 {
        assert(token_bytes(c, t)[0] == c[t.0]);
        assert(token_bytes(c, t)[1] == c[t.0 + 1]);
        if c[t.0] == 84 && c[t.0 + 1] == 102 {
            assert(token_bytes(c, t) =~= seq![84u8, 102u8]);
        }
    }
}

/// A name is renamed only as the operand of a font selection: token `k` has
/// a new name only when it is a name, the next token is a number and the
/// one after that is the keyword `Tf`, and the map has a key whose UTF-8
/// encoding is the name's bytes after `/`; its new name is then that key's
/// value.
pub proof fn lemma_font_target_when(c: Seq<u8>, toks: Seq<SpecToken>, m: Map<Seq<char>, Seq<char>>, k: int)
    requires
        0 <= k < toks.len(),
    ensures
        font_target(c, toks, m, k) is Some <==> (toks[k].2 == TokenKind::Name && k + 2 < toks.len()
            && toks[k + 1].2 == TokenKind::Number && is_tf(c, toks[k + 2]) && exists|q: Seq<char>|
            m.contains_key(q) && encode_utf8(q) == c.subrange(toks[k].0 + 1, toks[k].1)),
        font_target(c, toks, m, k) matches Some(v) ==> exists|q: Seq<char>|
            m.contains_key(q) && encode_utf8(q) == c.subrange(toks[k].0 + 1, toks[k].1) && m[q] == v,
{
}

} // verus!
