//! Character-level helpers shared by the chunkers, the exporter and the
//! content-stream utilities: Unicode whitespace, trimming, joining, decimal
//! rendering, and conversion between strings and character vectors.

use vstd::prelude::*;

verus! {

/// The Unicode `White_Space` property, which is what `char::is_whitespace`
/// tests.
pub open spec fn is_ws(c: char) -> bool {
    let u = c as u32;
    ||| (0x09 <= u && u <= 0x0D)
    ||| u == 0x20
    ||| u == 0x85
    ||| u == 0xA0
    ||| u == 0x1680
    ||| (0x2000 <= u && u <= 0x200A)
    ||| u == 0x2028
    ||| u == 0x2029
    ||| u == 0x202F
    ||| u == 0x205F
    ||| u == 0x3000
}

/// Whether `c` is Unicode whitespace.
pub fn is_whitespace(c: char) -> (r: bool)
    ensures
        r == is_ws(c),
{
    let u = c as u32;
    (0x09 <= u && u <= 0x0D) || u == 0x20 || u == 0x85 || u == 0xA0 || u == 0x1680 || (0x2000
        <= u && u <= 0x200A) || u == 0x2028 || u == 0x2029 || u == 0x202F || u == 0x205F || u
        == 0x3000
}

/// `s` without its leading whitespace.
pub open spec fn trim_start(s: Seq<char>) -> Seq<char>
    decreases s.len(),
{
    if s.len() > 0 && is_ws(s[0]) {
        trim_start(s.drop_first())
    } else {
        s
    }
}

/// `s` without its trailing whitespace.
pub open spec fn trim_end(s: Seq<char>) -> Seq<char>
    decreases s.len(),
{
    if s.len() > 0 && is_ws(s.last()) {
        trim_end(s.drop_last())
    } else {
        s
    }
}

/// `s` without leading and trailing whitespace (what `str::trim` returns).
pub open spec fn trim(s: Seq<char>) -> Seq<char> {
    trim_end(trim_start(s))
}

/// `parts` joined with `sep` between consecutive parts (what `join` on a
/// slice of strings returns).
pub open spec fn join(parts: Seq<Seq<char>>, sep: Seq<char>) -> Seq<char>
    decreases parts.len(),
{
    if parts.len() == 0 {
        Seq::empty()
    } else if parts.len() == 1 {
        parts[0]
    } else {
        join(parts.drop_last(), sep) + sep + parts.last()
    }
}

/// Appending one more part to a join adds the separator and the part.
pub proof fn lemma_join_push(parts: Seq<Seq<char>>, sep: Seq<char>, p: Seq<char>)
    requires
        parts.len() > 0,
    ensures
        join(parts.push(p), sep) == join(parts, sep) + sep + p,
{
    assert(parts.push(p).drop_last() =~= parts);
}

/// The decimal digits of `n`, most significant first, without leading zeros
/// (what `format!("{}", n)` renders for an unsigned integer).
pub open spec fn dec(n: nat) -> Seq<char>
    decreases n,
{
    if n < 10 {
        seq![digit_char(n)]
    } else {
        dec(n / 10).push(digit_char(n % 10))
    }
}

/// The ASCII digit for `d < 10`.
pub open spec fn digit_char(d: nat) -> char {
    if d == 0 { '0' } else if d == 1 { '1' } else if d == 2 { '2' } else if d == 3 { '3' }
    else if d == 4 { '4' } else if d == 5 { '5' } else if d == 6 { '6' } else if d == 7 { '7' }
    else if d == 8 { '8' } else { '9' }
}

fn digit(d: u64) -> (c: char)
    requires
        d < 10,
    ensures
        c == digit_char(d as nat),
{
    if d == 0 { '0' } else if d == 1 { '1' } else if d == 2 { '2' } else if d == 3 { '3' }
    else if d == 4 { '4' } else if d == 5 { '5' } else if d == 6 { '6' } else if d == 7 { '7' }
    else if d == 8 { '8' } else { '9' }
}

/// Decimal rendering never yields an empty string.
pub proof fn lemma_dec_len(n: nat)
    ensures
        dec(n).len() >= 1,
        n >= 10 ==> dec(n).len() >= 2,
    decreases n,
{
    if n >= 10 {
        lemma_dec_len(n / 10);
    }
}

proof fn lemma_digit_char_injective(a: nat, b: nat)
    requires
        a < 10,
        b < 10,
        digit_char(a) == digit_char(b),
    ensures
        a == b,
{
}

/// Two numbers with the same decimal rendering are equal.
pub proof fn lemma_dec_injective(a: nat, b: nat)
    requires
        dec(a) == dec(b),
    ensures
        a == b,
    decreases a + b,
{
    lemma_dec_len(a);
    lemma_dec_len(b);
    if a < 10 && b < 10 {
        assert(dec(a)[0] == digit_char(a));
        assert(dec(b)[0] == digit_char(b));
        lemma_digit_char_injective(a, b);
    } else if a < 10 {
        lemma_dec_len(b / 10);
        assert(dec(b).len() >= 2);
    } else if b < 10 {
        lemma_dec_len(a / 10);
        assert(dec(a).len() >= 2);
    } else {
        assert(dec(a).drop_last() =~= dec(a / 10));
        assert(dec(b).drop_last() =~= dec(b / 10));
        lemma_dec_injective(a / 10, b / 10);
        assert(dec(a).last() == digit_char(a % 10));
        assert(dec(b).last() == digit_char(b % 10));
        lemma_digit_char_injective(a % 10, b % 10);
    }
}

/// The characters of `s`, in order.
pub fn chars_of(s: &str) -> (v: Vec<char>)
    ensures
        v@ == s@,
{
    let mut v: Vec<char> = Vec::new();
    for c in it: s.chars()
        invariant
            v@ == it.seq().take(it.index() as int),
            it.seq() == s@,
    {
        v.push(c);
    }
    v
}

/// Whether two strings hold the same characters (calls `str == str`).
#[verifier::external_body]
pub(crate) fn str_eq(a: &str, b: &str) -> (r: bool)
    ensures
        r == (a@ == b@),
{
    a == b
}

/// Appends `c` to `s` (calls `String::push`).
#[verifier::external_body]
pub(crate) fn push_char(s: &mut String, c: char)
    ensures
        final(s)@ == old(s)@.push(c),
{
    s.push(c);
}

/// Appends the characters of `t` to `s`.
pub fn append_str(s: &mut String, t: &str)
    ensures
        final(s)@ == old(s)@ + t@,
{
    let v = chars_of(t);
    let ghost s0 = s@;
    for i in 0..v.len()
        invariant
            v@ == t@,
            s@ == s0 + v@.take(i as int),
    {
        push_char(s, v[i]);
        assert(v@.take(i + 1) =~= v@.take(i as int).push(v@[i as int]));
    }
    assert(v@.take(v.len() as int) =~= v@);
}

/// `s` without leading and trailing whitespace, as a new string.
pub fn trim_string(s: &str) -> (r: String)
    ensures
        r@ == trim(s@),
{
    let v = chars_of(s);
    let t = trim_chars(v.as_slice());
    string_of(t.as_slice())
}

/// The string made of the characters of `v`.
pub fn string_of(v: &[char]) -> (s: String)
    ensures
        s@ == v@,
{
    let mut s = String::new();
    for i in 0..v.len()
        invariant
            s@ == v@.take(i as int),
    {
        push_char(&mut s, v[i]);
        assert(v@.take(i + 1) =~= v@.take(i as int).push(v@[i as int]));
    }
    assert(v@.take(v.len() as int) =~= v@);
    s
}

/// Appends all of `src` to `dst`.
pub fn extend_chars(dst: &mut Vec<char>, src: &[char])
    ensures
        final(dst)@ == old(dst)@ + src@,
{
    let ghost d0 = dst@;
    for i in 0..src.len()
        invariant
            dst@ == d0 + src@.take(i as int),
    {
        dst.push(src[i]);
        assert(src@.take(i + 1) =~= src@.take(i as int).push(src@[i as int]));
    }
    assert(src@.take(src.len() as int) =~= src@);
}

/// The characters `v[lo..hi]` as a new vector.
pub fn sub_chars(v: &[char], lo: usize, hi: usize) -> (r: Vec<char>)
    requires
        lo <= hi <= v@.len(),
    ensures
        r@ == v@.subrange(lo as int, hi as int),
{
    let mut r: Vec<char> = Vec::new();
    let mut i = lo;
    while i < hi
        invariant
            lo <= i <= hi <= v@.len(),
            r@ == v@.subrange(lo as int, i as int),
        decreases hi - i,
    {
        r.push(v[i]);
        assert(v@.subrange(lo as int, i + 1) =~= v@.subrange(lo as int, i as int).push(v@[i as int]));
        i += 1;
    }
    r
}

proof fn lemma_trim_start_skip(s: Seq<char>, i: int)
    requires
        0 <= i < s.len(),
        is_ws(s[i]),
    ensures
        trim_start(s.skip(i)) == trim_start(s.skip(i + 1)),
{
    assert(s.skip(i).drop_first() =~= s.skip(i + 1));
}

proof fn lemma_trim_end_take(s: Seq<char>, j: int)
    requires
        0 < j <= s.len(),
        is_ws(s[j - 1]),
    ensures
        trim_end(s.take(j)) == trim_end(s.take(j - 1)),
{
    assert(s.take(j).drop_last() =~= s.take(j - 1));
}

/// The bounds `(lo, hi)` of the trimmed part of `v`: `trim(v) == v[lo..hi]`.
pub fn trim_bounds(v: &[char]) -> (r: (usize, usize))
    ensures
        r.0 <= r.1 <= v@.len(),
        trim(v@) == v@.subrange(r.0 as int, r.1 as int),
{
    let n = v.len();
    let mut i: usize = 0;
    assert(v@.skip(0) =~= v@);
    while i < n && is_whitespace(v[i])
        invariant
            i <= n == v@.len(),
            trim_start(v@) == trim_start(v@.skip(i as int)),
        decreases n - i,
    {
        proof {
            lemma_trim_start_skip(v@, i as int);
        }
        i += 1;
    }
    let ghost t = v@.skip(i as int);
    assert(trim_start(v@) == t);
    let mut j: usize = n;
    assert(t.take((j - i) as int) =~= t);
    while j > i && is_whitespace(v[j - 1])
        invariant
            i <= j <= n == v@.len(),
            t == v@.skip(i as int),
            trim_end(t) == trim_end(t.take((j - i) as int)),
        decreases j,
    {
        proof {
            assert(t[(j - i) - 1] == v@[j - 1]);
            lemma_trim_end_take(t, (j - i) as int);
        }
        j -= 1;
    }
    assert(t.take((j - i) as int) =~= v@.subrange(i as int, j as int));
    (i, j)
}

/// `v` without leading and trailing whitespace.
pub fn trim_chars(v: &[char]) -> (r: Vec<char>)
    ensures
        r@ == trim(v@),
{
    let (lo, hi) = trim_bounds(v);
    sub_chars(v, lo, hi)
}

/// `parts` joined with `sep`.
pub fn join_chars(parts: &Vec<Vec<char>>, sep: &[char]) -> (r: Vec<char>)
    ensures
        r@ == join(parts@.map_values(|p: Vec<char>| p@), sep@),
{
    let ghost views = parts@.map_values(|p: Vec<char>| p@);
    let mut r: Vec<char> = Vec::new();
    for i in 0..parts.len()
        invariant
            views == parts@.map_values(|p: Vec<char>| p@),
            r@ == join(views.take(i as int), sep@),
    {
        if i > 0 {
            extend_chars(&mut r, sep);
        }
        extend_chars(&mut r, parts[i].as_slice());
        proof {
            if i > 0 {
                lemma_join_push(views.take(i as int), sep@, views[i as int]);
            }
            assert(views.take(i + 1) =~= views.take(i as int).push(views[i as int]));
        }
    }
    assert(views.take(parts.len() as int) =~= views);
    r
}

/// The decimal rendering of `n`.
pub fn dec_chars(n: u64) -> (r: Vec<char>)
    ensures
        r@ == dec(n as nat),
    decreases n,
{
    if n < 10 {
        let c = digit(n);
        let mut r = Vec::new();
        r.push(c);
        r
    } else {
        let mut r = dec_chars(n / 10);
        let d = n % 10;
        let c = digit(d);
        r.push(c);
        r
    }
}


/// One step of splitting on whitespace: the finished words and the word in
/// progress, after reading `c`.
pub open spec fn ws_step(st: (Seq<Seq<char>>, Seq<char>), c: char) -> (Seq<Seq<char>>, Seq<char>) {
    if is_ws(c) {
        if st.1.len() > 0 {
            (st.0.push(st.1), Seq::empty())
        } else {
            st
        }
    } else {
        (st.0, st.1.push(c))
    }
}

/// The splitting state after reading all of `s`, starting from `st`.
pub open spec fn ws_fold(st: (Seq<Seq<char>>, Seq<char>), s: Seq<char>) -> (
    Seq<Seq<char>>,
    Seq<char>,
)
    decreases s.len(),
{
    if s.len() == 0 {
        st
    } else {
        ws_step(ws_fold(st, s.drop_last()), s.last())
    }
}

/// The empty splitting state.
pub open spec fn ws_init() -> (Seq<Seq<char>>, Seq<char>) {
    (Seq::empty(), Seq::empty())
}

/// The maximal runs of non-whitespace characters of `s`, in order (what
/// `str::split_whitespace` yields).
pub open spec fn words(s: Seq<char>) -> Seq<Seq<char>> {
    let st = ws_fold(ws_init(), s);
    if st.1.len() > 0 {
        st.0.push(st.1)
    } else {
        st.0
    }
}

/// Reading `a` then `b` is reading `a + b`.
pub proof fn lemma_ws_fold_append(st: (Seq<Seq<char>>, Seq<char>), a: Seq<char>, b: Seq<char>)
    ensures
        ws_fold(st, a + b) == ws_fold(ws_fold(st, a), b),
    decreases b.len(),
{
    if b.len() == 0 {
        assert(a + b =~= a);
    } else {
        assert((a + b).drop_last() =~= a + b.drop_last());
        assert((a + b).last() == b.last());
        lemma_ws_fold_append(st, a, b.drop_last());
    }
}

/// Words finished before reading `b` stay in front of the words `b` yields.
pub proof fn lemma_ws_fold_prefix(w: Seq<Seq<char>>, b: Seq<char>)
    ensures
        ws_fold((w, Seq::empty()), b) == (w + ws_fold(ws_init(), b).0, ws_fold(ws_init(), b).1),
    decreases b.len(),
{
    if b.len() == 0 {
        assert(w + Seq::<Seq<char>>::empty() =~= w);
    } else {
        lemma_ws_fold_prefix(w, b.drop_last());
        let st0 = ws_fold(ws_init(), b.drop_last());
        if is_ws(b.last()) && st0.1.len() > 0 {
            assert((w + st0.0).push(st0.1) =~= w + st0.0.push(st0.1));
        }
    }
}

/// Splitting `a`, a whitespace character and `b` yields the words of `a`
/// followed by the words of `b`.
pub proof fn lemma_words_join(a: Seq<char>, sep: char, b: Seq<char>)
    requires
        is_ws(sep),
    ensures
        words(a + seq![sep] + b) == words(a) + words(b),
{
    lemma_ws_fold_append(ws_init(), a + seq![sep], b);
    lemma_ws_fold_append(ws_init(), a, seq![sep]);
    let sa = ws_fold(ws_init(), a);
    assert(seq![sep].drop_last() =~= Seq::<char>::empty());
    let after = ws_fold(sa, seq![sep]);
    assert(ws_fold(sa, seq![sep].drop_last()) == sa);
    assert(seq![sep].last() == sep);
    assert(after == ws_step(sa, sep));
    assert(after.0 == words(a));
    assert(after.1.len() == 0);
    assert(after == (words(a), Seq::<char>::empty()));
    lemma_ws_fold_prefix(words(a), b);
    let sb = ws_fold(ws_init(), b);
    if sb.1.len() > 0 {
        assert((words(a) + sb.0).push(sb.1) =~= words(a) + sb.0.push(sb.1));
    }
}

/// The words of `v`.
pub fn split_whitespace_chars(v: &[char]) -> (r: Vec<Vec<char>>)
    ensures
        r@.map_values(|w: Vec<char>| w@) == words(v@),
{
    let mut done: Vec<Vec<char>> = Vec::new();
    let mut cur: Vec<char> = Vec::new();
    for i in 0..v.len()
        invariant
            (done@.map_values(|w: Vec<char>| w@), cur@) == ws_fold(ws_init(), v@.take(i as int)),
    {
        proof {
            assert(v@.take(i + 1).drop_last() =~= v@.take(i as int));
        }
        let c = v[i];
        if is_whitespace(c) {
            if cur.len() > 0 {
                let ghost d0 = done@.map_values(|w: Vec<char>| w@);
                let w = cur;
                cur = Vec::new();
                let ghost wv = w@;
                done.push(w);
                assert(done@.map_values(|w: Vec<char>| w@) =~= d0.push(wv));
                assert(cur@ =~= Seq::<char>::empty());
            }
        } else {
            cur.push(c);
        }
    }
    assert(v@.take(v.len() as int) =~= v@);
    if cur.len() > 0 {
        let ghost d0 = done@.map_values(|w: Vec<char>| w@);
        let ghost wv = cur@;
        done.push(cur);
        assert(done@.map_values(|w: Vec<char>| w@) =~= d0.push(wv));
    }
    done
}

/// The pieces of `s` between `'\n'` characters (a trailing piece, possibly
/// empty, included).
pub open spec fn split_newlines(s: Seq<char>) -> Seq<Seq<char>> {
    let st = nl_fold(s);
    st.0.push(st.1)
}

/// Finished pieces and the piece in progress after reading `s`.
pub open spec fn nl_fold(s: Seq<char>) -> (Seq<Seq<char>>, Seq<char>)
    decreases s.len(),
{
    if s.len() == 0 {
        (Seq::empty(), Seq::empty())
    } else {
        let st = nl_fold(s.drop_last());
        if s.last() == '\n' {
            (st.0.push(st.1), Seq::empty())
        } else {
            (st.0, st.1.push(s.last()))
        }
    }
}

/// The pieces of `v` between newlines.
pub fn split_newline_chars(v: &[char]) -> (r: Vec<Vec<char>>)
    ensures
        r@.map_values(|w: Vec<char>| w@) == split_newlines(v@),
{
    let mut done: Vec<Vec<char>> = Vec::new();
    let mut cur: Vec<char> = Vec::new();
    for i in 0..v.len()
        invariant
            (done@.map_values(|w: Vec<char>| w@), cur@) == nl_fold(v@.take(i as int)),
    {
        proof {
            assert(v@.take(i + 1).drop_last() =~= v@.take(i as int));
        }
        let c = v[i];
        if c == '\n' {
            let ghost d0 = done@.map_values(|w: Vec<char>| w@);
            let w = cur;
            cur = Vec::new();
            let ghost wv = w@;
            done.push(w);
            assert(done@.map_values(|w: Vec<char>| w@) =~= d0.push(wv));
            assert(cur@ =~= Seq::<char>::empty());
        } else {
            cur.push(c);
        }
    }
    assert(v@.take(v.len() as int) =~= v@);
    let ghost d0 = done@.map_values(|w: Vec<char>| w@);
    let ghost wv = cur@;
    done.push(cur);
    assert(done@.map_values(|w: Vec<char>| w@) =~= d0.push(wv));
    done
}


/// Whether two byte strings are equal.
pub fn bytes_eq(a: &[u8], b: &[u8]) -> (r: bool)
    ensures
        r == (a@ == b@),
{
    if a.len() != b.len() {
        return false;
    }
    let mut i: usize = 0;
    while i < a.len()
        invariant
            a@.len() == b@.len(),
            0 <= i <= a@.len(),
            forall|j: int| 0 <= j < i ==> a@[j] == b@[j],
        decreases a@.len() - i,
    {
        if a[i] != b[i] {
            return false;
        }
        i += 1;
    }
    assert(a@ =~= b@);
    true
}

/// `parts` joined with `sep`.
pub fn join_strings(parts: &[String], sep: &str) -> (s: String)
    ensures
        s@ == join(crate::element::strings_view(parts@), sep@),
{
    let mut s = String::new();
    for i in 0..parts.len()
        invariant
            s@ == join(crate::element::strings_view(parts@).take(i as int), sep@),
    {
        let ghost s0 = s@;
        proof {
            assert(crate::element::strings_view(parts@).take(i + 1) =~= crate::element::strings_view(parts@).take(i as int).push(
                parts@[i as int]@,
            ));
            if i > 0 {
                lemma_join_push(
                    crate::element::strings_view(parts@).take(i as int),
                    sep@,
                    parts@[i as int]@,
                );
            } else {
                assert(crate::element::strings_view(parts@).take(1) =~= seq![parts@[0]@]);
                assert(crate::element::strings_view(parts@).take(0) =~= Seq::<Seq<char>>::empty());
            }
        }
        if i > 0 {
            append_str(&mut s, sep);
        }
        append_str(&mut s, parts[i].as_str());
        assert(s@ =~= join(crate::element::strings_view(parts@).take(i + 1), sep@));
    }
    assert(crate::element::strings_view(parts@).take(parts.len() as int) =~= crate::element::strings_view(parts@));
    s
}

/// The words of each of `parts`, one part after another.
pub open spec fn words_of_all(parts: Seq<Seq<char>>) -> Seq<Seq<char>>
    decreases parts.len(),
{
    if parts.len() == 0 {
        Seq::empty()
    } else {
        words_of_all(parts.drop_last()) + words(parts.last())
    }
}

/// The empty text has no words.
pub proof fn lemma_words_empty()
    ensures
        words(Seq::<char>::empty()) == Seq::<Seq<char>>::empty(),
{
    assert(ws_fold(ws_init(), Seq::<char>::empty()) == ws_init());
}

/// Whitespace at either end of a text adds no word.
pub proof fn lemma_words_ws_ends(c: char, x: Seq<char>)
    requires
        is_ws(c),
    ensures
        words(seq![c] + x) == words(x),
        words(x + seq![c]) == words(x),
{
    lemma_words_empty();
    lemma_words_join(Seq::empty(), c, x);
    assert(Seq::<char>::empty() + seq![c] + x =~= seq![c] + x);
    assert(Seq::<Seq<char>>::empty() + words(x) =~= words(x));
    lemma_words_join(x, c, Seq::empty());
    assert(x + seq![c] + Seq::<char>::empty() =~= x + seq![c]);
    assert(words(x) + Seq::<Seq<char>>::empty() =~= words(x));
}

/// Trimming a text keeps its words.
pub proof fn lemma_words_trim(s: Seq<char>)
    ensures
        words(trim(s)) == words(s),
{
    lemma_words_trim_start(s);
    lemma_words_trim_end(trim_start(s));
}

proof fn lemma_words_trim_start(s: Seq<char>)
    ensures
        words(trim_start(s)) == words(s),
    decreases s.len(),
{
    if s.len() > 0 && is_ws(s[0]) {
        lemma_words_trim_start(s.drop_first());
        lemma_words_ws_ends(s[0], s.drop_first());
        assert(seq![s[0]] + s.drop_first() =~= s);
    }
}

proof fn lemma_words_trim_end(s: Seq<char>)
    ensures
        words(trim_end(s)) == words(s),
    decreases s.len(),
{
    if s.len() > 0 && is_ws(s.last()) {
        lemma_words_trim_end(s.drop_last());
        lemma_words_ws_ends(s.last(), s.drop_last());
        assert(s.drop_last() + seq![s.last()] =~= s);
    }
}

/// Joining texts with a whitespace separator keeps their words in order.
pub proof fn lemma_words_of_join(parts: Seq<Seq<char>>, sep: char)
    requires
        is_ws(sep),
    ensures
        words(join(parts, seq![sep])) == words_of_all(parts),
    decreases parts.len(),
{
    if parts.len() == 0 {
        lemma_words_empty();
    } else if parts.len() == 1 {
        assert(parts.drop_last().len() == 0);
        assert(words_of_all(parts.drop_last()) == Seq::<Seq<char>>::empty());
        assert(Seq::<Seq<char>>::empty() + words(parts[0]) =~= words(parts[0]));
    } else {
        lemma_words_of_join(parts.drop_last(), sep);
        lemma_words_join(join(parts.drop_last(), seq![sep]), sep, parts.last());
    }
}

/// The words of parts joined one after another: the words of the first
/// ones, then of the rest.
pub proof fn lemma_words_of_all_append(a: Seq<Seq<char>>, b: Seq<Seq<char>>)
    ensures
        words_of_all(a + b) == words_of_all(a) + words_of_all(b),
    decreases b.len(),
{
    if b.len() == 0 {
        assert(a + b =~= a);
        assert(words_of_all(a) + words_of_all(b) =~= words_of_all(a));
    } else {
        assert((a + b).drop_last() =~= a + b.drop_last());
        lemma_words_of_all_append(a, b.drop_last());
        assert(words_of_all(a + b) =~= words_of_all(a) + words_of_all(b));
    }
}

/// The characters of `s` that are not whitespace, in order.
pub open spec fn glyphs(s: Seq<char>) -> Seq<char>
    decreases s.len(),
{
    if s.len() == 0 {
        Seq::empty()
    } else if is_ws(s.last()) {
        glyphs(s.drop_last())
    } else {
        glyphs(s.drop_last()).push(s.last())
    }
}

/// The non-whitespace characters of `parts`, part after part.
pub open spec fn glyphs_of_all(parts: Seq<Seq<char>>) -> Seq<char>
    decreases parts.len(),
{
    if parts.len() == 0 {
        Seq::empty()
    } else {
        glyphs_of_all(parts.drop_last()) + glyphs(parts.last())
    }
}

/// The non-whitespace characters of two texts one after the other are
/// those of the first, then those of the second.
pub proof fn lemma_glyphs_add(a: Seq<char>, b: Seq<char>)
    ensures
        glyphs(a + b) == glyphs(a) + glyphs(b),
    decreases b.len(),
{
    if b.len() == 0 {
        assert(a + b =~= a);
        assert(glyphs(a) + glyphs(b) =~= glyphs(a));
    } else {
        assert((a + b).drop_last() =~= a + b.drop_last());
        assert((a + b).last() == b.last());
        lemma_glyphs_add(a, b.drop_last());
        if is_ws(b.last()) {
        } else {
            assert(glyphs(a + b) =~= glyphs(a) + glyphs(b));
        }
    }
}

/// A whitespace character has no glyph.
pub proof fn lemma_glyphs_ws(ch: char)
    requires
        is_ws(ch),
    ensures
        glyphs(seq![ch]) == Seq::<char>::empty(),
{
    assert(seq![ch].drop_last() =~= Seq::<char>::empty());
    assert(seq![ch].last() == ch);
    assert(glyphs(Seq::<char>::empty()) == Seq::<char>::empty());
}

/// Trimming keeps every non-whitespace character.
pub proof fn lemma_glyphs_trim(s: Seq<char>)
    ensures
        glyphs(trim(s)) == glyphs(s),
{
    lemma_glyphs_trim_start(s);
    lemma_glyphs_trim_end(trim_start(s));
}

proof fn lemma_glyphs_trim_start(s: Seq<char>)
    ensures
        glyphs(trim_start(s)) == glyphs(s),
    decreases s.len(),
{
    if s.len() > 0 && is_ws(s[0]) {
        lemma_glyphs_trim_start(s.drop_first());
        assert(s =~= seq![s[0]] + s.drop_first());
        lemma_glyphs_add(seq![s[0]], s.drop_first());
        lemma_glyphs_ws(s[0]);
        assert(Seq::<char>::empty() + glyphs(s.drop_first()) =~= glyphs(s.drop_first()));
    }
}

proof fn lemma_glyphs_trim_end(s: Seq<char>)
    ensures
        glyphs(trim_end(s)) == glyphs(s),
    decreases s.len(),
{
    if s.len() > 0 && is_ws(s.last()) {
        lemma_glyphs_trim_end(s.drop_last());
    }
}

/// Joining with a whitespace separator keeps exactly the non-whitespace
/// characters of the parts, part after part.
pub proof fn lemma_glyphs_join(parts: Seq<Seq<char>>, sep: char)
    requires
        is_ws(sep),
    ensures
        glyphs(join(parts, seq![sep])) == glyphs_of_all(parts),
    decreases parts.len(),
{
    if parts.len() == 1 {
        assert(parts.drop_last() =~= Seq::<Seq<char>>::empty());
        assert(glyphs_of_all(parts.drop_last()) == Seq::<char>::empty());
        assert(parts.last() == parts[0]);
        assert(Seq::<char>::empty() + glyphs(parts[0]) =~= glyphs(parts[0]));
    } else if parts.len() > 1 {
        lemma_glyphs_join(parts.drop_last(), sep);
        let j = join(parts.drop_last(), seq![sep]);
        lemma_glyphs_add(j + seq![sep], parts.last());
        lemma_glyphs_add(j, seq![sep]);
        lemma_glyphs_ws(sep);
        assert(glyphs(j) + Seq::<char>::empty() =~= glyphs(j));
    }
}

} // verus!
