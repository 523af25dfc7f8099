//! Character-sequence helpers shared by the rest of the library.
//!
//! Strings are modelled by their view, a `Seq<char>`. The spec functions here
//! state what `str::trim`, `str::lines`, `str::starts_with` and friends compute,
//! and the executable functions compute the same on `&[char]` / `Vec<char>`.

use vstd::prelude::*;

verus! {

// ───────────────────────────── conversions ─────────────────────────────

/// Calls std's `String::push`. Trusted, not proved: the string afterwards
/// holds its former characters followed by `c`, as the documentation says.
#[verifier::external_body]
pub(crate) fn push_char(s: &mut String, c: char)
    ensures
        final(s)@ == old(s)@.push(c),
{
    s.push(c)
}

/// The characters of a string slice, in order.
pub fn chars_of(s: &str) -> (v: Vec<char>)
    ensures
        v@ == s@,
{
    let mut v: Vec<char> = Vec::new();
    for c in it: s.chars()
        invariant
            v@ == it.seq().take(it.index() as int),
    {
        v.push(c);
    }
    v
}

/// A `String` holding exactly the given characters.
pub fn string_of(v: &[char]) -> (s: String)
    ensures
        s@ == v@,
{
    let mut s = String::new();
    let n = v.len();
    let mut i: usize = 0;
    while i < n
        invariant
            n == v@.len(),
            0 <= i <= n,
            s@ == v@.take(i as int),
        decreases n - i,
    {
        push_char(&mut s, v[i]);
        proof {
            assert(v@.take(i + 1) =~= v@.take(i as int).push(v@[i as int]));
        }
        i = i + 1;
    }
    proof {
        assert(v@.take(n as int) =~= v@);
    }
    s
}

/// Appends `src` to `dst`.
pub fn extend(dst: &mut Vec<char>, src: &[char])
    ensures
        final(dst)@ == old(dst)@ + src@,
{
    let n = src.len();
    let mut i: usize = 0;
    while i < n
        invariant
            n == src@.len(),
            0 <= i <= n,
            dst@ == old(dst)@ + src@.take(i as int),
        decreases n - i,
    {
        dst.push(src[i]);
        proof {
            assert(src@.take(i + 1) =~= src@.take(i as int).push(src@[i as int]));
        }
        i = i + 1;
    }
    proof {
        assert(src@.take(n as int) =~= src@);
    }
}

/// Appends the characters of `src` to `dst`.
pub fn extend_str(dst: &mut Vec<char>, src: &str)
    ensures
        final(dst)@ == old(dst)@ + src@,
{
    let v = chars_of(src);
    extend(dst, v.as_slice());
}

/// A copy of `s[lo..hi]`.
pub fn slice_copy(s: &[char], lo: usize, hi: usize) -> (r: Vec<char>)
    requires
        lo <= hi <= s@.len(),
    ensures
        r@ == s@.subrange(lo as int, hi as int),
{
    let mut r: Vec<char> = Vec::new();
    let mut i = lo;
    while i < hi
        invariant
            lo <= i <= hi <= s@.len(),
            r@ == s@.subrange(lo as int, i as int),
        decreases hi - i,
    {
        r.push(s[i]);
        proof {
            assert(s@.subrange(lo as int, i + 1) =~= s@.subrange(lo as int, i as int).push(
                s@[i as int],
            ));
        }
        i = i + 1;
    }
    r
}

/// Character-wise equality.
pub fn chars_eq(a: &[char], b: &[char]) -> (r: bool)
    ensures
        r == (a@ == b@),
{
    if a.len() != b.len() {
        return false;
    }
    let n = a.len();
    let mut i: usize = 0;
    while i < n
        invariant
            n == a@.len() == b@.len(),
            0 <= i <= n,
            forall|j: int| 0 <= j < i ==> a@[j] == b@[j],
        decreases n - i,
    {
        if a[i] != b[i] {
            return false;
        }
        i = i + 1;
    }
    proof {
        assert(a@ =~= b@);
    }
    true
}

// ───────────────────────────── whitespace ─────────────────────────────

/// The Unicode `White_Space` property, the set of characters that
/// `str::trim` removes.
pub open spec fn is_ws(c: char) -> bool {
    ||| ('\u{9}' <= c && c <= '\u{d}')
    ||| c == ' '
    ||| c == '\u{85}'
    ||| c == '\u{a0}'
    ||| c == '\u{1680}'
    ||| ('\u{2000}' <= c && c <= '\u{200a}')
    ||| c == '\u{2028}'
    ||| c == '\u{2029}'
    ||| c == '\u{202f}'
    ||| c == '\u{205f}'
    ||| c == '\u{3000}'
}

pub fn is_ws_exec(c: char) -> (b: bool)
    ensures
        b == is_ws(c),
{
    ('\u{9}' <= c && c <= '\u{d}') || c == ' ' || c == '\u{85}' || c == '\u{a0}' || c
        == '\u{1680}' || ('\u{2000}' <= c && c <= '\u{200a}') || c == '\u{2028}' || c
        == '\u{2029}' || c == '\u{202f}' || c == '\u{205f}' || c == '\u{3000}'
}

/// `str::trim_start`: leading whitespace removed.
pub open spec fn trim_start(s: Seq<char>) -> Seq<char>
    decreases s.len(),
{
    if s.len() > 0 && is_ws(s[0]) {
        trim_start(s.drop_first())
    } else {
        s
    }
}

/// `str::trim_end`: trailing whitespace removed.
pub open spec fn trim_end(s: Seq<char>) -> Seq<char>
    decreases s.len(),
{
    if s.len() > 0 && is_ws(s.last()) {
        trim_end(s.drop_last())
    } else {
        s
    }
}

/// `str::trim`: leading and trailing whitespace removed.
pub open spec fn trim(s: Seq<char>) -> Seq<char> {
    trim_end(trim_start(s))
}

/// `trim_start` only removes characters from the front; it removes none
/// exactly when the first one is not whitespace.
pub proof fn lemma_trim_start_len(s: Seq<char>)
    ensures
        trim_start(s).len() <= s.len(),
        trim_start(s) == s.skip(s.len() - trim_start(s).len()),
        trim_start(s).len() == s.len() <==> (s.len() == 0 || !is_ws(s[0])),
    decreases s.len(),
{
    if s.len() > 0 && is_ws(s[0]) {
        lemma_trim_start_len(s.drop_first());
        assert(s.drop_first().skip(s.drop_first().len() - trim_start(s.drop_first()).len())
            =~= s.skip(s.len() - trim_start(s).len()));
    } else {
        assert(s.skip(0) =~= s);
    }
}

/// `trim_end` only removes characters from the back; it removes none
/// exactly when the last one is not whitespace.
pub proof fn lemma_trim_end_len(s: Seq<char>)
    ensures
        trim_end(s).len() <= s.len(),
        trim_end(s) == s.take(trim_end(s).len() as int),
        trim_end(s).len() == s.len() <==> (s.len() == 0 || !is_ws(s.last())),
    decreases s.len(),
{
    if s.len() > 0 && is_ws(s.last()) {
        lemma_trim_end_len(s.drop_last());
        assert(s.drop_last().take(trim_end(s.drop_last()).len() as int) =~= s.take(
            trim_end(s).len() as int,
        ));
    } else {
        assert(s.take(s.len() as int) =~= s);
    }
}

/// A string that trimming leaves as it is neither starts nor ends with
/// whitespace.
pub proof fn lemma_trimmed_ends(s: Seq<char>)
    requires
        trim(s) == s,
        s.len() > 0,
    ensures
        !is_ws(s[0]),
        !is_ws(s.last()),
{
    lemma_trim_start_len(s);
    lemma_trim_end_len(trim_start(s));
    assert(trim_start(s).len() == s.len());
    assert(trim_start(s) =~= s) by {
        assert(s.skip(0) =~= s);
    }
}

/// The index of the first non-whitespace character (or the length).
pub fn trim_start_index(s: &[char]) -> (lo: usize)
    ensures
        lo <= s@.len(),
        trim_start(s@) == s@.skip(lo as int),
{
    let n = s.len();
    let mut lo: usize = 0;
    proof {
        assert(s@.skip(0) =~= s@);
    }
    while lo < n && is_ws_exec(s[lo])
        invariant
            0 <= lo <= n,
            n == s@.len(),
            trim_start(s@) == trim_start(s@.skip(lo as int)),
        decreases n - lo,
    {
        proof {
            assert(s@.skip(lo as int).drop_first() =~= s@.skip(lo + 1));
        }
        lo = lo + 1;
    }
    proof {
        if lo == n {
            assert(s@.skip(lo as int).len() == 0);
        } else {
            assert(s@.skip(lo as int)[0] == s@[lo as int]);
        }
    }
    lo
}

/// The index just past the last non-whitespace character of `s[lo..]`.
pub fn trim_end_index(s: &[char], lo: usize) -> (hi: usize)
    requires
        lo <= s@.len(),
    ensures
        lo <= hi <= s@.len(),
        trim_end(s@.skip(lo as int)) == s@.subrange(lo as int, hi as int),
{
    let n = s.len();
    let mut hi: usize = n;
    proof {
        assert(s@.skip(lo as int) =~= s@.subrange(lo as int, n as int));
    }
    while hi > lo && is_ws_exec(s[hi - 1])
        invariant
            lo <= hi <= n,
            n == s@.len(),
            trim_end(s@.skip(lo as int)) == trim_end(s@.subrange(lo as int, hi as int)),
        decreases hi - lo,
    {
        proof {
            assert(s@.subrange(lo as int, hi as int).drop_last() =~= s@.subrange(
                lo as int,
                hi - 1,
            ));
        }
        hi = hi - 1;
    }
    proof {
        let t = s@.subrange(lo as int, hi as int);
        if hi > lo {
            assert(t.last() == s@[hi - 1]);
        }
    }
    hi
}

/// `str::trim` on characters.
pub fn trim_chars(s: &[char]) -> (r: Vec<char>)
    ensures
        r@ == trim(s@),
{
    let lo = trim_start_index(s);
    let hi = trim_end_index(s, lo);
    slice_copy(s, lo, hi)
}

/// `str::trim` on a string slice.
pub fn trim_str(s: &str) -> (r: Vec<char>)
    ensures
        r@ == trim(s@),
{
    let v = chars_of(s);
    trim_chars(v.as_slice())
}

// ───────────────────────────── prefixes and suffixes ─────────────────────────────

/// `s.starts_with(p)`.
pub open spec fn has_prefix(s: Seq<char>, p: Seq<char>) -> bool {
    p.len() <= s.len() && s.take(p.len() as int) == p
}

/// `s.ends_with(p)`.
pub open spec fn has_suffix(s: Seq<char>, p: Seq<char>) -> bool {
    p.len() <= s.len() && s.skip(s.len() - p.len()) == p
}

pub fn starts_with(s: &[char], p: &[char]) -> (r: bool)
    ensures
        r == has_prefix(s@, p@),
{
    if p.len() > s.len() {
        return false;
    }
    let n = p.len();
    let mut i: usize = 0;
    while i < n
        invariant
            n == p@.len() <= s@.len(),
            0 <= i <= n,
            forall|j: int| 0 <= j < i ==> s@[j] == p@[j],
        decreases n - i,
    {
        if s[i] != p[i] {
            proof {
                assert(s@.take(n as int)[i as int] != p@[i as int]);
            }
            return false;
        }
        i = i + 1;
    }
    proof {
        assert(s@.take(n as int) =~= p@);
    }
    true
}

pub fn ends_with(s: &[char], p: &[char]) -> (r: bool)
    ensures
        r == has_suffix(s@, p@),
{
    if p.len() > s.len() {
        return false;
    }
    let n = p.len();
    let off = s.len() - n;
    let mut i: usize = 0;
    while i < n
        invariant
            n == p@.len() <= s@.len(),
            off + n == s.len(),
            0 <= i <= n,
            forall|j: int| 0 <= j < i ==> s@[off + j] == p@[j],
        decreases n - i,
    {
        if s[off + i] != p[i] {
            proof {
                assert(s@.skip(off as int)[i as int] != p@[i as int]);
            }
            return false;
        }
        i = i + 1;
    }
    proof {
        assert(s@.skip(off as int) =~= p@);
    }
    true
}

/// `s.starts_with(p)` with `p` a string literal.
pub fn starts_with_str(s: &[char], p: &str) -> (r: bool)
    ensures
        r == has_prefix(s@, p@),
{
    let pv = chars_of(p);
    starts_with(s, pv.as_slice())
}

/// `s.ends_with(p)` with `p` a string literal.
pub fn ends_with_str(s: &[char], p: &str) -> (r: bool)
    ensures
        r == has_suffix(s@, p@),
{
    let pv = chars_of(p);
    ends_with(s, pv.as_slice())
}

/// `s == p` with `p` a string literal.
pub fn eq_str(s: &[char], p: &str) -> (r: bool)
    ensures
        r == (s@ == p@),
{
    let pv = chars_of(p);
    chars_eq(s, pv.as_slice())
}

/// `s.strip_prefix(p)`.
pub open spec fn strip_prefix(s: Seq<char>, p: Seq<char>) -> Option<Seq<char>> {
    if has_prefix(s, p) {
        Some(s.skip(p.len() as int))
    } else {
        None
    }
}

/// `s.strip_suffix(p)`.
pub open spec fn strip_suffix(s: Seq<char>, p: Seq<char>) -> Option<Seq<char>> {
    if has_suffix(s, p) {
        Some(s.take(s.len() - p.len()))
    } else {
        None
    }
}

pub fn strip_prefix_str(s: &[char], p: &str) -> (r: Option<Vec<char>>)
    ensures
        match r {
            Some(v) => strip_prefix(s@, p@) == Some(v@),
            None => strip_prefix(s@, p@) is None,
        },
{
    let pv = chars_of(p);
    if starts_with(s, pv.as_slice()) {
        Some(slice_copy(s, pv.len(), s.len()))
    } else {
        None
    }
}

pub fn strip_suffix_str(s: &[char], p: &str) -> (r: Option<Vec<char>>)
    ensures
        match r {
            Some(v) => strip_suffix(s@, p@) == Some(v@),
            None => strip_suffix(s@, p@) is None,
        },
{
    let pv = chars_of(p);
    if ends_with(s, pv.as_slice()) {
        Some(slice_copy(s, 0, s.len() - pv.len()))
    } else {
        None
    }
}

// ───────────────────────────── lines ─────────────────────────────

/// The views of a sequence of character vectors.
pub open spec fn views(v: Seq<Vec<char>>) -> Seq<Seq<char>> {
    v.map_values(|x: Vec<char>| x@)
}

/// The pieces of `s.split(d)`: always at least one piece.
pub open spec fn split_on(s: Seq<char>, d: char) -> Seq<Seq<char>>
    decreases s.len(),
{
    if s.len() == 0 {
        seq![Seq::<char>::empty()]
    } else {
        let p = split_on(s.drop_last(), d);
        if s.last() == d {
            p.push(Seq::<char>::empty())
        } else {
            p.update(p.len() - 1, p.last().push(s.last()))
        }
    }
}

/// A line with the `\r` of a `\r\n` terminator removed.
pub open spec fn strip_cr(l: Seq<char>) -> Seq<char> {
    if l.len() > 0 && l.last() == '\r' {
        l.drop_last()
    } else {
        l
    }
}

/// `str::lines`: the pieces between `\n` terminators, with a `\r` before a
/// `\n` removed; a final empty piece (after a last `\n`, or of an empty
/// string) is not a line.
pub open spec fn lines(s: Seq<char>) -> Seq<Seq<char>> {
    let p = split_on(s, '\n');
    let body = p.drop_last().map_values(|l: Seq<char>| strip_cr(l));
    if p.last().len() == 0 {
        body
    } else {
        body.push(p.last())
    }
}

pub proof fn lemma_split_nonempty(s: Seq<char>, d: char)
    ensures
        split_on(s, d).len() >= 1,
    decreases s.len(),
{
    if s.len() > 0 {
        lemma_split_nonempty(s.drop_last(), d);
    }
}

/// A piece without the delimiter is its own only piece.
pub proof fn lemma_split_no_delim(a: Seq<char>, d: char)
    requires
        !a.contains(d),
    ensures
        split_on(a, d) == seq![a],
    decreases a.len(),
{
    if a.len() > 0 {
        assert(!a.drop_last().contains(d)) by {
            if a.drop_last().contains(d) {
                let k = choose|k: int| 0 <= k < a.drop_last().len() && a.drop_last()[k] == d;
                assert(a[k] == d);
            }
        }
        lemma_split_no_delim(a.drop_last(), d);
        assert(a.last() != d) by {
            assert(a[a.len() - 1] == a.last());
        }
        assert(a.drop_last().push(a.last()) =~= a);
        assert(seq![a.drop_last()].update(0, a) =~= seq![a]);
    } else {
        assert(a =~= Seq::<char>::empty());
    }
}

/// Splitting `a`, a delimiter, then `b` gives `a` followed by the pieces of
/// `b`.
pub proof fn lemma_split_concat(a: Seq<char>, b: Seq<char>, d: char)
    requires
        !a.contains(d),
    ensures
        split_on(a + seq![d] + b, d) == seq![a] + split_on(b, d),
    decreases b.len(),
{
    let s = a + seq![d] + b;
    if b.len() == 0 {
        assert(s =~= a.push(d));
        assert(s.drop_last() =~= a);
        lemma_split_no_delim(a, d);
        assert(split_on(s, d) =~= seq![a] + split_on(b, d));
    } else {
        lemma_split_concat(a, b.drop_last(), d);
        lemma_split_nonempty(b.drop_last(), d);
        assert(s.drop_last() =~= a + seq![d] + b.drop_last());
        assert(s.last() == b.last());
        let q = split_on(b.drop_last(), d);
        assert(split_on(s.drop_last(), d) == seq![a] + q);
        if b.last() == d {
            assert(split_on(s, d) =~= (seq![a] + q).push(Seq::<char>::empty()));
            assert(split_on(b, d) == q.push(Seq::<char>::empty()));
            assert((seq![a] + q).push(Seq::<char>::empty()) =~= seq![a] + q.push(
                Seq::<char>::empty(),
            ));
        } else {
            let p = seq![a] + q;
            assert(p.last() == q.last());
            assert(split_on(b, d) == q.update(q.len() - 1, q.last().push(b.last())));
            assert(p.update(p.len() - 1, p.last().push(s.last())) =~= seq![a] + q.update(
                q.len() - 1,
                q.last().push(b.last()),
            ));
        }
    }
}

/// Splitting `a`, a delimiter, then `b` gives the pieces of `a` followed by
/// the pieces of `b`.
pub proof fn lemma_split_append(a: Seq<char>, b: Seq<char>, d: char)
    ensures
        split_on(a + seq![d] + b, d) == split_on(a, d) + split_on(b, d),
    decreases b.len(),
{
    let s = a + seq![d] + b;
    lemma_split_nonempty(a, d);
    if b.len() == 0 {
        assert(s =~= a.push(d));
        assert(s.drop_last() =~= a);
        assert(split_on(s, d) =~= split_on(a, d) + split_on(b, d));
    } else {
        lemma_split_append(a, b.drop_last(), d);
        lemma_split_nonempty(b.drop_last(), d);
        assert(s.drop_last() =~= a + seq![d] + b.drop_last());
        assert(s.last() == b.last());
        let q = split_on(b.drop_last(), d);
        let pa = split_on(a, d);
        if b.last() == d {
            assert((pa + q).push(Seq::<char>::empty()) =~= pa + q.push(Seq::<char>::empty()));
        } else {
            let p = pa + q;
            assert(p.last() == q.last());
            assert(p.update(p.len() - 1, p.last().push(s.last())) =~= pa + q.update(
                q.len() - 1,
                q.last().push(b.last()),
            ));
        }
    }
}

/// The lines of text that ends with a line break, followed by more text, are
/// the lines of each.
pub proof fn lemma_lines_append(a: Seq<char>, b: Seq<char>)
    requires
        a.len() > 0,
        a.last() == '\n',
    ensures
        lines(a + b) == lines(a) + lines(b),
{
    let a0 = a.drop_last();
    assert(a =~= a0 + seq!['\n'] + Seq::<char>::empty());
    assert(a + b =~= a0 + seq!['\n'] + b);
    lemma_split_append(a0, Seq::<char>::empty(), '\n');
    lemma_split_append(a0, b, '\n');
    lemma_split_nonempty(b, '\n');
    lemma_split_nonempty(a0, '\n');
    let pa = split_on(a0, '\n');
    let pb = split_on(b, '\n');
    assert(split_on(Seq::<char>::empty(), '\n') == seq![Seq::<char>::empty()]);
    assert(split_on(a, '\n') =~= pa + seq![Seq::<char>::empty()]);
    assert((pa + seq![Seq::<char>::empty()]).drop_last() =~= pa);
    assert((pa + pb).drop_last() =~= pa + pb.drop_last());
    assert((pa + pb).last() == pb.last());
    let f = |l: Seq<char>| strip_cr(l);
    assert((pa + pb.drop_last()).map_values(f) =~= pa.map_values(f) + pb.drop_last().map_values(f));
    if pb.last().len() != 0 {
        assert((pa.map_values(f) + pb.drop_last().map_values(f)).push(pb.last()) =~= pa.map_values(
            f,
        ) + pb.drop_last().map_values(f).push(pb.last()));
    }
}

/// No piece of a split holds the delimiter.
pub proof fn lemma_split_pieces_lack_delim(s: Seq<char>, d: char)
    ensures
        forall|i: int| 0 <= i < split_on(s, d).len() ==> !(#[trigger] split_on(s, d)[i]).contains(d),
    decreases s.len(),
{
    lemma_split_nonempty(s, d);
    if s.len() > 0 {
        lemma_split_pieces_lack_delim(s.drop_last(), d);
        lemma_split_nonempty(s.drop_last(), d);
        let p = split_on(s.drop_last(), d);
        if s.last() != d {
            let l = p.last().push(s.last());
            assert(!l.contains(d)) by {
                if l.contains(d) {
                    let k = choose|k: int| 0 <= k < l.len() && l[k] == d;
                    if k < p.last().len() {
                        assert(p[p.len() - 1][k] == d);
                    }
                }
            }
        }
    }
}

/// Every character of a piece of a split occurs in the split string.
pub proof fn lemma_split_pieces_within(s: Seq<char>, d: char)
    ensures
        forall|i: int, c: char|
            0 <= i < split_on(s, d).len() && #[trigger] split_on(s, d)[i].contains(c)
                ==> s.contains(c),
    decreases s.len(),
{
    lemma_split_nonempty(s, d);
    if s.len() > 0 {
        let s0 = s.drop_last();
        lemma_split_pieces_within(s0, d);
        lemma_split_nonempty(s0, d);
        let p = split_on(s0, d);
        assert forall|i: int, c: char|
            0 <= i < split_on(s, d).len() && #[trigger] split_on(s, d)[i].contains(c) implies s.contains(
            c,
        ) by {
            let q = split_on(s, d)[i];
            let k = choose|k: int| 0 <= k < q.len() && q[k] == c;
            if i < p.len() - 1 || (i == p.len() - 1 && s.last() == d) {
                assert(q == p[i]);
                assert(p[i].contains(c));
                let m = choose|m: int| 0 <= m < s0.len() && s0[m] == c;
                assert(s[m] == c);
            } else if i == p.len() - 1 {
                assert(q == p.last().push(s.last()));
                if k < p.last().len() {
                    assert(p[p.len() - 1][k] == c);
                    assert(p[p.len() - 1].contains(c));
                    let m = choose|m: int| 0 <= m < s0.len() && s0[m] == c;
                    assert(s[m] == c);
                } else {
                    assert(s[s.len() - 1] == c);
                }
            } else {
                assert(q.len() == 0);
            }
        }
    }
}

/// Every character of a line occurs in the text.
pub proof fn lemma_lines_within(s: Seq<char>)
    ensures
        forall|i: int, c: char|
            0 <= i < lines(s).len() && #[trigger] lines(s)[i].contains(c) ==> s.contains(c),
{
    lemma_split_pieces_within(s, '\n');
    lemma_split_nonempty(s, '\n');
    let p = split_on(s, '\n');
    assert forall|i: int, c: char|
        0 <= i < lines(s).len() && #[trigger] lines(s)[i].contains(c) implies s.contains(c) by {
        if i < p.len() - 1 {
            let q = p[i];
            assert(lines(s)[i] == strip_cr(q));
            let k = choose|k: int| 0 <= k < strip_cr(q).len() && strip_cr(q)[k] == c;
            assert(q[k] == c);
            assert(q.contains(c));
        } else {
            assert(lines(s)[i] == p[p.len() - 1]);
        }
    }
}

/// Trimming keeps a first character that is not whitespace, and takes no
/// character from elsewhere.
pub proof fn lemma_trim_front(s: Seq<char>)
    ensures
        forall|c: char| trim(s).contains(c) ==> s.contains(c),
        s.len() > 0 && !is_ws(s[0]) ==> trim(s).len() > 0 && trim(s)[0] == s[0],
{
    lemma_trim_start_len(s);
    let t = trim_start(s);
    lemma_trim_end_len(t);
    let a = s.len() - t.len();
    assert forall|c: char| trim(s).contains(c) implies s.contains(c) by {
        let k = choose|k: int| 0 <= k < trim(s).len() && trim(s)[k] == c;
        assert(t[k] == c);
        assert(s[a + k] == c);
    }
    if s.len() > 0 && !is_ws(s[0]) {
        assert(t =~= s) by {
            assert(s.skip(0) =~= s);
        }
        lemma_trim_end_keeps_front(s);
    }
}

proof fn lemma_trim_end_keeps_front(s: Seq<char>)
    requires
        s.len() > 0,
        !is_ws(s[0]),
    ensures
        trim_end(s).len() > 0,
        trim_end(s)[0] == s[0],
    decreases s.len(),
{
    lemma_trim_end_len(s);
    if is_ws(s.last()) {
        assert(s.len() > 1) by {
            if s.len() == 1 {
                assert(s.last() == s[0]);
            }
        }
        assert(s.drop_last()[0] == s[0]);
        lemma_trim_end_keeps_front(s.drop_last());
    }
}

/// Trimming leaves a string that neither starts nor ends with whitespace as
/// it is.
pub proof fn lemma_trim_plain(s: Seq<char>)
    requires
        s.len() > 0,
        !is_ws(s[0]),
        !is_ws(s.last()),
    ensures
        trim(s) == s,
{
    lemma_trim_start_len(s);
    assert(trim_start(s) =~= s) by {
        assert(s.skip(0) =~= s);
    }
    lemma_trim_end_len(s);
}

/// Joining the pieces of a split with the delimiter gives the string back.
pub proof fn lemma_join_split(s: Seq<char>, d: char)
    ensures
        join(split_on(s, d), seq![d]) == s,
    decreases s.len(),
{
    if s.len() == 0 {
        assert(split_on(s, d) == seq![Seq::<char>::empty()]);
        assert(s =~= Seq::<char>::empty());
    } else {
        let s0 = s.drop_last();
        lemma_join_split(s0, d);
        lemma_split_nonempty(s0, d);
        let p = split_on(s0, d);
        let q = split_on(s, d);
        if s.last() == d {
            assert(q == p.push(Seq::<char>::empty()));
            assert(q.drop_last() =~= p);
            assert(join(p, seq![d]) + seq![d] + Seq::<char>::empty() =~= s);
        } else {
            let l = p.last().push(s.last());
            assert(q == p.update(p.len() - 1, l));
            if p.len() == 1 {
                assert(join(p, seq![d]) == p[0]);
                assert(q[0] == l);
                assert(l =~= s);
            } else {
                assert(q.drop_last() =~= p.drop_last());
                assert(q.last() == l);
                assert(join(q, seq![d]) == join(p.drop_last(), seq![d]) + seq![d] + l);
                assert(join(p, seq![d]) == join(p.drop_last(), seq![d]) + seq![d] + p.last());
                let jj = join(p.drop_last(), seq![d]) + seq![d];
                assert(jj + l =~= (jj + p.last()).push(s.last()));
                assert(s0.push(s.last()) =~= s);
            }
        }
    }
}

/// Text without carriage returns that ends with a line break is its lines
/// joined by line breaks, with the final line break, and no line of it ends
/// with a carriage return.
pub proof fn lemma_plain_text_lines(c: Seq<char>)
    requires
        !c.contains('\r'),
        c.len() > 0,
        c.last() == '\n',
    ensures
        join(lines(c), seq!['\n']).push('\n') == c,
        forall|i: int| 0 <= i < lines(c).len() ==> strip_cr(#[trigger] lines(c)[i]) == lines(c)[i],
{
    let c0 = c.drop_last();
    lemma_split_nonempty(c0, '\n');
    let p = split_on(c0, '\n');
    assert(split_on(c, '\n') == p.push(Seq::<char>::empty()));
    assert(p.push(Seq::<char>::empty()).drop_last() =~= p);
    lemma_split_pieces_within(c0, '\n');
    assert forall|i: int| 0 <= i < p.len() implies strip_cr(#[trigger] p[i]) == p[i] by {
        if p[i].len() > 0 && p[i].last() == '\r' {
            assert(p[i][p[i].len() - 1] == '\r');
            assert(p[i].contains('\r'));
            let m = choose|m: int| 0 <= m < c0.len() && c0[m] == '\r';
            assert(c[m] == '\r');
        }
    }
    let f = |l: Seq<char>| strip_cr(l);
    assert(lines(c) == p.map_values(f));
    assert forall|i: int| 0 <= i < p.len() implies #[trigger] p.map_values(f)[i] == p[i] by {}
    assert(lines(c) =~= p);
    lemma_join_split(c0, '\n');
    assert(c0.push('\n') =~= c);
}

/// No line holds a line break.
pub proof fn lemma_lines_lack_newline(s: Seq<char>)
    ensures
        forall|i: int| 0 <= i < lines(s).len() ==> !(#[trigger] lines(s)[i]).contains('\n'),
{
    lemma_split_pieces_lack_delim(s, '\n');
    lemma_split_nonempty(s, '\n');
    let p = split_on(s, '\n');
    assert forall|i: int| 0 <= i < lines(s).len() implies !(#[trigger] lines(s)[i]).contains(
        '\n',
    ) by {
        if i < p.len() - 1 {
            let q = p[i];
            assert(lines(s)[i] == strip_cr(q));
            if strip_cr(q).contains('\n') {
                let k = choose|k: int| 0 <= k < strip_cr(q).len() && strip_cr(q)[k] == '\n';
                assert(q[k] == '\n');
            }
        } else {
            assert(lines(s)[i] == p.last());
        }
    }
}

/// A line without a line break or a final `\r`, with its line break, is that
/// one line.
pub proof fn lemma_line_single(l: Seq<char>)
    requires
        !l.contains('\n'),
        strip_cr(l) == l,
    ensures
        lines(l + seq!['\n']) == seq![l],
{
    lemma_split_concat(l, Seq::<char>::empty(), '\n');
    assert(l + seq!['\n'] =~= l + seq!['\n'] + Seq::<char>::empty());
    assert(split_on(Seq::<char>::empty(), '\n') == seq![Seq::<char>::empty()]);
    assert(split_on(l + seq!['\n'], '\n') =~= seq![l, Seq::<char>::empty()]);
    assert(seq![l, Seq::<char>::empty()].drop_last() =~= seq![l]);
    assert(seq![l].map_values(|x: Seq<char>| strip_cr(x)) =~= seq![l]);
}

/// Lines joined by line breaks, with a final line break, read back as the
/// same lines.
pub proof fn lemma_lines_of_joined(parts: Seq<Seq<char>>)
    requires
        parts.len() > 0,
        forall|i: int|
            0 <= i < parts.len() ==> !(#[trigger] parts[i]).contains('\n') && strip_cr(parts[i])
                == parts[i],
    ensures
        lines(join(parts, seq!['\n']) + seq!['\n']) == parts,
    decreases parts.len(),
{
    let last = parts.last();
    assert(!last.contains('\n') && strip_cr(last) == last) by {
        assert(parts[parts.len() - 1] == last);
    }
    lemma_line_single(last);
    if parts.len() == 1 {
        assert(parts =~= seq![last]);
    } else {
        let init = parts.drop_last();
        assert forall|i: int| 0 <= i < init.len() implies !(#[trigger] init[i]).contains('\n')
            && strip_cr(init[i]) == init[i] by {
            assert(init[i] == parts[i]);
        }
        lemma_lines_of_joined(init);
        let a = join(init, seq!['\n']) + seq!['\n'];
        assert(join(parts, seq!['\n']) + seq!['\n'] =~= a + (last + seq!['\n']));
        lemma_lines_append(a, last + seq!['\n']);
        assert(init + seq![last] =~= parts);
    }
}

/// `s.split(d)` on characters.
pub fn split_chars(s: &[char], d: char) -> (r: Vec<Vec<char>>)
    ensures
        views(r@) == split_on(s@, d),
{
    let n = s.len();
    let mut done: Vec<Vec<char>> = Vec::new();
    let mut cur: Vec<char> = Vec::new();
    let mut i: usize = 0;
    proof {
        assert(s@.take(0) =~= Seq::<char>::empty());
        assert(views(done@) =~= split_on(s@.take(0), d).drop_last());
    }
    while i < n
        invariant
            n == s@.len(),
            0 <= i <= n,
            split_on(s@.take(i as int), d).len() >= 1,
            views(done@) == split_on(s@.take(i as int), d).drop_last(),
            cur@ == split_on(s@.take(i as int), d).last(),
        decreases n - i,
    {
        let c = s[i];
        let ghost t = s@.take(i + 1);
        let ghost p = split_on(s@.take(i as int), d);
        proof {
            assert(t.drop_last() =~= s@.take(i as int));
            assert(t.last() == c);
        }
        if c == d {
            let ghost old_dv = views(done@);
            let ghost cur_v = cur@;
            done.push(cur);
            cur = Vec::new();
            proof {
                assert(split_on(t, d) == p.push(Seq::<char>::empty()));
                assert(split_on(t, d).drop_last() =~= p);
                assert(views(done@) =~= old_dv.push(cur_v));
                assert(p.drop_last().push(p.last()) =~= p);
            }
        } else {
            cur.push(c);
            proof {
                assert(split_on(t, d) == p.update(p.len() - 1, p.last().push(c)));
                assert(split_on(t, d).drop_last() =~= p.drop_last());
            }
        }
        i = i + 1;
    }
    proof {
        assert(s@.take(n as int) =~= s@);
    }
    let ghost old_dv = views(done@);
    let ghost cur_v = cur@;
    done.push(cur);
    proof {
        let p = split_on(s@, d);
        assert(views(done@) =~= old_dv.push(cur_v));
        assert(p.drop_last().push(p.last()) =~= p);
    }
    done
}

pub fn strip_cr_exec(l: Vec<char>) -> (r: Vec<char>)
    ensures
        r@ == strip_cr(l@),
{
    let mut l = l;
    if l.len() > 0 && l[l.len() - 1] == '\r' {
        l.pop();
    }
    l
}

/// `str::lines` on characters.
pub fn lines_of(s: &[char]) -> (r: Vec<Vec<char>>)
    ensures
        views(r@) == lines(s@),
{
    let n = s.len();
    let mut done: Vec<Vec<char>> = Vec::new();
    let mut cur: Vec<char> = Vec::new();
    let mut i: usize = 0;
    proof {
        assert(s@.take(0) =~= Seq::<char>::empty());
        assert(views(done@) =~= split_on(s@.take(0), '\n').drop_last().map_values(
            |l: Seq<char>| strip_cr(l),
        ));
    }
    while i < n
        invariant
            n == s@.len(),
            0 <= i <= n,
            split_on(s@.take(i as int), '\n').len() >= 1,
            views(done@) == split_on(s@.take(i as int), '\n').drop_last().map_values(
                |l: Seq<char>| strip_cr(l),
            ),
            cur@ == split_on(s@.take(i as int), '\n').last(),
        decreases n - i,
    {
        let c = s[i];
        let ghost t = s@.take(i + 1);
        let ghost p = split_on(s@.take(i as int), '\n');
        proof {
            assert(t.drop_last() =~= s@.take(i as int));
            assert(t.last() == c);
        }
        if c == '\n' {
            let line = strip_cr_exec(cur);
            let ghost old_dv = views(done@);
            let ghost line_v = line@;
            done.push(line);
            cur = Vec::new();
            proof {
                assert(split_on(t, '\n') == p.push(Seq::<char>::empty()));
                assert(split_on(t, '\n').drop_last() =~= p);
                assert(views(done@) =~= old_dv.push(line_v));
                assert(p.drop_last().push(p.last()) =~= p);
                assert(views(done@) =~= p.map_values(|l: Seq<char>| strip_cr(l)));
            }
        } else {
            cur.push(c);
            proof {
                assert(split_on(t, '\n') == p.update(p.len() - 1, p.last().push(c)));
                assert(split_on(t, '\n').drop_last() =~= p.drop_last());
            }
        }
        i = i + 1;
    }
    proof {
        assert(s@.take(n as int) =~= s@);
    }
    let ghost old_dv = views(done@);
    let ghost cur_v = cur@;
    if cur.len() > 0 {
        done.push(cur);
        proof {
            assert(views(done@) =~= old_dv.push(cur_v));
        }
    }
    proof {
        assert(views(done@) =~= lines(s@));
    }
    done
}

/// `parts.join(sep)`.
pub open spec fn join(parts: Seq<Seq<char>>, sep: Seq<char>) -> Seq<char>
    decreases parts.len(),
{
    if parts.len() == 0 {
        Seq::<char>::empty()
    } else if parts.len() == 1 {
        parts[0]
    } else {
        join(parts.drop_last(), sep) + sep + parts.last()
    }
}

/// `parts.join(sep)` on characters.
pub fn join_chars(parts: &Vec<Vec<char>>, sep: &[char]) -> (r: Vec<char>)
    ensures
        r@ == join(views(parts@), sep@),
{
    let n = parts.len();
    let mut out: Vec<char> = Vec::new();
    let mut i: usize = 0;
    proof {
        assert(views(parts@).take(0) =~= Seq::<Seq<char>>::empty());
    }
    while i < n
        invariant
            n == parts@.len(),
            0 <= i <= n,
            out@ == join(views(parts@).take(i as int), sep@),
        decreases n - i,
    {
        let ghost pd = views(parts@);
        proof {
            assert(pd.take(i + 1).drop_last() =~= pd.take(i as int));
            assert(pd.take(i + 1).last() == parts@[i as int]@);
        }
        if i > 0 {
            extend(&mut out, sep);
        } else {
            proof {
                assert(pd.take(1) =~= seq![pd[0]]);
            }
        }
        extend(&mut out, parts[i].as_slice());
        i = i + 1;
    }
    proof {
        assert(views(parts@).take(n as int) =~= views(parts@));
    }
    out
}

// ───────────────────────────── searching ─────────────────────────────

/// `p` occurs in `t` starting at index `k`.
pub open spec fn occurs_at(t: Seq<char>, k: int, p: Seq<char>) -> bool {
    0 <= k && k + p.len() <= t.len() && t.subrange(k, k + p.len()) == p
}

/// `p` occurs somewhere in `t` (`str::contains`).
pub open spec fn contains_sub(t: Seq<char>, p: Seq<char>) -> bool {
    exists|k: int| occurs_at(t, k, p)
}

/// `k` is the first index at which `p` occurs in `t`.
pub open spec fn is_first_occurrence(t: Seq<char>, p: Seq<char>, k: int) -> bool {
    occurs_at(t, k, p) && forall|j: int| 0 <= j < k ==> !occurs_at(t, j, p)
}

pub fn occurs_at_exec(t: &[char], k: usize, p: &[char]) -> (b: bool)
    ensures
        b == occurs_at(t@, k as int, p@),
{
    if k > t.len() || p.len() > t.len() - k {
        return false;
    }
    let n = p.len();
    let mut i: usize = 0;
    while i < n
        invariant
            n == p@.len(),
            k + n <= t.len(),
            0 <= i <= n,
            forall|j: int| 0 <= j < i ==> t@[k + j] == p@[j],
        decreases n - i,
    {
        if t[k + i] != p[i] {
            proof {
                assert(t@.subrange(k as int, k + n)[i as int] != p@[i as int]);
            }
            return false;
        }
        i = i + 1;
    }
    proof {
        assert(t@.subrange(k as int, k + n) =~= p@);
    }
    true
}

/// The first index at or after `from` at which `p` occurs in `t`.
pub fn find_from(t: &[char], from: usize, p: &[char]) -> (r: Option<usize>)
    requires
        from <= t@.len(),
    ensures
        match r {
            Some(k) => from <= k && occurs_at(t@, k as int, p@) && forall|j: int|
                from <= j < k ==> !occurs_at(t@, j, p@),
            None => forall|j: int| from <= j ==> !occurs_at(t@, j, p@),
        },
{
    let n = t.len();
    let mut k = from;
    while k < n
        invariant
            n == t@.len(),
            from <= k <= n,
            forall|j: int| from <= j < k ==> !occurs_at(t@, j, p@),
        decreases n - k,
    {
        if occurs_at_exec(t, k, p) {
            return Some(k);
        }
        k = k + 1;
    }
    if occurs_at_exec(t, n, p) {
        return Some(n);
    }
    None
}

/// Every character is an ASCII digit, and there is at least one.
pub open spec fn all_digits(s: Seq<char>) -> bool {
    s.len() > 0 && forall|i: int| 0 <= i < s.len() ==> '0' <= #[trigger] s[i] && s[i] <= '9'
}

pub fn all_digits_exec(s: &[char]) -> (b: bool)
    ensures
        b == all_digits(s@),
{
    if s.len() == 0 {
        return false;
    }
    let n = s.len();
    let mut i: usize = 0;
    while i < n
        invariant
            n == s@.len(),
            0 <= i <= n,
            forall|j: int| 0 <= j < i ==> '0' <= #[trigger] s@[j] && s@[j] <= '9',
        decreases n - i,
    {
        if !('0' <= s[i] && s[i] <= '9') {
            return false;
        }
        i = i + 1;
    }
    true
}

// ───────────────────────────── numbers ─────────────────────────────

/// The number that a run of ASCII digits spells in decimal.
pub open spec fn digits_value(d: Seq<char>) -> nat
    decreases d.len(),
{
    if d.len() == 0 {
        0
    } else {
        digits_value(d.drop_last()) * 10 + ((d.last() as nat) - ('0' as nat)) as nat
    }
}

/// The digits of an unsigned-integer literal: an optional leading `+` removed.
pub open spec fn unsigned_digits(s: Seq<char>) -> Seq<char> {
    if s.len() > 0 && s[0] == '+' {
        s.drop_first()
    } else {
        s
    }
}

/// What `str::parse` gives for an unsigned integer type whose largest value is
/// `max`: an optional `+`, then one or more ASCII digits, with a value no
/// larger than `max`.
pub open spec fn parse_unsigned(s: Seq<char>, max: nat) -> Option<nat> {
    let d = unsigned_digits(s);
    if all_digits(d) && digits_value(d) <= max {
        Some(digits_value(d))
    } else {
        None
    }
}

pub fn parse_unsigned_exec(s: &[char], max: u64) -> (r: Option<u64>)
    ensures
        match r {
            Some(v) => parse_unsigned(s@, max as nat) == Some(v as nat),
            None => parse_unsigned(s@, max as nat) is None,
        },
{
    let start: usize = if s.len() > 0 && s[0] == '+' {
        1
    } else {
        0
    };
    let ghost d = unsigned_digits(s@);
    proof {
        assert(d =~= s@.skip(start as int));
    }
    let n = s.len();
    if start == n {
        return None;
    }
    let mut acc: u64 = 0;
    let mut i = start;
    proof {
        assert(d.take(0) =~= Seq::<char>::empty());
    }
    while i < n
        invariant
            start <= i <= n,
            n == s@.len(),
            d == s@.skip(start as int),
            d == unsigned_digits(s@),
            acc as nat == digits_value(d.take(i - start)),
            acc <= max,
            forall|j: int| 0 <= j < i - start ==> '0' <= #[trigger] d[j] && d[j] <= '9',
        decreases n - i,
    {
        let c = s[i];
        proof {
            assert(d[i - start] == c);
        }
        if !('0' <= c && c <= '9') {
            proof {
                assert(!all_digits(d));
            }
            return None;
        }
        let dv: u64 = (c as u64) - ('0' as u64);
        let ghost prefix = d.take(i - start + 1);
        proof {
            assert(prefix.drop_last() =~= d.take(i - start));
            assert(prefix.last() == c);
        }
        if dv > max || acc > (max - dv) / 10 {
            proof {
                assert(digits_value(prefix) == acc * 10 + dv);
                assert(digits_value(prefix) > max) by (nonlinear_arith)
                    requires
                        digits_value(prefix) == acc * 10 + dv,
                        dv > max || acc > (max - dv) / 10,
                        acc >= 0,
                ;
                if all_digits(d) {
                    lemma_digits_value_prefix_le(d, i - start + 1);
                }
            }
            return None;
        }
        acc = acc * 10 + dv;
        i = i + 1;
    }
    proof {
        assert(d.take(n - start) =~= d);
    }
    Some(acc)
}

/// A longer run of digits is worth at least as much as its prefix.
pub proof fn lemma_digits_value_prefix_le(d: Seq<char>, k: int)
    requires
        0 <= k <= d.len(),
        forall|j: int| 0 <= j < d.len() ==> '0' <= #[trigger] d[j] && d[j] <= '9',
    ensures
        digits_value(d.take(k)) <= digits_value(d),
    decreases d.len() - k,
{
    if k < d.len() {
        lemma_digits_value_prefix_le(d, k + 1);
        let p = d.take(k + 1);
        assert(p.drop_last() =~= d.take(k));
        assert(digits_value(p) >= digits_value(d.take(k))) by (nonlinear_arith)
            requires
                digits_value(p) == digits_value(d.take(k)) * 10 + ((p.last() as nat) - (
                '0' as nat)) as nat,
        ;
    } else {
        assert(d.take(k) =~= d);
    }
}

// ───────────────────────────── lists of strings ─────────────────────────────

/// The views of a sequence of strings.
pub open spec fn str_views(v: Seq<String>) -> Seq<Seq<char>> {
    v.map_values(|x: String| x@)
}

/// Each string as a character vector.
pub fn char_vecs(v: &Vec<String>) -> (r: Vec<Vec<char>>)
    ensures
        views(r@) == str_views(v@),
{
    let n = v.len();
    let mut r: Vec<Vec<char>> = Vec::new();
    let mut i: usize = 0;
    while i < n
        invariant
            n == v@.len(),
            0 <= i <= n,
            views(r@) == str_views(v@).take(i as int),
        decreases n - i,
    {
        let ghost before = views(r@);
        let c = chars_of(v[i].as_str());
        r.push(c);
        proof {
            assert(views(r@) =~= before.push(v@[i as int]@));
            assert(str_views(v@).take(i + 1) =~= str_views(v@).take(i as int).push(v@[i as int]@));
        }
        i = i + 1;
    }
    proof {
        assert(str_views(v@).take(n as int) =~= str_views(v@));
    }
    r
}

/// Each character vector as a string.
pub fn strings_of(v: &Vec<Vec<char>>) -> (r: Vec<String>)
    ensures
        str_views(r@) == views(v@),
{
    let n = v.len();
    let mut r: Vec<String> = Vec::new();
    let mut i: usize = 0;
    while i < n
        invariant
            n == v@.len(),
            0 <= i <= n,
            str_views(r@) == views(v@).take(i as int),
        decreases n - i,
    {
        let ghost before = str_views(r@);
        let s = string_of(v[i].as_slice());
        r.push(s);
        proof {
            assert(str_views(r@) =~= before.push(v@[i as int]@));
            assert(views(v@).take(i + 1) =~= views(v@).take(i as int).push(v@[i as int]@));
        }
        i = i + 1;
    }
    proof {
        assert(views(v@).take(n as int) =~= views(v@));
    }
    r
}

/// Whether `x` is one of `list`.
pub fn member(list: &Vec<Vec<char>>, x: &[char]) -> (b: bool)
    ensures
        b == views(list@).contains(x@),
{
    let n = list.len();
    let mut i: usize = 0;
    while i < n
        invariant
            n == list@.len(),
            0 <= i <= n,
            forall|j: int| 0 <= j < i ==> list@[j]@ != x@,
        decreases n - i,
    {
        if chars_eq(list[i].as_slice(), x) {
            proof {
                assert(views(list@)[i as int] == x@);
            }
            return true;
        }
        i = i + 1;
    }
    proof {
        if views(list@).contains(x@) {
            let j = choose|j: int| 0 <= j < views(list@).len() && views(list@)[j] == x@;
            assert(list@[j]@ == x@);
        }
    }
    false
}

/// `a + b` as a new vector.
pub fn concat(a: &[char], b: &[char]) -> (r: Vec<char>)
    ensures
        r@ == a@ + b@,
{
    let mut r = slice_copy(a, 0, a.len());
    proof {
        assert(a@.subrange(0, a@.len() as int) =~= a@);
    }
    extend(&mut r, b);
    r
}

/// `a + b` with `b` a string literal.
pub fn concat_str(a: &[char], b: &str) -> (r: Vec<char>)
    ensures
        r@ == a@ + b@,
{
    let bv = chars_of(b);
    concat(a, bv.as_slice())
}

/// `a + b` with `a` a string literal.
pub fn str_concat(a: &str, b: &[char]) -> (r: Vec<char>)
    ensures
        r@ == a@ + b@,
{
    let av = chars_of(a);
    concat(av.as_slice(), b)
}

// ───────────────────────────── paths ─────────────────────────────

/// `Path::join` on Unix: an absolute `part` replaces `base`; otherwise `part`
/// is appended, with a `/` between unless `base` is empty or already ends
/// with one.
pub open spec fn joined_path(base: Seq<char>, part: Seq<char>) -> Seq<char> {
    if part.len() > 0 && part[0] == '/' {
        part
    } else if base.len() == 0 || base.last() == '/' {
        base + part
    } else {
        base + seq!['/'] + part
    }
}

pub fn join_path(base: &[char], part: &[char]) -> (r: Vec<char>)
    ensures
        r@ == joined_path(base@, part@),
{
    if part.len() > 0 && part[0] == '/' {
        return slice_copy(part, 0, part.len());
    }
    if base.len() == 0 || base[base.len() - 1] == '/' {
        return concat(base, part);
    }
    let mut r = concat_str(base, "/");
    proof {
        reveal_strlit("/");
        assert("/"@ =~= seq!['/']);
    }
    extend(&mut r, part);
    r
}

// ───────────────────────────── single characters ─────────────────────────────

/// The index of the first `c` in `s`, or -1 when there is none.
pub open spec fn char_index(s: Seq<char>, c: char) -> int
    decreases s.len(),
{
    if s.len() == 0 {
        -1
    } else if s[0] == c {
        0
    } else {
        let r = char_index(s.drop_first(), c);
        if r < 0 {
            -1
        } else {
            r + 1
        }
    }
}

pub proof fn lemma_char_index(s: Seq<char>, c: char)
    ensures
        -1 <= char_index(s, c) < s.len(),
        char_index(s, c) >= 0 ==> s[char_index(s, c)] == c,
        forall|j: int| 0 <= j < s.len() && (j < char_index(s, c) || char_index(s, c) < 0) ==> s[j] != c,
    decreases s.len(),
{
    if s.len() > 0 && s[0] != c {
        lemma_char_index(s.drop_first(), c);
        let r = char_index(s.drop_first(), c);
        assert forall|j: int|
            0 <= j < s.len() && (j < char_index(s, c) || char_index(s, c) < 0) implies s[j] != c by {
            if j > 0 {
                assert(s[j] == s.drop_first()[j - 1]);
            }
        }
    }
}

/// The index of the first `c` in `s`.
pub fn find_char(s: &[char], c: char) -> (r: Option<usize>)
    ensures
        match r {
            Some(i) => i as int == char_index(s@, c) && i < s@.len() && s@[i as int] == c,
            None => char_index(s@, c) == -1,
        },
{
    let n = s.len();
    let mut i: usize = 0;
    proof {
        lemma_char_index(s@, c);
    }
    while i < n
        invariant
            n == s@.len(),
            0 <= i <= n,
            forall|j: int| 0 <= j < i ==> s@[j] != c,
            -1 <= char_index(s@, c) < s@.len(),
            char_index(s@, c) >= 0 ==> s@[char_index(s@, c)] == c,
            forall|j: int|
                0 <= j < s@.len() && (j < char_index(s@, c) || char_index(s@, c) < 0) ==> s@[j]
                    != c,
        decreases n - i,
    {
        if s[i] == c {
            return Some(i);
        }
        i = i + 1;
    }
    None
}

/// Each character in `from` replaced by `to`.
pub open spec fn map_chars(s: Seq<char>, from: Seq<char>, to: char) -> Seq<char> {
    s.map_values(|c: char| if from.contains(c) { to } else { c })
}

pub fn map_chars_exec(s: &[char], from: &[char], to: char) -> (r: Vec<char>)
    ensures
        r@ == map_chars(s@, from@, to),
{
    let n = s.len();
    let mut r: Vec<char> = Vec::new();
    let mut i: usize = 0;
    while i < n
        invariant
            n == s@.len(),
            0 <= i <= n,
            r@ == map_chars(s@, from@, to).take(i as int),
        decreases n - i,
    {
        let c = s[i];
        let mut hit = false;
        let m = from.len();
        let mut j: usize = 0;
        while j < m
            invariant
                m == from@.len(),
                0 <= j <= m,
                hit == (exists|k: int| 0 <= k < j && from@[k] == c),
            decreases m - j,
        {
            if from[j] == c {
                hit = true;
            }
            j = j + 1;
        }
        proof {
            if hit {
                let k = choose|k: int| 0 <= k < m && from@[k] == c;
                assert(from@.contains(c));
            }
            if from@.contains(c) {
                let k = choose|k: int| 0 <= k < from@.len() && from@[k] == c;
                assert(hit);
            }
        }
        r.push(if hit { to } else { c });
        proof {
            assert(map_chars(s@, from@, to).take(i + 1) =~= map_chars(s@, from@, to).take(
                i as int,
            ).push(if hit { to } else { c }));
        }
        i = i + 1;
    }
    proof {
        assert(map_chars(s@, from@, to).take(n as int) =~= map_chars(s@, from@, to));
    }
    r
}

/// The longest prefix of `s` made of ASCII digits.
pub open spec fn digit_prefix(s: Seq<char>) -> Seq<char>
    decreases s.len(),
{
    if s.len() > 0 && '0' <= s[0] && s[0] <= '9' {
        seq![s[0]] + digit_prefix(s.drop_first())
    } else {
        Seq::<char>::empty()
    }
}

pub fn digit_prefix_exec(s: &[char]) -> (r: Vec<char>)
    ensures
        r@ == digit_prefix(s@),
{
    let n = s.len();
    let mut i: usize = 0;
    proof {
        assert(s@.skip(0) =~= s@);
        assert(s@.take(0) + digit_prefix(s@.skip(0)) =~= digit_prefix(s@));
    }
    while i < n && '0' <= s[i] && s[i] <= '9'
        invariant
            n == s@.len(),
            0 <= i <= n,
            s@.take(i as int) + digit_prefix(s@.skip(i as int)) == digit_prefix(s@),
        decreases n - i,
    {
        proof {
            let t = s@.skip(i as int);
            assert(t[0] == s@[i as int]);
            assert(t.drop_first() =~= s@.skip(i + 1));
            assert(s@.take(i + 1) =~= s@.take(i as int) + seq![s@[i as int]]);
            assert(s@.take(i + 1) + digit_prefix(s@.skip(i + 1)) =~= s@.take(i as int) + (seq![
                s@[i as int],
            ] + digit_prefix(s@.skip(i + 1))));
        }
        i = i + 1;
    }
    proof {
        if i < n {
            assert(s@.skip(i as int)[0] == s@[i as int]);
        }
        assert(digit_prefix(s@.skip(i as int)) =~= Seq::<char>::empty());
        assert(s@.take(i as int) + Seq::<char>::empty() =~= s@.take(i as int));
    }
    slice_copy(s, 0, i)
}

/// The decimal digits of `n`, as `n.to_string()` writes them.
pub open spec fn decimal(n: nat) -> Seq<char>
    decreases n,
{
    if n < 10 {
        seq![(('0' as nat) + n) as char]
    } else {
        decimal(n / 10) + seq![(('0' as nat) + n % 10) as char]
    }
}

/// The ASCII digit for `d < 10`.
pub fn digit_char(d: u64) -> (c: char)
    requires
        d < 10,
    ensures
        c == (('0' as nat) + d) as char,
{
    match d {
        0 => '0',
        1 => '1',
        2 => '2',
        3 => '3',
        4 => '4',
        5 => '5',
        6 => '6',
        7 => '7',
        8 => '8',
        _ => '9',
    }
}

pub fn decimal_exec(n: u64) -> (r: Vec<char>)
    ensures
        r@ == decimal(n as nat),
    decreases n,
{
    let d = digit_char(n % 10);
    if n < 10 {
        vec![d]
    } else {
        let mut r = decimal_exec(n / 10);
        r.push(d);
        proof {
            assert(r@ =~= decimal((n / 10) as nat) + seq![d]);
        }
        r
    }
}

/// `str::contains` on character slices.
pub fn contains_exec(t: &[char], p: &[char]) -> (b: bool)
    ensures
        b == contains_sub(t@, p@),
{
    let r = find_from(t, 0, p);
    proof {
        if contains_sub(t@, p@) {
            let k = choose|k: int| occurs_at(t@, k, p@);
            assert(0 <= k);
        }
    }
    r.is_some()
}

/// ASCII letters made lower case; every other character unchanged.
pub open spec fn ascii_lower(c: char) -> char {
    if 'A' <= c && c <= 'Z' {
        ((c as nat) + 32) as char
    } else {
        c
    }
}

/// `str::to_ascii_lowercase`.
pub open spec fn ascii_lowercase(s: Seq<char>) -> Seq<char> {
    s.map_values(|c: char| ascii_lower(c))
}

pub fn ascii_lower_exec(c: char) -> (r: char)
    ensures
        r == ascii_lower(c),
{
    if 'A' <= c && c <= 'Z' {
        ((c as u32) + 32) as u8 as char
    } else {
        c
    }
}

pub fn ascii_lowercase_exec(s: &[char]) -> (r: Vec<char>)
    ensures
        r@ == ascii_lowercase(s@),
{
    let n = s.len();
    let mut r: Vec<char> = Vec::new();
    let mut i: usize = 0;
    while i < n
        invariant
            n == s@.len(),
            0 <= i <= n,
            r@ == ascii_lowercase(s@.take(i as int)),
        decreases n - i,
    {
        r.push(ascii_lower_exec(s[i]));
        proof {
            assert(r@ =~= ascii_lowercase(s@.take(i + 1)));
        }
        i = i + 1;
    }
    proof {
        assert(s@.take(n as int) =~= s@);
    }
    r
}

} // verus!
