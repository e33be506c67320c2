//! Text as sequences of characters: trimming, splitting and rewriting.
//!
//! Every function here works on `Vec<char>` and is specified over `Seq<char>`,
//! so that the parsers built on top can be stated and proved character by
//! character.

use vstd::prelude::*;

verus! {

/// The characters with the Unicode `White_Space` property.
pub open spec fn is_whitespace(c: char) -> bool {
    ||| '\u{9}' <= c <= '\u{D}'
    ||| c == ' '
    ||| c == '\u{85}'
    ||| c == '\u{A0}'
    ||| c == '\u{1680}'
    ||| '\u{2000}' <= c <= '\u{200A}'
    ||| c == '\u{2028}'
    ||| c == '\u{2029}'
    ||| c == '\u{202F}'
    ||| c == '\u{205F}'
    ||| c == '\u{3000}'
}

/// `s` without its leading whitespace.
pub open spec fn trim_start(s: Seq<char>) -> Seq<char>
    decreases s.len(),
{
    if s.len() > 0 && is_whitespace(s.first()) {
        trim_start(s.drop_first())
    } else {
        s
    }
}

/// `s` without its trailing whitespace.
pub open spec fn trim_end(s: Seq<char>) -> Seq<char>
    decreases s.len(),
{
    if s.len() > 0 && is_whitespace(s.last()) {
        trim_end(s.drop_last())
    } else {
        s
    }
}

/// `s` without leading and trailing whitespace.
pub open spec fn trimmed(s: Seq<char>) -> Seq<char> {
    trim_end(trim_start(s))
}

/// The position of the first `c` in `s`, or `s.len()` where there is none.
pub open spec fn index_of(s: Seq<char>, c: char) -> int
    decreases s.len(),
{
    if s.len() == 0 || s.first() == c {
        0
    } else {
        1 + index_of(s.drop_first(), c)
    }
}

/// The pieces of `s` between occurrences of `sep`; always at least one piece.
pub open spec fn split_on(s: Seq<char>, sep: char) -> Seq<Seq<char>>
    decreases s.len(),
{
    let i = index_of(s, sep);
    if 0 <= i < s.len() {
        seq![s.subrange(0, i)] + split_on(s.subrange(i + 1, s.len() as int), sep)
    } else {
        seq![s]
    }
}

/// Whether `pat` stands in `s` at position `j`.
pub open spec fn occurs_at(s: Seq<char>, pat: Seq<char>, j: int) -> bool {
    0 <= j && j + pat.len() <= s.len() && s.subrange(j, j + pat.len()) == pat
}

/// The position of the first occurrence of `pat` in `s`, or `s.len()` where
/// there is none.
pub open spec fn index_of_text(s: Seq<char>, pat: Seq<char>) -> int
    decreases s.len(),
{
    if s.len() < pat.len() || s.len() == 0 {
        s.len() as int
    } else if occurs_at(s, pat, 0) {
        0
    } else {
        1 + index_of_text(s.drop_first(), pat)
    }
}

/// The pieces of `s` between occurrences of the non-empty text `pat`, found
/// from left to right without overlap.
pub open spec fn split_on_text(s: Seq<char>, pat: Seq<char>) -> Seq<Seq<char>>
    decreases s.len(),
{
    let i = index_of_text(s, pat);
    if pat.len() > 0 && 0 <= i && i + pat.len() <= s.len() {
        seq![s.subrange(0, i)] + split_on_text(s.subrange(i + pat.len(), s.len() as int), pat)
    } else {
        seq![s]
    }
}

/// `s` with every `from` replaced by `to`.
pub open spec fn replaced(s: Seq<char>, from: char, to: char) -> Seq<char> {
    Seq::new(s.len(), |i: int| if s[i] == from { to } else { s[i] })
}

/// The views of a list of pieces.
pub open spec fn views(pieces: Seq<Vec<char>>) -> Seq<Seq<char>> {
    Seq::new(pieces.len(), |i: int| pieces[i]@)
}

/// `index_of` is the least position that holds `c`.
pub proof fn lemma_index_of(s: Seq<char>, c: char)
    ensures
        0 <= index_of(s, c) <= s.len(),
        index_of(s, c) < s.len() ==> s[index_of(s, c)] == c,
        forall|j: int| 0 <= j < index_of(s, c) ==> s[j] != c,
    decreases s.len(),
{
    if s.len() == 0 || s.first() == c {
    } else {
        let t = s.drop_first();
        lemma_index_of(t, c);
        assert forall|j: int| 0 <= j < index_of(s, c) implies s[j] != c by {
            if j > 0 {
                assert(s[j] == t[j - 1]);
            }
        }
    }
}

/// A position that holds the first `c` is `index_of`.
pub proof fn lemma_index_of_is(s: Seq<char>, c: char, i: int)
    requires
        0 <= i <= s.len(),
        i < s.len() ==> s[i] == c,
        forall|j: int| 0 <= j < i ==> s[j] != c,
    ensures
        index_of(s, c) == i,
{
    lemma_index_of(s, c);
}

/// `index_of_text` is the least position at which `pat` begins.
pub proof fn lemma_index_of_text(s: Seq<char>, pat: Seq<char>)
    ensures
        0 <= index_of_text(s, pat) <= s.len(),
        index_of_text(s, pat) + pat.len() <= s.len() ==> occurs_at(s, pat, index_of_text(s, pat)),
        index_of_text(s, pat) + pat.len() > s.len() ==> index_of_text(s, pat) == s.len(),
        forall|j: int| 0 <= j < index_of_text(s, pat) ==> !occurs_at(s, pat, j),
    decreases s.len(),
{
    if s.len() < pat.len() || s.len() == 0 {
        if s.len() >= pat.len() {
            assert(s.subrange(0, 0) =~= pat);
        }
    } else if occurs_at(s, pat, 0) {
    } else {
        let t = s.drop_first();
        lemma_index_of_text(t, pat);
        let k = index_of_text(t, pat);
        if k + pat.len() <= t.len() {
            assert(s.subrange(k + 1, k + 1 + pat.len()) == t.subrange(k, k + pat.len()));
        }
        assert forall|j: int| 0 <= j < index_of_text(s, pat) implies !occurs_at(s, pat, j) by {
            if j > 0 && j + pat.len() <= s.len() {
                assert(s.subrange(j, j + pat.len()) == t.subrange(j - 1, j - 1 + pat.len()));
                assert(!occurs_at(t, pat, j - 1));
            }
        }
    }
}

/// A position at which the first occurrence of `pat` begins is `index_of_text`.
pub proof fn lemma_index_of_text_is(s: Seq<char>, pat: Seq<char>, i: int)
    requires
        0 <= i <= s.len(),
        i + pat.len() <= s.len() ==> occurs_at(s, pat, i),
        i + pat.len() > s.len() ==> i == s.len(),
        forall|j: int| 0 <= j < i ==> !occurs_at(s, pat, j),
    ensures
        index_of_text(s, pat) == i,
{
    lemma_index_of_text(s, pat);
}

/// Trimming at the front leaves nothing to trim at the front.
pub proof fn lemma_trim_start(s: Seq<char>)
    ensures
        trim_start(s).len() <= s.len(),
        trim_start(s) == s.subrange(s.len() - trim_start(s).len(), s.len() as int),
        trim_start(s).len() > 0 ==> !is_whitespace(trim_start(s).first()),
        forall|j: int| 0 <= j < s.len() - trim_start(s).len() ==> is_whitespace(s[j]),
    decreases s.len(),
{
    if s.len() > 0 && is_whitespace(s.first()) {
        let t = s.drop_first();
        lemma_trim_start(t);
        let n = t.len() - trim_start(t).len();
        assert(t.subrange(n, t.len() as int) == s.subrange(n + 1, s.len() as int));
        assert forall|j: int| 0 <= j < s.len() - trim_start(s).len() implies is_whitespace(
            s[j],
        ) by {
            if j > 0 {
                assert(s[j] == t[j - 1]);
            }
        }
    } else {
        assert(s.subrange(0, s.len() as int) == s);
    }
}

/// Trimming at the back leaves nothing to trim at the back.
pub proof fn lemma_trim_end(s: Seq<char>)
    ensures
        trim_end(s).len() <= s.len(),
        trim_end(s) == s.subrange(0, trim_end(s).len() as int),
        trim_end(s).len() > 0 ==> !is_whitespace(trim_end(s).last()),
        forall|j: int| trim_end(s).len() <= j < s.len() ==> is_whitespace(s[j]),
    decreases s.len(),
{
    if s.len() > 0 && is_whitespace(s.last()) {
        let t = s.drop_last();
        lemma_trim_end(t);
        assert(t.subrange(0, trim_end(t).len() as int) == s.subrange(
            0,
            trim_end(t).len() as int,
        ));
        assert forall|j: int| trim_end(s).len() <= j < s.len() implies is_whitespace(s[j]) by {
            if j < t.len() {
                assert(s[j] == t[j]);
            }
        }
    } else {
        assert(s.subrange(0, s.len() as int) == s);
    }
}

/// A text that neither begins nor ends with whitespace is its own trimmed form.
pub proof fn lemma_trimmed_fixed(s: Seq<char>)
    requires
        s.len() > 0 ==> !is_whitespace(s.first()) && !is_whitespace(s.last()),
    ensures
        trimmed(s) == s,
{
}

/// Trimming twice is trimming once.
pub proof fn lemma_trimmed_idempotent(s: Seq<char>)
    ensures
        trimmed(trimmed(s)) == trimmed(s),
{
    lemma_trim_start(s);
    let a = trim_start(s);
    lemma_trim_end(a);
    let b = trim_end(a);
    if b.len() > 0 {
        assert(b.first() == a.first());
    }
    lemma_trimmed_fixed(b);
}

/// Whether `c` is whitespace.
pub fn is_space(c: char) -> (r: bool)
    ensures
        r == is_whitespace(c),
{
    ('\u{9}' <= c && c <= '\u{D}') || c == ' ' || c == '\u{85}' || c == '\u{A0}' || c
        == '\u{1680}' || ('\u{2000}' <= c && c <= '\u{200A}') || c == '\u{2028}' || c
        == '\u{2029}' || c == '\u{202F}' || c == '\u{205F}' || c == '\u{3000}'
}

/// The characters of `s`, one element for each.
pub fn chars_of(s: &str) -> (r: Vec<char>)
    ensures
        r@ == s@,
{
    let mut out: Vec<char> = Vec::new();
    for c in it: s.chars()
        invariant
            out@ == it.seq().take(it.index() as int),
            it.seq() == s@,
    {
        out.push(c);
    }
    out
}

/// `String::push`: appends one character to the string.
#[verifier::external_body]
fn push_char(s: &mut String, c: char)
    ensures
        final(s)@ == old(s)@.push(c),
{
    s.push(c)
}

/// The string made of the characters of `v`.
pub fn string_of(v: &Vec<char>) -> (r: String)
    ensures
        r@ == v@,
{
    let mut out = String::new();
    let mut i: usize = 0;
    while i < v.len()
        invariant
            i <= v.len(),
            out@ == v@.take(i as int),
        decreases v.len() - i,
    {
        push_char(&mut out, v[i]);
        i += 1;
    }
    out
}

/// The characters of `v` from `lo` up to `hi`.
pub fn slice_of(v: &Vec<char>, lo: usize, hi: usize) -> (r: Vec<char>)
    requires
        lo <= hi <= v.len(),
    ensures
        r@ == v@.subrange(lo as int, hi as int),
{
    let mut out: Vec<char> = Vec::new();
    let mut i: usize = lo;
    while i < hi
        invariant
            lo <= i <= hi <= v.len(),
            out@ == v@.subrange(lo as int, i as int),
        decreases hi - i,
    {
        out.push(v[i]);
        i += 1;
    }
    out
}

/// `v` without leading and trailing whitespace.
pub fn trim(v: &Vec<char>) -> (r: Vec<char>)
    ensures
        r@ == trimmed(v@),
{
    let mut lo: usize = 0;
    assert(v@.subrange(0, v.len() as int) == v@);
    while lo < v.len() && is_space(v[lo])
        invariant
            lo <= v.len(),
            trim_start(v@) == trim_start(v@.subrange(lo as int, v.len() as int)),
        decreases v.len() - lo,
    {
        proof {
            let s = v@.subrange(lo as int, v.len() as int);
            assert(s.drop_first() == v@.subrange(lo + 1, v.len() as int));
        }
        lo += 1;
    }
    let mut hi: usize = v.len();
    while hi > lo && is_space(v[hi - 1])
        invariant
            lo <= hi <= v.len(),
            trim_end(v@.subrange(lo as int, v.len() as int)) == trim_end(
                v@.subrange(lo as int, hi as int),
            ),
        decreases hi - lo,
    {
        proof {
            let s = v@.subrange(lo as int, hi as int);
            assert(s.drop_last() == v@.subrange(lo as int, hi - 1));
        }
        hi -= 1;
    }
    slice_of(v, lo, hi)
}

/// The position of the first `c` at or after `from`, or `v.len()`.
pub fn find_char(v: &Vec<char>, from: usize, c: char) -> (r: usize)
    requires
        from <= v.len(),
    ensures
        from <= r <= v.len(),
        r - from == index_of(v@.subrange(from as int, v.len() as int), c),
{
    let mut i: usize = from;
    while i < v.len() && v[i] != c
        invariant
            from <= i <= v.len(),
            forall|j: int| from <= j < i ==> v@[j] != c,
        decreases v.len() - i,
    {
        i += 1;
    }
    proof {
        lemma_index_of_is(v@.subrange(from as int, v.len() as int), c, i - from);
    }
    i
}

/// The pieces of `v` between occurrences of `sep`.
pub fn split(v: &Vec<char>, sep: char) -> (r: Vec<Vec<char>>)
    ensures
        views(r@) == split_on(v@, sep),
{
    let mut out: Vec<Vec<char>> = Vec::new();
    let mut start: usize = 0;
    assert(v@.subrange(0, v.len() as int) == v@);
    assert(views(out@) =~= Seq::<Seq<char>>::empty());
    loop
        invariant_except_break
            start <= v.len(),
            split_on(v@, sep) == views(out@) + split_on(
                v@.subrange(start as int, v.len() as int),
                sep,
            ),
        ensures
            views(out@) == split_on(v@, sep),
        decreases v.len() - start,
    {
        let end = find_char(v, start, sep);
        let piece = slice_of(v, start, end);
        let ghost rest = v@.subrange(start as int, v.len() as int);
        let ghost before = views(out@);
        out.push(piece);
        proof {
            assert(rest.subrange(0, end - start) == v@.subrange(start as int, end as int));
            assert(views(out@) == before + seq![piece@]);
        }
        if end == v.len() {
            break ;
        }
        proof {
            assert(rest.subrange(end - start + 1, rest.len() as int) == v@.subrange(
                end + 1,
                v.len() as int,
            ));
        }
        start = end + 1;
    }
    out
}

/// Whether `pat` stands in `v` at position `at`.
pub fn matches_at(v: &Vec<char>, at: usize, pat: &Vec<char>) -> (r: bool)
    requires
        at <= v.len(),
    ensures
        r == occurs_at(v@, pat@, at as int),
{
    if pat.len() > v.len() - at {
        return false;
    }
    let mut k: usize = 0;
    while k < pat.len()
        invariant
            k <= pat.len(),
            at + pat.len() <= v.len(),
            forall|j: int| 0 <= j < k ==> v@[at + j] == pat@[j],
        decreases pat.len() - k,
    {
        if v[at + k] != pat[k] {
            proof {
                assert(v@.subrange(at as int, at + pat.len())[k as int] == v@[at + k]);
            }
            return false;
        }
        k += 1;
    }
    proof {
        assert(v@.subrange(at as int, at + pat.len()) =~= pat@);
    }
    true
}

/// The position of the first occurrence of `pat` at or after `from`, or
/// `v.len()`.
pub fn find_text(v: &Vec<char>, from: usize, pat: &Vec<char>) -> (r: usize)
    requires
        from <= v.len(),
    ensures
        from <= r <= v.len(),
        r - from == index_of_text(v@.subrange(from as int, v.len() as int), pat@),
{
    let ghost rest = v@.subrange(from as int, v.len() as int);
    let mut i: usize = from;
    while i < v.len() && pat.len() <= v.len() - i
        invariant
            from <= i <= v.len(),
            rest == v@.subrange(from as int, v.len() as int),
            forall|j: int| 0 <= j < i - from ==> !occurs_at(rest, pat@, j),
        decreases v.len() - i,
    {
        if matches_at(v, i, pat) {
            proof {
                assert(rest.subrange(i - from, i - from + pat.len()) == v@.subrange(
                    i as int,
                    i + pat.len(),
                ));
                lemma_index_of_text_is(rest, pat@, i - from);
            }
            return i;
        }
        proof {
            assert(rest.subrange(i - from, i - from + pat.len()) == v@.subrange(
                i as int,
                i + pat.len(),
            ));
        }
        i += 1;
    }
    proof {
        if pat.len() == 0 {
            assert(rest.subrange(rest.len() as int, rest.len() as int) =~= pat@);
        }
        lemma_index_of_text_is(rest, pat@, rest.len() as int);
    }
    v.len()
}

/// The pieces of `v` between occurrences of `pat`.
pub fn split_text(v: &Vec<char>, pat: &Vec<char>) -> (r: Vec<Vec<char>>)
    requires
        pat.len() > 0,
    ensures
        views(r@) == split_on_text(v@, pat@),
{
    let mut out: Vec<Vec<char>> = Vec::new();
    let mut start: usize = 0;
    assert(v@.subrange(0, v.len() as int) == v@);
    assert(views(out@) =~= Seq::<Seq<char>>::empty());
    loop
        invariant_except_break
            start <= v.len(),
            pat.len() > 0,
            split_on_text(v@, pat@) == views(out@) + split_on_text(
                v@.subrange(start as int, v.len() as int),
                pat@,
            ),
        ensures
            views(out@) == split_on_text(v@, pat@),
        decreases v.len() - start,
    {
        let end = find_text(v, start, pat);
        let ghost rest = v@.subrange(start as int, v.len() as int);
        let ghost before = views(out@);
        proof {
            lemma_index_of_text(rest, pat@);
        }
        if end == v.len() {
            let piece = slice_of(v, start, end);
            out.push(piece);
            proof {
                assert(piece@ == rest);
                assert(views(out@) == before + seq![piece@]);
            }
            break ;
        }
        let piece = slice_of(v, start, end);
        out.push(piece);
        proof {
            assert(rest.subrange(0, end - start) == v@.subrange(start as int, end as int));
            assert(views(out@) == before + seq![piece@]);
            assert(rest.subrange(end - start + pat.len(), rest.len() as int) == v@.subrange(
                end + pat.len(),
                v.len() as int,
            ));
        }
        start = end + pat.len();
    }
    out
}

/// `v` with every `from` replaced by `to`.
pub fn replace(v: &Vec<char>, from: char, to: char) -> (r: Vec<char>)
    ensures
        r@ == replaced(v@, from, to),
{
    let mut out: Vec<char> = Vec::new();
    let mut i: usize = 0;
    while i < v.len()
        invariant
            i <= v.len(),
            out@ == replaced(v@, from, to).take(i as int),
        decreases v.len() - i,
    {
        let c = v[i];
        out.push(if c == from { to } else { c });
        i += 1;
    }
    out
}

} // verus!
