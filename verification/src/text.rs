//! Characters, lines and joins: the text operations the rest of the crate is written in.
//!
//! Text is handled as sequences of characters. A `&str` or `String` is one through its view.
use vstd::prelude::*;
use vstd::string::*;

verus! {

/// `String::push` appends one character.
pub assume_specification[ String::push ](s: &mut String, c: char)
    ensures
        final(s)@ == old(s)@.push(c),
;

/// `String::push_str` appends a text.
pub assume_specification[ String::push_str ](s: &mut String, t: &str)
    ensures
        final(s)@ == old(s)@ + t@,
;

/// The lower-case equivalent of a text: what `str::to_lowercase` returns.
pub uninterp spec fn lowercase(s: Seq<char>) -> Seq<char>;

/// The upper-case equivalent of a text: what `str::to_uppercase` returns.
pub uninterp spec fn uppercase(s: Seq<char>) -> Seq<char>;

/// `str::to_lowercase` maps a text by the Unicode case tables.
pub assume_specification[ str::to_lowercase ](s: &str) -> (r: String)
    ensures
        r@ == lowercase(s@),
;

/// `str::to_uppercase` maps a text by the Unicode case tables.
pub assume_specification[ str::to_uppercase ](s: &str) -> (r: String)
    ensures
        r@ == uppercase(s@),
;

/// The characters of `s`.
pub fn chars_of(s: &str) -> (r: Vec<char>)
    ensures
        r@ == s@,
{
    let mut out: Vec<char> = Vec::new();
    for c in it: s.chars()
        invariant
            out@ == it.seq().take(it.index()),
            it.seq() == s@,
    {
        out.push(c);
    }
    out
}

/// The string made of `cs`.
pub fn string_of(cs: &[char]) -> (r: String)
    ensures
        r@ == cs@,
{
    let mut out = String::new();
    let n = cs.len();
    for i in 0..n
        invariant
            out@ == cs@.take(i as int),
            n == cs@.len(),
    {
        out.push(cs[i]);
        assert(cs@.take(i as int).push(cs@[i as int]) =~= cs@.take(i + 1));
    }
    assert(cs@.take(n as int) =~= cs@);
    out
}

/// Whether the two texts hold the same characters.
pub fn same_text(a: &[char], b: &[char]) -> (r: bool)
    ensures
        r == (a@ == b@),
{
    if a.len() != b.len() {
        return false;
    }
    let n = a.len();
    let mut i: usize = 0;
    while i < n
        invariant
            i <= n,
            n == a@.len(),
            n == b@.len(),
            forall|j: int| 0 <= j < i ==> a@[j] == b@[j],
        decreases n - i,
    {
        if a[i] != b[i] {
            return false;
        }
        i += 1;
    }
    assert(a@ =~= b@);
    true
}

/// Whether two texts are the same.
pub fn equal(a: &str, b: &str) -> (r: bool)
    ensures
        r == (a@ == b@),
{
    same_text(chars_of(a).as_slice(), chars_of(b).as_slice())
}

/// Whether `s` starts with `prefix`.
pub open spec fn starts_with(s: Seq<char>, prefix: Seq<char>) -> bool {
    prefix.len() <= s.len() && s.take(prefix.len() as int) == prefix
}

pub fn has_prefix(s: &[char], prefix: &[char]) -> (r: bool)
    ensures
        r == starts_with(s@, prefix@),
{
    if prefix.len() > s.len() {
        return false;
    }
    assert(s@.subrange(0, prefix@.len() as int) =~= s@.take(prefix@.len() as int));
    same_text(&s[0..prefix.len()], prefix)
}

/// Whether `pat` occurs in `s`.
pub open spec fn contains_text(s: Seq<char>, pat: Seq<char>) -> bool {
    exists|i: int| 0 <= i <= s.len() && starts_with(#[trigger] s.skip(i), pat)
}

pub fn occurs_in(pat: &[char], s: &[char]) -> (r: bool)
    ensures
        r == contains_text(s@, pat@),
{
    let n = s.len();
    let mut i: usize = 0;
    loop
        invariant
            i <= n == s@.len(),
            forall|j: int| 0 <= j < i ==> !starts_with(#[trigger] s@.skip(j), pat@),
        decreases n - i,
    {
        assert(s@.subrange(i as int, n as int) =~= s@.skip(i as int));
        if has_prefix(&s[i..n], pat) {
            return true;
        }
        if i == n {
            return false;
        }
        i += 1;
    }
}

// ---------------------------------------------------------------------------
// White space
// ---------------------------------------------------------------------------

/// The characters with the Unicode `White_Space` property.
pub open spec fn is_space(c: char) -> bool {
    ||| '\u{9}' <= c <= '\u{d}'
    ||| c == '\u{20}'
    ||| c == '\u{85}'
    ||| c == '\u{a0}'
    ||| c == '\u{1680}'
    ||| '\u{2000}' <= c <= '\u{200a}'
    ||| c == '\u{2028}'
    ||| c == '\u{2029}'
    ||| c == '\u{202f}'
    ||| c == '\u{205f}'
    ||| c == '\u{3000}'
}

pub fn space(c: char) -> (r: bool)
    ensures
        r == is_space(c),
{
    ('\u{9}' <= c && c <= '\u{d}') || c == '\u{20}' || c == '\u{85}' || c == '\u{a0}' || c
        == '\u{1680}' || ('\u{2000}' <= c && c <= '\u{200a}') || c == '\u{2028}' || c == '\u{2029}'
        || c == '\u{202f}' || c == '\u{205f}' || c == '\u{3000}'
}

/// `s` without its leading white space.
pub open spec fn trim_start(s: Seq<char>) -> Seq<char>
    decreases s.len(),
{
    if s.len() > 0 && is_space(s[0]) {
        trim_start(s.drop_first())
    } else {
        s
    }
}

/// `s` without its trailing white space.
pub open spec fn trim_end(s: Seq<char>) -> Seq<char>
    decreases s.len(),
{
    if s.len() > 0 && is_space(s.last()) {
        trim_end(s.drop_last())
    } else {
        s
    }
}

/// `s` without white space at either end.
pub open spec fn trim(s: Seq<char>) -> Seq<char> {
    trim_end(trim_start(s))
}

/// Nothing but white space.
pub open spec fn is_blank(s: Seq<char>) -> bool {
    forall|i: int| 0 <= i < s.len() ==> is_space(#[trigger] s[i])
}

pub fn trimmed_start(s: &[char]) -> (r: &[char])
    ensures
        r@ == trim_start(s@),
{
    let n = s.len();
    let mut i: usize = 0;
    assert(s@.skip(0) =~= s@);
    while i < n && space(s[i])
        invariant
            i <= n == s@.len(),
            trim_start(s@) == trim_start(s@.skip(i as int)),
        decreases n - i,
    {
        assert(s@.skip(i as int).drop_first() =~= s@.skip(i + 1));
        i += 1;
    }
    assert(s@.skip(i as int) =~= s@.subrange(i as int, n as int));
    &s[i..n]
}

pub fn trimmed_end(s: &[char]) -> (r: &[char])
    ensures
        r@ == trim_end(s@),
{
    let mut n = s.len();
    assert(s@.take(n as int) =~= s@);
    while n > 0 && space(s[n - 1])
        invariant
            n <= s@.len(),
            trim_end(s@) == trim_end(s@.take(n as int)),
        decreases n,
    {
        assert(s@.take(n as int).drop_last() =~= s@.take(n - 1));
        n -= 1;
    }
    assert(s@.take(n as int) =~= s@.subrange(0, n as int));
    &s[0..n]
}

pub fn trimmed(s: &[char]) -> (r: &[char])
    ensures
        r@ == trim(s@),
{
    trimmed_end(trimmed_start(s))
}

/// What trimming leaves is a stretch of the text, and all that it drops is white space.
pub proof fn lemma_trim_start(s: Seq<char>)
    ensures
        trim_start(s).len() <= s.len(),
        trim_start(s) == s.skip(s.len() - trim_start(s).len()),
        is_blank(s.take(s.len() - trim_start(s).len())),
        trim_start(s).len() > 0 ==> !is_space(trim_start(s)[0]),
    decreases s.len(),
{
    if s.len() > 0 && is_space(s[0]) {
        lemma_trim_start(s.drop_first());
        let k = s.len() - trim_start(s).len();
        assert(s.drop_first().skip(k - 1) =~= s.skip(k));
        assert forall|i: int| 0 <= i < k implies is_space(#[trigger] s.take(k)[i]) by {
            if i > 0 {
                assert(s.drop_first().take(k - 1)[i - 1] == s[i]);
            }
        }
    } else {
        assert(s.skip(0) =~= s);
    }
}

pub proof fn lemma_trim_end(s: Seq<char>)
    ensures
        trim_end(s).len() <= s.len(),
        trim_end(s) == s.take(trim_end(s).len() as int),
        is_blank(s.skip(trim_end(s).len() as int)),
        trim_end(s).len() > 0 ==> !is_space(trim_end(s).last()),
    decreases s.len(),
{
    if s.len() > 0 && is_space(s.last()) {
        lemma_trim_end(s.drop_last());
        let k = trim_end(s).len() as int;
        assert(s.drop_last().take(k) =~= s.take(k));
        assert forall|i: int| 0 <= i < s.len() - k implies is_space(#[trigger] s.skip(k)[i]) by {
            if i < s.len() - 1 - k {
                assert(s.drop_last().skip(k)[i] == s[i + k]);
            }
        }
    } else {
        assert(s.take(s.len() as int) =~= s);
    }
}

/// A text trims to nothing exactly when it is blank.
pub proof fn trim_empty_iff_blank(s: Seq<char>)
    ensures
        (trim(s).len() == 0) == is_blank(s),
{
    lemma_trim_start(s);
    lemma_trim_end(trim_start(s));
    let t = trim_start(s);
    let k = s.len() - t.len();
    if trim(s).len() == 0 {
        assert(t.skip(0) =~= t);
        assert forall|i: int| 0 <= i < s.len() implies is_space(#[trigger] s[i]) by {
            if i < k {
                assert(s.take(k)[i] == s[i]);
            } else {
                assert(t[i - k] == s[i]);
            }
        }
    } else if is_blank(s) {
        assert(t[0] == s[k]);
    }
}

/// Trimming twice is trimming once.
pub proof fn trim_is_idempotent(s: Seq<char>)
    ensures
        trim(trim(s)) == trim(s),
{
    lemma_trim_start(s);
    let t = trim_start(s);
    lemma_trim_end(t);
    let u = trim_end(t);
    if u.len() > 0 {
        assert(u[0] == t[0]);
    }
    assert(trim_start(u) == u);
}

proof fn lemma_trim_start_of(a: Seq<char>, t: Seq<char>)
    requires
        is_blank(a),
        t.len() == 0 || !is_space(t[0]),
    ensures
        trim_start(a + t) == t,
    decreases a.len(),
{
    if a.len() > 0 {
        assert(is_space(a[0]));
        assert((a + t).drop_first() =~= a.drop_first() + t);
        assert forall|i: int| 0 <= i < a.drop_first().len() implies is_space(#[trigger] a.drop_first()[i]) by {
            assert(is_space(a[i + 1]));
        }
        lemma_trim_start_of(a.drop_first(), t);
    } else {
        assert(a + t =~= t);
    }
}

pub proof fn lemma_trim_end_of(t: Seq<char>, b: Seq<char>)
    requires
        is_blank(b),
        t.len() == 0 || !is_space(t.last()),
    ensures
        trim_end(t + b) == t,
    decreases b.len(),
{
    if b.len() > 0 {
        assert(is_space(b[b.len() - 1]));
        assert((t + b).drop_last() =~= t + b.drop_last());
        assert forall|i: int| 0 <= i < b.drop_last().len() implies is_space(#[trigger] b.drop_last()[i]) by {
            assert(is_space(b[i]));
        }
        lemma_trim_end_of(t, b.drop_last());
    } else {
        assert(t + b =~= t);
    }
}

/// Trimming finds the text between white space.
pub proof fn trim_finds_inner(a: Seq<char>, t: Seq<char>, b: Seq<char>)
    requires
        is_blank(a),
        is_blank(b),
        t.len() == 0 || (!is_space(t[0]) && !is_space(t.last())),
    ensures
        trim(a + t + b) == t,
{
    if t.len() > 0 {
        assert(a + t + b =~= a + (t + b));
        lemma_trim_start_of(a, t + b);
        lemma_trim_end_of(t, b);
    } else {
        let s = a + t + b;
        assert forall|i: int| 0 <= i < s.len() implies is_space(#[trigger] s[i]) by {
            if i < a.len() {
                assert(is_space(a[i]));
            } else {
                assert(is_space(b[i - a.len()]));
            }
        }
        trim_empty_iff_blank(s);
        assert(trim(s) =~= t);
    }
}

pub fn blank(s: &[char]) -> (r: bool)
    ensures
        r == is_blank(s@),
        r == (trim(s@).len() == 0),
{
    proof {
        trim_empty_iff_blank(s@);
    }
    let n = s.len();
    let mut i: usize = 0;
    while i < n
        invariant
            i <= n == s@.len(),
            is_blank(s@) == (trim(s@).len() == 0),
            forall|j: int| 0 <= j < i ==> is_space(#[trigger] s@[j]),
        decreases n - i,
    {
        if !space(s[i]) {
            return false;
        }
        i += 1;
    }
    true
}

// ---------------------------------------------------------------------------
// Lines
// ---------------------------------------------------------------------------

/// Where the first `c` stands, or the length where there is none.
pub open spec fn first_at(s: Seq<char>, c: char) -> int
    decreases s.len(),
{
    if s.len() == 0 || s[0] == c {
        0
    } else {
        1 + first_at(s.drop_first(), c)
    }
}

pub proof fn lemma_first_at(s: Seq<char>, c: char)
    ensures
        0 <= first_at(s, c) <= s.len(),
        first_at(s, c) < s.len() ==> s[first_at(s, c)] == c,
        forall|i: int| 0 <= i < first_at(s, c) ==> #[trigger] s[i] != c,
    decreases s.len(),
{
    if s.len() > 0 && s[0] != c {
        lemma_first_at(s.drop_first(), c);
        assert forall|i: int| 0 <= i < first_at(s, c) implies #[trigger] s[i] != c by {
            if i > 0 {
                assert(s.drop_first()[i - 1] == s[i]);
            }
        }
    }
}

/// The place described by `lemma_first_at` is the only such place.
pub proof fn lemma_first_at_is(s: Seq<char>, c: char, k: int)
    requires
        0 <= k <= s.len(),
        k < s.len() ==> s[k] == c,
        forall|i: int| 0 <= i < k ==> #[trigger] s[i] != c,
    ensures
        first_at(s, c) == k,
{
    lemma_first_at(s, c);
    let f = first_at(s, c);
    if f < k {
        assert(s[f] != c);
    } else if k < f {
        assert(s[k] != c);
    }
}

pub fn find_char(s: &[char], c: char) -> (r: usize)
    ensures
        r == first_at(s@, c),
        r <= s@.len(),
{
    let n = s.len();
    let mut i: usize = 0;
    while i < n && s[i] != c
        invariant
            i <= n == s@.len(),
            forall|j: int| 0 <= j < i ==> #[trigger] s@[j] != c,
        decreases n - i,
    {
        i += 1;
    }
    proof {
        lemma_first_at_is(s@, c, i as int);
    }
    i
}

/// Whether `c` occurs in `s`.
pub fn has_char(s: &[char], c: char) -> (r: bool)
    ensures
        r == s@.contains(c),
{
    let i = find_char(s, c);
    proof {
        lemma_first_at(s@, c);
        if i < s@.len() {
            assert(s@[i as int] == c);
        } else if s@.contains(c) {
            let j = choose|j: int| 0 <= j < s@.len() && s@[j] == c;
            assert(s@[j] != c);
        }
    }
    i < s.len()
}

/// A line's text: what stands before its line feed, less one carriage return before that.
pub open spec fn line_text(s: Seq<char>, feed: int) -> Seq<char> {
    if feed < s.len() && feed > 0 && s[feed - 1] == '\r' {
        s.take(feed - 1)
    } else {
        s.take(feed)
    }
}

/// The lines of `s`. A line ends at a line feed, with or without a carriage
/// return before it; the last one may end at the end of the text.
pub open spec fn lines(s: Seq<char>) -> Seq<Seq<char>>
    decreases s.len(),
    via lines_end
{
    if s.len() == 0 {
        seq![]
    } else {
        let feed = first_at(s, '\n');
        seq![line_text(s, feed)] + lines(s.skip(if feed < s.len() { feed + 1 } else { feed }))
    }
}

#[via_fn]
proof fn lines_end(s: Seq<char>) {
    lemma_first_at(s, '\n');
}

/// The texts that the vectors hold.
pub open spec fn texts(v: Seq<Vec<char>>) -> Seq<Seq<char>> {
    v.map_values(|l: Vec<char>| l@)
}

/// The texts that the strings hold.
pub open spec fn strings(v: Seq<String>) -> Seq<Seq<char>> {
    v.map_values(|l: String| l@)
}

pub fn copy_chars(s: &[char]) -> (r: Vec<char>)
    ensures
        r@ == s@,
{
    let mut out: Vec<char> = Vec::new();
    let n = s.len();
    for i in 0..n
        invariant
            n == s@.len(),
            out@ == s@.take(i as int),
    {
        out.push(s[i]);
        assert(s@.take(i as int).push(s@[i as int]) =~= s@.take(i + 1));
    }
    assert(s@.take(n as int) =~= s@);
    out
}

pub fn split_lines(s: &[char]) -> (r: Vec<Vec<char>>)
    ensures
        texts(r@) == lines(s@),
{
    let mut out: Vec<Vec<char>> = Vec::new();
    let n = s.len();
    let mut start: usize = 0;
    assert(s@.skip(0) =~= s@);
    assert(texts(out@) + lines(s@) =~= lines(s@));
    while start < n
        invariant
            start <= n == s@.len(),
            texts(out@) + lines(s@.skip(start as int)) == lines(s@),
        decreases n - start,
    {
        let ghost before = texts(out@);
        let rest = &s[start..n];
        assert(rest@ =~= s@.skip(start as int));
        let feed = find_char(rest, '\n');
        let end = if feed < rest.len() && feed > 0 && rest[feed - 1] == '\r' {
            feed - 1
        } else {
            feed
        };
        let line = copy_chars(&rest[0..end]);
        assert(line@ =~= line_text(rest@, feed as int));
        out.push(line);
        let step = if feed < rest.len() { feed + 1 } else { feed };
        assert(rest@.skip(step as int) =~= s@.skip(start + step));
        assert(texts(out@) =~= before.push(line@));
        assert(before.push(line@) + lines(s@.skip(start + step)) =~= before + (seq![line@] + lines(s@.skip(start + step))));
        start += step;
    }
    assert(s@.skip(start as int) =~= seq![]);
    assert(texts(out@) + lines(s@.skip(start as int)) =~= texts(out@));
    out
}

/// The parts of `s` between the `c`s in it; one more than there are `c`s.
pub open spec fn split_at(s: Seq<char>, c: char) -> Seq<Seq<char>>
    decreases s.len(),
    via split_at_ends
{
    let k = first_at(s, c);
    if k < s.len() {
        seq![s.take(k)] + split_at(s.skip(k + 1), c)
    } else {
        seq![s]
    }
}

#[via_fn]
proof fn split_at_ends(s: Seq<char>, c: char) {
    lemma_first_at(s, c);
}

pub fn split_on(s: &[char], c: char) -> (r: Vec<Vec<char>>)
    ensures
        texts(r@) == split_at(s@, c),
{
    let mut out: Vec<Vec<char>> = Vec::new();
    let n = s.len();
    let mut start: usize = 0;
    assert(s@.skip(0) =~= s@);
    assert(texts(out@) + split_at(s@, c) =~= split_at(s@, c));
    loop
        invariant
            start <= n == s@.len(),
            texts(out@) + split_at(s@.skip(start as int), c) == split_at(s@, c),
        decreases n - start,
    {
        let ghost before = texts(out@);
        let rest = &s[start..n];
        assert(rest@ =~= s@.skip(start as int));
        let k = find_char(rest, c);
        let part = copy_chars(&rest[0..k]);
        out.push(part);
        assert(texts(out@) =~= before.push(part@));
        if k == rest.len() {
            assert(part@ =~= rest@);
            assert(texts(out@) =~= before + seq![rest@]);
            return out;
        }
        assert(part@ =~= rest@.take(k as int));
        assert(rest@.skip(k + 1) =~= s@.skip(start + k + 1));
        assert(before.push(part@) + split_at(s@.skip(start + k + 1), c) =~= before + (seq![part@] + split_at(s@.skip(start + k + 1), c)));
        start += k + 1;
    }
}

// ---------------------------------------------------------------------------
// Joins
// ---------------------------------------------------------------------------

/// The parts in order, with `sep` between each two.
pub open spec fn join(parts: Seq<Seq<char>>, sep: Seq<char>) -> Seq<char>
    decreases parts.len(),
{
    if parts.len() == 0 {
        seq![]
    } else if parts.len() == 1 {
        parts[0]
    } else {
        join(parts.drop_last(), sep) + sep + parts.last()
    }
}

pub fn push_all(out: &mut Vec<char>, s: &[char])
    ensures
        final(out)@ == old(out)@ + s@,
{
    let n = s.len();
    let ghost before = out@;
    assert(before + s@.take(0) =~= before);
    for i in 0..n
        invariant
            n == s@.len(),
            out@ == before + s@.take(i as int),
    {
        out.push(s[i]);
        assert((before + s@.take(i as int)).push(s@[i as int]) =~= before + s@.take(i + 1));
    }
    assert(s@.take(n as int) =~= s@);
}

pub fn join_texts(parts: &Vec<Vec<char>>, sep: &[char]) -> (r: Vec<char>)
    ensures
        r@ == join(texts(parts@), sep@),
{
    let mut out: Vec<char> = Vec::new();
    let n = parts.len();
    let ghost all = texts(parts@);
    assert(all.take(0) =~= seq![]);
    for i in 0..n
        invariant
            n == parts@.len(),
            all == texts(parts@),
            out@ == join(all.take(i as int), sep@),
    {
        assert(all.take(i + 1).drop_last() =~= all.take(i as int));
        assert(all.take(i + 1).last() == parts@[i as int]@);
        if i > 0 {
            push_all(&mut out, sep);
        } else {
            assert(out@ + parts@[0]@ =~= parts@[0]@);
        }
        push_all(&mut out, parts[i].as_slice());
    }
    assert(all.take(n as int) =~= all);
    out
}

/// A join starts with its first part.
pub proof fn lemma_join_first(parts: Seq<Seq<char>>, sep: Seq<char>)
    requires
        parts.len() >= 2,
    ensures
        join(parts, sep) == parts[0] + sep + join(parts.drop_first(), sep),
    decreases parts.len(),
{
    let rest = parts.drop_first();
    if parts.len() == 2 {
        assert(join(parts.drop_last(), sep) == parts[0]);
        assert(join(rest, sep) == parts[1]);
    } else {
        let front = parts.drop_last();
        lemma_join_first(front, sep);
        assert(front.drop_first() =~= rest.drop_last());
        let middle = join(rest.drop_last(), sep);
        assert(join(rest, sep) == middle + sep + parts.last());
        assert(parts[0] + sep + middle + sep + parts.last() =~= parts[0] + sep + (middle + sep + parts.last()));
    }
}

/// No line holds a line feed.
pub proof fn lines_hold_no_feed(s: Seq<char>)
    ensures
        forall|i: int| 0 <= i < lines(s).len() ==> !(#[trigger] lines(s)[i]).contains('\n'),
    decreases s.len(),
{
    if s.len() > 0 {
        let feed = first_at(s, '\n');
        lemma_first_at(s, '\n');
        let step = if feed < s.len() {
            feed + 1
        } else {
            feed
        };
        let rest = lines(s.skip(step));
        lines_hold_no_feed(s.skip(step));
        assert forall|i: int| 0 <= i < lines(s).len() implies !(#[trigger] lines(s)[i]).contains('\n') by {
            if i == 0 {
                let line = line_text(s, feed);
                assert forall|j: int| 0 <= j < line.len() implies line[j] != '\n' by {
                    assert(line[j] == s[j]);
                }
            } else {
                assert(lines(s)[i] == rest[i - 1]);
            }
        }
    }
}

/// Lines joined by line feeds are read back as they were: where none holds a
/// line feed or ends in a carriage return, and the last one is not empty.
pub proof fn joined_lines_read_back(parts: Seq<Seq<char>>)
    requires
        parts.len() > 0,
        forall|i: int| 0 <= i < parts.len() ==> !(#[trigger] parts[i]).contains('\n'),
        forall|i: int| 0 <= i < parts.len() ==> ((#[trigger] parts[i]).len() > 0 ==> parts[i].last() != '\r'),
        parts.last().len() > 0,
    ensures
        lines(join(parts, seq!['\n'])) == parts,
    decreases parts.len(),
{
    let s = join(parts, seq!['\n']);
    let p = parts[0];
    let n = p.len() as int;
    assert forall|i: int| 0 <= i < n implies p[i] != '\n' by {
        assert(p.contains(p[i]));
    }
    if parts.len() == 1 {
        lemma_first_at_is(s, '\n', n);
        assert(s.take(n) =~= p);
        assert(lines(s.skip(n)) =~= seq![]);
        assert(lines(s) =~= seq![line_text(s, n)] + lines(s.skip(n)));
        assert(lines(s) =~= parts);
    } else {
        let rest = parts.drop_first();
        let more = join(rest, seq!['\n']);
        lemma_join_first(parts, seq!['\n']);
        assert(s[n] == '\n');
        assert forall|i: int| 0 <= i < n implies #[trigger] s[i] != '\n' by {
            assert(s[i] == p[i]);
        }
        lemma_first_at_is(s, '\n', n);
        assert(s.take(n) =~= p);
        assert(n > 0 ==> s[n - 1] == p.last());
        assert(line_text(s, n) == p);
        assert(s.skip(n + 1) =~= more);
        assert forall|i: int| 0 <= i < rest.len() implies !(#[trigger] rest[i]).contains('\n') && (rest[i].len() > 0 ==> rest[i].last()
            != '\r') by {
            assert(rest[i] == parts[i + 1]);
        }
        joined_lines_read_back(rest);
        assert(lines(s) =~= seq![p] + rest);
        assert(seq![p] + rest =~= parts);
    }
}

/// A text that stands in a part of another occurs in the other.
proof fn lemma_occurs_between(a: Seq<char>, pat: Seq<char>, b: Seq<char>)
    ensures
        contains_text(a + pat + b, pat),
{
    let s = a + pat + b;
    let i = a.len() as int;
    assert(s.skip(i).take(pat.len() as int) =~= pat);
    assert(starts_with(s.skip(i), pat));
}

/// What a text holds between white space is not lost when the text around it
/// is trimmed.
pub proof fn trim_keeps_inner(a: Seq<char>, line: Seq<char>, b: Seq<char>)
    ensures
        contains_text(trim(a + line + b), trim(line)),
{
    let s = a + line + b;
    let t = trim(line);
    lemma_trim_start(line);
    lemma_trim_end(trim_start(line));
    lemma_trim_start(s);
    lemma_trim_end(trim_start(s));
    let r = trim(s);
    if t.len() == 0 {
        assert(r.skip(0).take(0) =~= t);
        assert(starts_with(r.skip(0), t));
    } else {
        // Where `t` stands in `s`, and where what trimming leaves of `s` does.
        let k = a.len() + (line.len() - trim_start(line).len());
        let p = s.len() - trim_start(s).len();
        assert(t =~= s.subrange(k, k + t.len()));
        assert(t[0] == trim_start(line)[0]);
        assert(!is_space(s[k]) && !is_space(s[k + t.len() - 1])) by {
            assert(s[k] == t[0]);
            assert(s[k + t.len() - 1] == t.last());
        }
        if k < p {
            assert(is_space(s.take(p)[k]));
        }
        let u = trim_start(s);
        if k + t.len() > p + r.len() {
            assert(is_space(u.skip(r.len() as int)[k + t.len() - 1 - p - r.len()]));
        }
        assert(r.skip(k - p).take(t.len() as int) =~= t);
        assert(starts_with(r.skip(k - p), t));
    }
}

/// Every part occurs in the join.
pub proof fn join_contains_each(parts: Seq<Seq<char>>, sep: Seq<char>, i: int)
    requires
        0 <= i < parts.len(),
    ensures
        contains_text(join(parts, sep), parts[i]),
    decreases parts.len(),
{
    let whole = join(parts, sep);
    if parts.len() == 1 {
        assert(seq![] + parts[i] + seq![] =~= whole);
        lemma_occurs_between(seq![], parts[i], seq![]);
    } else if i == parts.len() - 1 {
        let a = join(parts.drop_last(), sep) + sep;
        assert(a + parts[i] + seq![] =~= whole);
        lemma_occurs_between(a, parts[i], seq![]);
    } else {
        join_contains_each(parts.drop_last(), sep, i);
        let head = join(parts.drop_last(), sep);
        let k = choose|k: int| 0 <= k <= head.len() && starts_with(#[trigger] head.skip(k), parts[i]);
        let n = parts[i].len() as int;
        assert(head.skip(k).take(n) =~= parts[i]);
        assert(whole.skip(k).take(n) =~= head.skip(k).take(n));
        assert(starts_with(whole.skip(k), parts[i]));
    }
}

/// A text with spaces before it, up to the given width.
pub open spec fn padded(s: Seq<char>, width: nat) -> Seq<char> {
    if s.len() < width {
        Seq::new((width - s.len()) as nat, |i: int| ' ') + s
    } else {
        s
    }
}

/// A text with spaces behind it, up to the given width.
pub open spec fn padded_behind(s: Seq<char>, width: nat) -> Seq<char> {
    if s.len() < width {
        s + Seq::new((width - s.len()) as nat, |i: int| ' ')
    } else {
        s
    }
}

/// A text with spaces before it, up to the given width.
pub fn pad(s: &str, width: usize) -> (r: String)
    ensures
        r@ == padded(s@, width as nat),
{
    let len = s.unicode_len();
    let mut out = String::new();
    if len < width {
        let mut i: usize = 0;
        while i < width - len
            invariant
                i <= width - len,
                len < width,
                out@ == Seq::new(i as nat, |j: int| ' '),
            decreases width - len - i,
        {
            out.push(' ');
            assert(out@ =~= Seq::new((i + 1) as nat, |j: int| ' '));
            i += 1;
        }
    }
    out.push_str(s);
    assert(out@ =~= padded(s@, width as nat));
    out
}

/// A text with spaces behind it, up to the given width.
pub fn pad_behind(s: &str, width: usize) -> (r: String)
    ensures
        r@ == padded_behind(s@, width as nat),
{
    let len = s.unicode_len();
    let mut out = s.to_owned();
    assert(out@ =~= s@ + Seq::new(0, |j: int| ' '));
    if len < width {
        let mut i: usize = 0;
        while i < width - len
            invariant
                i <= width - len,
                len < width,
                out@ == s@ + Seq::new(i as nat, |j: int| ' '),
            decreases width - len - i,
        {
            out.push(' ');
            assert(out@ =~= s@ + Seq::new((i + 1) as nat, |j: int| ' '));
            i += 1;
        }
    }
    assert(out@ =~= padded_behind(s@, width as nat));
    out
}

// ---------------------------------------------------------------------------
// Laws
// ---------------------------------------------------------------------------

/// White space is the characters of the Unicode property `White_Space`, by
/// number.
pub proof fn white_space_by_number(c: char)
    ensures
        is_space(c) == ({
            let n = c as u32;
            ||| 9 <= n <= 13
            ||| n == 32
            ||| n == 133
            ||| n == 160
            ||| n == 5760
            ||| 8192 <= n <= 8202
            ||| n == 8232
            ||| n == 8233
            ||| n == 8239
            ||| n == 8287
            ||| n == 12288
        }),
{
}

/// A text starts with another where it is the other and something behind it,
/// and contains another where it is something, the other, and something behind.
pub proof fn occurrence_is_in_place(s: Seq<char>, pat: Seq<char>)
    ensures
        starts_with(s, pat) == exists|b: Seq<char>| s == #[trigger] (pat + b),
        contains_text(s, pat) == exists|a: Seq<char>, b: Seq<char>| s == #[trigger] (a + pat + b),
{
    if starts_with(s, pat) {
        assert(s =~= pat + s.skip(pat.len() as int));
    }
    if exists|b: Seq<char>| s == #[trigger] (pat + b) {
        let b = choose|b: Seq<char>| s == #[trigger] (pat + b);
        assert(s.take(pat.len() as int) =~= pat);
    }
    if contains_text(s, pat) {
        let i = choose|i: int| 0 <= i <= s.len() && starts_with(#[trigger] s.skip(i), pat);
        assert(s.skip(i).take(pat.len() as int) =~= pat);
        assert(s =~= s.take(i) + pat + s.skip(i).skip(pat.len() as int));
    }
    if exists|a: Seq<char>, b: Seq<char>| s == #[trigger] (a + pat + b) {
        let (a, b) = choose|a: Seq<char>, b: Seq<char>| s == #[trigger] (a + pat + b);
        lemma_occurs_between(a, pat, b);
    }
}

/// The lines of a text go by its line feeds: what stands before the first one
/// is the first line, less one carriage return at its end, and the rest of the
/// text makes the other lines. A text without a line feed is one line; an empty
/// text has none.
pub proof fn lines_go_by_feeds(line: Seq<char>, rest: Seq<char>)
    requires
        !line.contains('\n'),
    ensures
        lines(seq![]).len() == 0,
        line.len() > 0 ==> lines(line) == seq![line],
        (line.len() == 0 || line.last() != '\r') ==> lines(line + seq!['\n'] + rest) == seq![line] + lines(rest),
        lines(line + seq!['\r', '\n'] + rest) == seq![line] + lines(rest),
{
    let n = line.len() as int;
    assert forall|i: int| 0 <= i < n implies #[trigger] line[i] != '\n' by {
        assert(line.contains(line[i]));
    }
    if n > 0 {
        lemma_first_at_is(line, '\n', n);
        assert(line.take(n) =~= line);
        assert(lines(line.skip(n)) =~= seq![]);
        assert(lines(line) =~= seq![line]);
    }
    let s = line + seq!['\n'] + rest;
    assert forall|i: int| 0 <= i < n implies #[trigger] s[i] != '\n' by {
        assert(s[i] == line[i]);
    }
    lemma_first_at_is(s, '\n', n);
    assert(s.take(n) =~= line);
    assert(s.skip(n + 1) =~= rest);
    if n > 0 {
        assert(s[n - 1] == line.last());
    }
    let t = line + seq!['\r', '\n'] + rest;
    assert forall|i: int| 0 <= i < n + 1 implies #[trigger] t[i] != '\n' by {
        if i < n {
            assert(t[i] == line[i]);
        }
    }
    lemma_first_at_is(t, '\n', n + 1);
    assert(t[n] == '\r');
    assert(t.take(n) =~= line);
    assert(t.skip(n + 2) =~= rest);
}

/// The parts of a text go by a character: what stands before the first one is
/// the first part, and the rest of the text makes the others.
pub proof fn parts_go_by_character(part: Seq<char>, c: char, rest: Seq<char>)
    requires
        !part.contains(c),
    ensures
        split_at(part, c) == seq![part],
        split_at(part + seq![c] + rest, c) == seq![part] + split_at(rest, c),
{
    let n = part.len() as int;
    let s = part + seq![c] + rest;
    assert forall|i: int| 0 <= i < n implies #[trigger] part[i] != c by {
        assert(part.contains(part[i]));
    }
    lemma_first_at_is(part, c, n);
    assert(s[n] == c);
    assert forall|i: int| 0 <= i < n implies #[trigger] s[i] != c by {
        assert(s[i] == part[i]);
    }
    lemma_first_at_is(s, c, n);
    assert(s.take(n) =~= part);
    assert(s.skip(n + 1) =~= rest);
}

/// A join is its parts with the separator between each two of them.
pub proof fn joins_are_joined(a: Seq<Seq<char>>, b: Seq<Seq<char>>, part: Seq<char>, sep: Seq<char>)
    requires
        a.len() > 0,
        b.len() > 0,
    ensures
        join(seq![], sep).len() == 0,
        join(seq![part], sep) == part,
        join(a + b, sep) == join(a, sep) + sep + join(b, sep),
    decreases b.len(),
{
    let all = a + b;
    let front = b.drop_last();
    assert(all.drop_last() =~= a + front);
    if front.len() == 0 {
        assert(a + front =~= a);
    } else {
        joins_are_joined(a, front, part, sep);
        assert(join(all, sep) =~= join(a, sep) + sep + join(b, sep));
    }
}

/// Padding puts spaces on one side of a text, as many as it takes to make it as
/// wide as asked, and changes nothing else.
pub proof fn padding_is_spaces(s: Seq<char>, width: nat)
    ensures
        s.len() >= width ==> padded(s, width) == s && padded_behind(s, width) == s,
        s.len() < width ==> {
            let k = (width - s.len()) as int;
            &&& padded(s, width).len() == width
            &&& padded(s, width).skip(k) == s
            &&& forall|i: int| 0 <= i < k ==> #[trigger] padded(s, width)[i] == ' '
            &&& padded_behind(s, width).len() == width
            &&& padded_behind(s, width).take(s.len() as int) == s
            &&& forall|i: int| s.len() <= i < width ==> #[trigger] padded_behind(s, width)[i] == ' '
        },
{
    if s.len() < width {
        assert(padded(s, width).skip(width - s.len()) =~= s);
        assert(padded_behind(s, width).take(s.len() as int) =~= s);
    }
}

/// The texts that strings and lists of characters hold stand in the same
/// places.
pub proof fn texts_stand_in_place(strs: Seq<String>, lists: Seq<Vec<char>>, i: int)
    ensures
        strings(strs).len() == strs.len(),
        texts(lists).len() == lists.len(),
        0 <= i < strs.len() ==> strings(strs)[i] == strs[i]@,
        0 <= i < lists.len() ==> texts(lists)[i] == lists[i]@,
{
}

} // verus!
