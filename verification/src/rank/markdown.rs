//! Cutting a markdown body down to the part worth sending.
use vstd::prelude::*;
use vstd::string::*;

use crate::text::{
    blank, chars_of, contains_text, copy_chars, is_blank, is_space, join, join_texts, joined_lines_read_back, lemma_join_first, lemma_trim_end,
    lemma_trim_start, lines, lines_hold_no_feed, lowercase, occurrence_is_in_place, occurs_in, push_all, split_lines, string_of, strings, texts, trim, trim_empty_iff_blank,
    trim_end, trim_finds_inner, trim_is_idempotent, trim_keeps_inner, trim_start, trimmed, trimmed_end,
};

verus! {

// ---------------------------------------------------------------------------
// Headings
// ---------------------------------------------------------------------------

/// How many `#` a line starts with.
pub open spec fn hashes(line: Seq<char>) -> nat
    decreases line.len(),
{
    if line.len() > 0 && line[0] == '#' {
        1 + hashes(line.drop_first())
    } else {
        0
    }
}

/// The level of a heading: one or more `#`, then a space.
pub open spec fn level(line: Seq<char>) -> Option<nat> {
    let n = hashes(line);
    if n > 0 && n < line.len() && line[n as int] == ' ' {
        Some(n)
    } else {
        None
    }
}

/// A line starts with no more `#` than it has characters.
pub proof fn lemma_hashes(line: Seq<char>)
    ensures
        hashes(line) <= line.len(),
    decreases line.len(),
{
    if line.len() > 0 && line[0] == '#' {
        lemma_hashes(line.drop_first());
    }
}

pub fn heading_level(line: &[char]) -> (r: Option<usize>)
    ensures
        match r {
            Some(n) => level(line@) == Some(n as nat) && n < line@.len(),
            None => level(line@) is None,
        },
{
    let len = line.len();
    let mut n: usize = 0;
    assert(line@.skip(0) =~= line@);
    while n < len && line[n] == '#'
        invariant
            n <= len == line@.len(),
            hashes(line@) == n + hashes(line@.skip(n as int)),
        decreases len - n,
    {
        assert(line@.skip(n as int).drop_first() =~= line@.skip(n + 1));
        n += 1;
    }
    if n > 0 && n < len && line[n] == ' ' {
        Some(n)
    } else {
        None
    }
}

fn is_h1(line: &[char]) -> (r: bool)
    ensures
        r == (level(line@) == Some(1nat)),
{
    match heading_level(line) {
        Some(n) => n == 1,
        None => false,
    }
}

/// Whether a line is a heading that ends a section of level `n`: one of that
/// level or higher up.
pub open spec fn ends_section(line: Seq<char>, n: nat) -> bool {
    level(line) matches Some(m) && m <= n
}

fn closes(line: &[char], n: usize) -> (r: bool)
    ensures
        r == ends_section(line@, n as nat),
{
    match heading_level(line) {
        Some(m) => m <= n,
        None => false,
    }
}

// ---------------------------------------------------------------------------
// The lead
// ---------------------------------------------------------------------------

/// The lines that come before the first heading of any level.
pub open spec fn until_heading(ls: Seq<Seq<char>>) -> Seq<Seq<char>>
    decreases ls.len(),
{
    if ls.len() == 0 || level(ls[0]) is Some {
        seq![]
    } else {
        seq![ls[0]] + until_heading(ls.drop_first())
    }
}

/// Where the first top-level heading stands, or the number of lines where there is none.
pub open spec fn first_h1(ls: Seq<Seq<char>>) -> nat
    decreases ls.len(),
{
    if ls.len() == 0 || level(ls[0]) == Some(1nat) {
        0
    } else {
        1 + first_h1(ls.drop_first())
    }
}

/// The lines of the lead: those after the first top-level heading, or all of
/// them where there is none, up to the next heading of any level.
pub open spec fn lead_lines(ls: Seq<Seq<char>>) -> Seq<Seq<char>> {
    if first_h1(ls) < ls.len() {
        until_heading(ls.skip((first_h1(ls) + 1) as int))
    } else {
        until_heading(ls)
    }
}

/// The lead of a body as text.
pub open spec fn lead_text(body: Seq<char>) -> Seq<char> {
    trim(join(lead_lines(lines(body)), seq!['\n']))
}

/// Text after the first `# ` heading up to the next heading of any level.
/// Without a `# ` heading: everything before the first heading.
pub fn lead(body: &[char]) -> (r: Vec<char>)
    ensures
        r@ == lead_text(body@),
{
    let all = split_lines(body);
    let n = all.len();
    let ghost ls = texts(all@);
    let mut h1: usize = 0;
    assert(ls.skip(0) =~= ls);
    while h1 < n && !is_h1(all[h1].as_slice())
        invariant
            h1 <= n == all@.len(),
            ls == texts(all@),
            first_h1(ls) == h1 + first_h1(ls.skip(h1 as int)),
        decreases n - h1,
    {
        assert(ls.skip(h1 as int)[0] == all@[h1 as int]@);
        assert(ls.skip(h1 as int).drop_first() =~= ls.skip(h1 + 1));
        h1 += 1;
    }
    if h1 < n {
        assert(ls.skip(h1 as int)[0] == all@[h1 as int]@);
    }
    let start: usize = if h1 < n {
        h1 + 1
    } else {
        0
    };
    let ghost from = ls.skip(start as int);
    assert(lead_lines(ls) == until_heading(from));
    let mut out: Vec<Vec<char>> = Vec::new();
    let mut i: usize = start;
    assert(texts(out@) + until_heading(from) =~= until_heading(from));
    while i < n
        invariant
            start <= i <= n,
            n == all@.len(),
            ls == texts(all@),
            texts(out@) + until_heading(ls.skip(i as int)) == until_heading(from),
        ensures
            texts(out@) == until_heading(from),
        decreases n - i,
    {
        let ghost rest = ls.skip(i as int);
        assert(rest[0] == all@[i as int]@);
        if heading_level(all[i].as_slice()).is_some() {
            assert(texts(out@) + until_heading(rest) =~= texts(out@));
            break;
        }
        let ghost before = texts(out@);
        out.push(copy_chars(all[i].as_slice()));
        assert(texts(out@) =~= before.push(rest[0]));
        assert(rest.drop_first() =~= ls.skip(i + 1));
        assert(before.push(rest[0]) + until_heading(ls.skip(i + 1)) =~= before + (seq![rest[0]] + until_heading(ls.skip(i + 1))));
        i += 1;
        if i == n {
            assert(ls.skip(n as int) =~= seq![]);
            assert(texts(out@) + until_heading(ls.skip(n as int)) =~= texts(out@));
        }
    }
    let sep: Vec<char> = vec!['\n'];
    assert(sep@ =~= seq!['\n']);
    let joined = join_texts(&out, sep.as_slice());
    copy_chars(trimmed(joined.as_slice()))
}

// ---------------------------------------------------------------------------
// Sections
// ---------------------------------------------------------------------------

/// Whether a heading line is asked for: its text, in lower case, contains one
/// of `wanted` in lower case.
pub open spec fn heading_wanted(line: Seq<char>, wanted: Seq<Seq<char>>) -> bool {
    level(line) matches Some(n) && exists|i: int|
        0 <= i < wanted.len() && contains_text(lowercase(trim(line.skip(n as int))), lowercase(#[trigger] wanted[i]))
}

/// How many lines follow before a heading of level `n` or higher up.
pub open spec fn body_len(ls: Seq<Seq<char>>, n: nat) -> nat
    decreases ls.len(),
{
    if ls.len() == 0 || ends_section(ls[0], n) {
        0
    } else {
        1 + body_len(ls.drop_first(), n)
    }
}

/// What follows a heading ends with the text.
pub proof fn lemma_body_len(ls: Seq<Seq<char>>, n: nat)
    ensures
        body_len(ls, n) <= ls.len(),
    decreases ls.len(),
{
    if ls.len() > 0 && !ends_section(ls[0], n) {
        lemma_body_len(ls.drop_first(), n);
    }
}

/// The sections asked for, in order: each from its heading to just before the
/// next heading of the same or a higher level.
pub open spec fn section_texts(ls: Seq<Seq<char>>, wanted: Seq<Seq<char>>) -> Seq<Seq<char>>
    decreases ls.len(),
    via section_texts_end
{
    if ls.len() == 0 {
        seq![]
    } else if heading_wanted(ls[0], wanted) {
        let n = (1 + body_len(ls.drop_first(), level(ls[0])->0)) as int;
        seq![trim(join(ls.take(n), seq!['\n']))] + section_texts(ls.skip(n), wanted)
    } else {
        section_texts(ls.drop_first(), wanted)
    }
}

#[via_fn]
proof fn section_texts_end(ls: Seq<Seq<char>>, wanted: Seq<Seq<char>>) {
    if ls.len() > 0 {
        lemma_body_len(ls.drop_first(), level(ls[0])->0);
    }
}

fn is_wanted(line: &[char], n: usize, wanted: &Vec<String>) -> (r: bool)
    requires
        level(line@) == Some(n as nat),
        n < line@.len(),
    ensures
        r == heading_wanted(line@, strings(wanted@)),
{
    let rest = &line[n..line.len()];
    assert(rest@ =~= line@.skip(n as int));
    let text = chars_of(string_of(trimmed(rest)).as_str().to_lowercase().as_str());
    let k = wanted.len();
    let mut i: usize = 0;
    while i < k
        invariant
            i <= k == wanted@.len(),
            level(line@) == Some(n as nat),
            text@ == lowercase(trim(line@.skip(n as int))),
            forall|j: int| 0 <= j < i ==> !contains_text(text@, lowercase(#[trigger] strings(wanted@)[j])),
        decreases k - i,
    {
        let w = chars_of(wanted[i].as_str().to_lowercase().as_str());
        assert(strings(wanted@)[i as int] == wanted@[i as int]@);
        if occurs_in(w.as_slice(), text.as_slice()) {
            return true;
        }
        i += 1;
    }
    false
}

/// Every section whose heading text contains one of `wanted`
/// (case-insensitive), heading line included, up to the next heading of the
/// same or a higher level.
pub fn sections(body: &[char], wanted: &Vec<String>) -> (r: Vec<Vec<char>>)
    ensures
        texts(r@) == section_texts(lines(body@), strings(wanted@)),
{
    let all = split_lines(body);
    let n = all.len();
    let ghost ls = texts(all@);
    let ghost ws = strings(wanted@);
    let sep: Vec<char> = vec!['\n'];
    assert(sep@ =~= seq!['\n']);
    let mut out: Vec<Vec<char>> = Vec::new();
    let mut i: usize = 0;
    assert(ls.skip(0) =~= ls);
    assert(texts(out@) + section_texts(ls, ws) =~= section_texts(ls, ws));
    while i < n
        invariant
            i <= n == all@.len(),
            ls == texts(all@),
            ws == strings(wanted@),
            sep@ == seq!['\n'],
            texts(out@) + section_texts(ls.skip(i as int), ws) == section_texts(ls, ws),
        decreases n - i,
    {
        let ghost rest = ls.skip(i as int);
        assert(rest[0] == all@[i as int]@);
        let wanted_level = match heading_level(all[i].as_slice()) {
            Some(l) => if is_wanted(all[i].as_slice(), l, wanted) {
                Some(l)
            } else {
                None
            },
            None => None,
        };
        match wanted_level {
            None => {
                assert(rest.drop_first() =~= ls.skip(i + 1));
                i += 1;
            },
            Some(l) => {
                let mut buf: Vec<Vec<char>> = Vec::new();
                buf.push(copy_chars(all[i].as_slice()));
                let mut j: usize = i + 1;
                let ghost tail = rest.drop_first();
                assert(tail =~= ls.skip(i + 1));
                assert(texts(buf@) =~= ls.subrange(i as int, j as int));
                while j < n && !closes(all[j].as_slice(), l)
                    invariant
                        i < j <= n,
                        n == all@.len(),
                        ls == texts(all@),
                        tail == ls.skip(i + 1),
                        texts(buf@) == ls.subrange(i as int, j as int),
                        body_len(tail, l as nat) == (j - i - 1) + body_len(ls.skip(j as int), l as nat),
                    decreases n - j,
                {
                    assert(ls.skip(j as int)[0] == all@[j as int]@);
                    assert(ls.skip(j as int).drop_first() =~= ls.skip(j + 1));
                    let ghost before = texts(buf@);
                    buf.push(copy_chars(all[j].as_slice()));
                    assert(texts(buf@) =~= before.push(ls[j as int]));
                    assert(before.push(ls[j as int]) =~= ls.subrange(i as int, j + 1));
                    j += 1;
                }
                if j < n {
                    assert(ls.skip(j as int)[0] == all@[j as int]@);
                }
                assert(body_len(ls.skip(j as int), l as nat) == 0);
                let joined = join_texts(&buf, sep.as_slice());
                let section = copy_chars(trimmed(joined.as_slice()));
                let ghost k = j - i;
                assert(rest.take(k) =~= ls.subrange(i as int, j as int));
                assert(rest.skip(k) =~= ls.skip(j as int));
                let ghost before = texts(out@);
                out.push(section);
                assert(texts(out@) =~= before.push(section@));
                assert(before.push(section@) + section_texts(ls.skip(j as int), ws) =~= before + (seq![section@] + section_texts(ls.skip(j as int), ws)));
                i = j;
            },
        }
    }
    assert(ls.skip(i as int) =~= seq![]);
    assert(texts(out@) + section_texts(ls.skip(i as int), ws) =~= texts(out@));
    out
}

// ---------------------------------------------------------------------------
// Blank lines and length
// ---------------------------------------------------------------------------

/// The lines without trailing white space, and of each run of blank lines only
/// the first. `after_blank` says that the line before was blank.
pub open spec fn squeezed_lines(ls: Seq<Seq<char>>, after_blank: bool) -> Seq<Seq<char>>
    decreases ls.len(),
{
    if ls.len() == 0 {
        seq![]
    } else {
        let rest = squeezed_lines(ls.drop_first(), is_blank(ls[0]));
        if is_blank(ls[0]) && after_blank {
            rest
        } else {
            seq![trim_end(ls[0])] + rest
        }
    }
}

/// Each line followed by a line feed.
pub open spec fn fed_lines(ls: Seq<Seq<char>>) -> Seq<char>
    decreases ls.len(),
{
    if ls.len() == 0 {
        seq![]
    } else {
        fed_lines(ls.drop_last()) + ls.last().push('\n')
    }
}

/// The text with each run of blank lines squeezed to one, no white space at
/// the end of a line and none at either end.
pub open spec fn squeezed(s: Seq<char>) -> Seq<char> {
    trim(fed_lines(squeezed_lines(lines(s), false)))
}

pub fn squeeze_blank_lines(s: &[char]) -> (r: Vec<char>)
    ensures
        r@ == squeezed(s@),
{
    let all = split_lines(s);
    let n = all.len();
    let ghost ls = texts(all@);
    let mut out: Vec<char> = Vec::new();
    let mut after_blank = false;
    let ghost mut kept: Seq<Seq<char>> = seq![];
    assert(ls.skip(0) =~= ls);
    assert(kept + squeezed_lines(ls, false) =~= squeezed_lines(ls, false));
    let mut i: usize = 0;
    while i < n
        invariant
            i <= n == all@.len(),
            ls == texts(all@),
            out@ == fed_lines(kept),
            kept + squeezed_lines(ls.skip(i as int), after_blank) == squeezed_lines(ls, false),
        decreases n - i,
    {
        let ghost rest = ls.skip(i as int);
        assert(rest[0] == all@[i as int]@);
        assert(rest.drop_first() =~= ls.skip(i + 1));
        let line_blank = blank(all[i].as_slice());
        if !(line_blank && after_blank) {
            let t = trimmed_end(all[i].as_slice());
            let ghost k = kept;
            let ghost was = out@;
            push_all(&mut out, t);
            out.push('\n');
            proof {
                kept = k.push(t@);
                assert(kept.drop_last() =~= k);
                assert(out@ =~= was + t@.push('\n'));
                let more = squeezed_lines(ls.skip(i + 1), line_blank);
                assert(kept + more =~= k + (seq![t@] + more));
            }
        }
        after_blank = line_blank;
        i += 1;
    }
    assert(ls.skip(i as int) =~= seq![]);
    assert(kept + squeezed_lines(ls.skip(i as int), after_blank) =~= kept);
    copy_chars(trimmed(out.as_slice()))
}

/// At most `max` characters; a cut is marked with an ellipsis.
pub open spec fn truncated(s: Seq<char>, max: nat) -> Seq<char> {
    if s.len() > max {
        trim_end(s.take(max as int)).push('\u{2026}')
    } else {
        s
    }
}

/// Cut to `max` characters on a char boundary, marking the cut with an ellipsis.
pub fn truncate_chars(s: &str, max: usize) -> (r: String)
    ensures
        r@ == truncated(s@, max as nat),
{
    let cs = chars_of(s);
    if cs.len() > max {
        let head = &cs.as_slice()[0..max];
        assert(head@ =~= s@.take(max as int));
        let mut out = string_of(trimmed_end(head));
        out.push('\u{2026}');
        out
    } else {
        string_of(cs.as_slice())
    }
}

// ---------------------------------------------------------------------------
// Laws
// ---------------------------------------------------------------------------

/// A text of at most `max` characters is left alone. A longer one loses its
/// end: what is left is a beginning of it, at most `max` characters long,
/// and the ellipsis.
pub proof fn truncation_keeps_a_prefix(s: Seq<char>, max: nat)
    ensures
        s.len() <= max ==> truncated(s, max) == s,
        s.len() > max ==> {
            let head = truncated(s, max).drop_last();
            &&& truncated(s, max).last() == '\u{2026}'
            &&& head.len() <= max
            &&& head == s.take(head.len() as int)
        },
{
    if s.len() > max {
        let head = s.take(max as int);
        lemma_trim_end(head);
        let t = trim_end(head);
        assert(truncated(s, max).drop_last() =~= t);
        assert(t =~= s.take(t.len() as int));
    }
}

proof fn lemma_trim_end_blank(s: Seq<char>)
    ensures
        is_blank(trim_end(s)) == is_blank(s),
        trim_end(trim_end(s)) == trim_end(s),
{
    lemma_trim_end(s);
    let t = trim_end(s);
    if is_blank(t) {
        assert forall|i: int| 0 <= i < s.len() implies is_space(#[trigger] s[i]) by {
            if i < t.len() {
                assert(t[i] == s[i]);
            } else {
                assert(s.skip(t.len() as int)[i - t.len()] == s[i]);
            }
        }
    }
    if is_blank(s) {
        assert forall|i: int| 0 <= i < t.len() implies is_space(#[trigger] t[i]) by {
            assert(t[i] == s[i]);
        }
    }
}

/// Whether the `n` lines from line `i` on are a section that was asked for: a
/// heading that is wanted, and all up to the next heading of the same or a
/// higher level.
pub open spec fn is_section(ls: Seq<Seq<char>>, wanted: Seq<Seq<char>>, i: int, n: int) -> bool {
    &&& 0 <= i < i + n <= ls.len()
    &&& heading_wanted(ls[i], wanted)
    &&& forall|j: int| i < j < i + n ==> !ends_section(#[trigger] ls[j], level(ls[i])->0)
    &&& i + n < ls.len() ==> ends_section(ls[i + n], level(ls[i])->0)
}

proof fn lemma_body_ends(ls: Seq<Seq<char>>, n: nat)
    ensures
        forall|j: int| 0 <= j < body_len(ls, n) ==> !ends_section(#[trigger] ls[j], n),
        body_len(ls, n) < ls.len() ==> ends_section(ls[body_len(ls, n) as int], n),
    decreases ls.len(),
{
    if ls.len() > 0 && !ends_section(ls[0], n) {
        let rest = ls.drop_first();
        lemma_body_len(rest, n);
        lemma_body_ends(rest, n);
        assert forall|j: int| 0 <= j < body_len(ls, n) implies !ends_section(#[trigger] ls[j], n) by {
            if j > 0 {
                assert(rest[j - 1] == ls[j]);
            }
        }
    }
}

/// Each text is that of a section that was asked for, heading line included.
pub proof fn sections_run_to_the_next_heading(ls: Seq<Seq<char>>, wanted: Seq<Seq<char>>, k: int)
    requires
        0 <= k < section_texts(ls, wanted).len(),
    ensures
        exists|i: int, n: int| #[trigger]
            is_section(ls, wanted, i, n) && section_texts(ls, wanted)[k] == trim(join(ls.subrange(i, i + n), seq!['\n'])),
    decreases ls.len(), 0int,
{
    if heading_wanted(ls[0], wanted) {
        let l = level(ls[0])->0;
        let rest = ls.drop_first();
        let n = (1 + body_len(rest, l)) as int;
        lemma_body_len(rest, l);
        lemma_body_ends(rest, l);
        if k == 0 {
            assert forall|j: int| 0 < j < n implies !ends_section(#[trigger] ls[j], l) by {
                assert(rest[j - 1] == ls[j]);
            }
            assert(n < ls.len() ==> rest[n - 1] == ls[n]);
            assert(ls.take(n) =~= ls.subrange(0, 0 + n));
            assert(is_section(ls, wanted, 0, n));
        } else {
            lemma_section_further_on(ls, wanted, n, k - 1);
        }
    } else {
        assert(ls.drop_first() =~= ls.skip(1));
        lemma_section_further_on(ls, wanted, 1, k);
    }
}

/// A section of the lines from `d` on is one of all lines.
proof fn lemma_section_further_on(ls: Seq<Seq<char>>, wanted: Seq<Seq<char>>, d: int, k: int)
    requires
        0 < d <= ls.len(),
        0 <= k < section_texts(ls.skip(d), wanted).len(),
    ensures
        exists|i: int, n: int| #[trigger]
            is_section(ls, wanted, i, n) && section_texts(ls.skip(d), wanted)[k] == trim(join(ls.subrange(i, i + n), seq!['\n'])),
    decreases ls.len() - d, 1int,
{
    let tail = ls.skip(d);
    sections_run_to_the_next_heading(tail, wanted, k);
    let (i, n) = choose|i: int, n: int| #[trigger]
        is_section(tail, wanted, i, n) && section_texts(tail, wanted)[k] == trim(join(tail.subrange(i, i + n), seq!['\n']));
    assert(tail.subrange(i, i + n) =~= ls.subrange(i + d, i + d + n));
    assert forall|j: int| i + d < j < i + d + n implies !ends_section(#[trigger] ls[j], level(ls[i + d])->0) by {
        assert(tail[j - d] == ls[j]);
    }
    assert(is_section(ls, wanted, i + d, n));
}

/// Whether one of the texts holds a line, less the white space around it.
pub open spec fn some_holds(texts: Seq<Seq<char>>, line: Seq<char>) -> bool {
    exists|k: int| 0 <= k < texts.len() && contains_text(#[trigger] texts[k], trim(line))
}

/// No heading that was asked for is lost: it stands in one of the sections.
pub proof fn wanted_headings_are_kept(ls: Seq<Seq<char>>, wanted: Seq<Seq<char>>, i: int)
    requires
        0 <= i < ls.len(),
        heading_wanted(ls[i], wanted),
    ensures
        some_holds(section_texts(ls, wanted), ls[i]),
    decreases ls.len(),
{
    let all = section_texts(ls, wanted);
    if heading_wanted(ls[0], wanted) {
        let n = (1 + body_len(ls.drop_first(), level(ls[0])->0)) as int;
        lemma_body_len(ls.drop_first(), level(ls[0])->0);
        let more = section_texts(ls.skip(n), wanted);
        assert(all == seq![trim(join(ls.take(n), seq!['\n']))] + more);
        if i < n {
            lemma_join_around(ls.take(n), seq!['\n'], i);
            let (a, b) = choose|a: Seq<char>, b: Seq<char>| join(ls.take(n), seq!['\n']) == #[trigger] (a + ls.take(n)[i] + b);
            trim_keeps_inner(a, ls[i], b);
            assert(contains_text(all[0], trim(ls[i])));
        } else {
            assert(ls.skip(n)[i - n] == ls[i]);
            wanted_headings_are_kept(ls.skip(n), wanted, i - n);
            let k = choose|k: int| 0 <= k < more.len() && contains_text(#[trigger] more[k], trim(ls[i]));
            assert(all[k + 1] == more[k]);
        }
    } else {
        assert(ls.drop_first()[i - 1] == ls[i]);
        wanted_headings_are_kept(ls.drop_first(), wanted, i - 1);
    }
}

/// A part of a join stands between what is before it and what is behind it.
proof fn lemma_join_around(parts: Seq<Seq<char>>, sep: Seq<char>, i: int)
    requires
        0 <= i < parts.len(),
    ensures
        exists|a: Seq<char>, b: Seq<char>| join(parts, sep) == #[trigger] (a + parts[i] + b),
    decreases parts.len(),
{
    let none: Seq<char> = seq![];
    if parts.len() == 1 {
        assert(join(parts, sep) =~= none + parts[i] + none);
    } else if i == parts.len() - 1 {
        let a = join(parts.drop_last(), sep) + sep;
        assert(join(parts, sep) =~= a + parts[i] + none);
    } else {
        lemma_join_around(parts.drop_last(), sep, i);
        let front = join(parts.drop_last(), sep);
        let (a, b) = choose|a: Seq<char>, b: Seq<char>| front == #[trigger] (a + parts.drop_last()[i] + b);
        assert(join(parts, sep) =~= a + parts[i] + (b + sep + parts.last()));
    }
}

/// No two blank lines follow each other, and no line ends in white space.
pub open spec fn tight(ls: Seq<Seq<char>>) -> bool {
    &&& forall|i: int| 0 <= i < ls.len() - 1 && is_blank(#[trigger] ls[i]) ==> !is_blank(ls[i + 1])
    &&& forall|i: int| 0 <= i < ls.len() ==> trim_end(#[trigger] ls[i]) == ls[i]
}

/// After squeezing no two blank lines follow each other, and no line ends in
/// white space.
proof fn lemma_squeezed_tight(ls: Seq<Seq<char>>, after_blank: bool)
    ensures
        after_blank && squeezed_lines(ls, after_blank).len() > 0 ==> !is_blank(squeezed_lines(ls, after_blank)[0]),
        tight(squeezed_lines(ls, after_blank)),
    decreases ls.len(),
{
    if ls.len() > 0 {
        let rest = squeezed_lines(ls.drop_first(), is_blank(ls[0]));
        let r = squeezed_lines(ls, after_blank);
        lemma_squeezed_tight(ls.drop_first(), is_blank(ls[0]));
        lemma_trim_end_blank(ls[0]);
        if !(is_blank(ls[0]) && after_blank) {
            assert(r == seq![trim_end(ls[0])] + rest);
            assert forall|i: int| 0 <= i < r.len() - 1 && is_blank(#[trigger] r[i]) implies !is_blank(r[i + 1]) by {
                if i > 0 {
                    assert(r[i] == rest[i - 1]);
                }
            }
            assert forall|i: int| 0 <= i < r.len() implies trim_end(#[trigger] r[i]) == r[i] by {
                if i > 0 {
                    assert(r[i] == rest[i - 1]);
                }
            }
        }
    }
}

/// The lines that are not blank, without trailing white space, each with
/// whether a blank line stands before it.
pub open spec fn full_lines(ls: Seq<Seq<char>>, after_blank: bool) -> Seq<(Seq<char>, bool)>
    decreases ls.len(),
{
    if ls.len() == 0 {
        seq![]
    } else if is_blank(ls[0]) {
        full_lines(ls.drop_first(), true)
    } else {
        seq![(trim_end(ls[0]), after_blank)] + full_lines(ls.drop_first(), false)
    }
}

/// The lines at the head of a text: the first has no white space and no blank
/// line before it.
pub open spec fn headed(ls: Seq<(Seq<char>, bool)>) -> Seq<(Seq<char>, bool)> {
    if ls.len() == 0 {
        ls
    } else {
        ls.update(0, (trim_start(ls[0].0), false))
    }
}

proof fn lemma_squeezing_keeps_full_lines(ls: Seq<Seq<char>>, after_blank: bool)
    ensures
        full_lines(squeezed_lines(ls, after_blank), after_blank) == full_lines(ls, after_blank),
    decreases ls.len(),
{
    if ls.len() > 0 {
        let b = is_blank(ls[0]);
        let rest = squeezed_lines(ls.drop_first(), b);
        let r = squeezed_lines(ls, after_blank);
        lemma_squeezing_keeps_full_lines(ls.drop_first(), b);
        lemma_trim_end_blank(ls[0]);
        if !(b && after_blank) {
            assert(r[0] == trim_end(ls[0]));
            assert(r.drop_first() =~= rest);
        }
    }
}

proof fn lemma_tight_stays(ls: Seq<Seq<char>>, after_blank: bool)
    requires
        tight(ls),
        after_blank && ls.len() > 0 ==> !is_blank(ls[0]),
    ensures
        squeezed_lines(ls, after_blank) == ls,
    decreases ls.len(),
{
    if ls.len() > 0 {
        let rest = ls.drop_first();
        assert forall|i: int| 0 <= i < rest.len() - 1 && is_blank(#[trigger] rest[i]) implies !is_blank(rest[i + 1]) by {
            assert(rest[i] == ls[i + 1]);
            assert(rest[i + 1] == ls[i + 2]);
        }
        assert forall|i: int| 0 <= i < rest.len() implies trim_end(#[trigger] rest[i]) == rest[i] by {
            assert(rest[i] == ls[i + 1]);
        }
        if rest.len() > 0 {
            assert(rest[0] == ls[1]);
        }
        assert(trim_end(ls[0]) == ls[0]);
        lemma_tight_stays(rest, is_blank(ls[0]));
        assert(seq![ls[0]] + rest =~= ls);
    }
}

proof fn lemma_fed_lines_of_both(a: Seq<Seq<char>>, b: Seq<Seq<char>>)
    ensures
        fed_lines(a + b) == fed_lines(a) + fed_lines(b),
    decreases b.len(),
{
    if b.len() == 0 {
        assert(a + b =~= a);
        assert(fed_lines(a) + fed_lines(b) =~= fed_lines(a));
    } else {
        assert((a + b).drop_last() =~= a + b.drop_last());
        lemma_fed_lines_of_both(a, b.drop_last());
        let l = b.last().push('\n');
        assert(fed_lines(a) + fed_lines(b.drop_last()) + l =~= fed_lines(a) + (fed_lines(b.drop_last()) + l));
    }
}

proof fn lemma_fed_lines_join(ls: Seq<Seq<char>>)
    requires
        ls.len() > 0,
    ensures
        fed_lines(ls) == join(ls, seq!['\n']).push('\n'),
    decreases ls.len(),
{
    let front = ls.drop_last();
    if front.len() > 0 {
        lemma_fed_lines_join(front);
        assert(fed_lines(ls) =~= join(ls, seq!['\n']).push('\n'));
    } else {
        assert(fed_lines(front) =~= seq![]);
        assert(fed_lines(ls) =~= ls[0].push('\n'));
    }
}

/// Putting a text before the first part puts it before the join.
proof fn lemma_join_behind(lead: Seq<char>, parts: Seq<Seq<char>>, sep: Seq<char>)
    requires
        parts.len() > 0,
    ensures
        join(parts.update(0, lead + parts[0]), sep) == lead + join(parts, sep),
{
    let more = parts.update(0, lead + parts[0]);
    if parts.len() > 1 {
        lemma_join_first(parts, sep);
        lemma_join_first(more, sep);
        assert(more.drop_first() =~= parts.drop_first());
        let rest = join(parts.drop_first(), sep);
        assert(lead + parts[0] + sep + rest =~= lead + (parts[0] + sep + rest));
    }
}

proof fn lemma_join_ends(parts: Seq<Seq<char>>, sep: Seq<char>)
    requires
        parts.len() > 0,
        parts[0].len() > 0,
        parts.last().len() > 0,
    ensures
        join(parts, sep).len() > 0,
        join(parts, sep)[0] == parts[0][0],
        join(parts, sep).last() == parts.last().last(),
{
    if parts.len() > 1 {
        lemma_join_first(parts, sep);
    }
}

/// A blank line at the end counts for nothing.
proof fn lemma_full_lines_end(ls: Seq<Seq<char>>, end: Seq<char>, after_blank: bool)
    requires
        is_blank(end),
    ensures
        full_lines(ls.push(end), after_blank) == full_lines(ls, after_blank),
    decreases ls.len(),
{
    let all = ls.push(end);
    if ls.len() == 0 {
        assert(all.drop_first() =~= seq![]);
        assert(full_lines(all.drop_first(), true) =~= seq![]);
    } else {
        assert(all.drop_first() =~= ls.drop_first().push(end));
        lemma_full_lines_end(ls.drop_first(), end, is_blank(ls[0]));
    }
}

proof fn lemma_trim_start_full(s: Seq<char>)
    requires
        !is_blank(s),
        trim_end(s) == s,
    ensures
        ({
            let t = trim_start(s);
            &&& t.len() > 0
            &&& !is_space(t[0])
            &&& !is_space(t.last())
            &&& t.last() == s.last()
            &&& trim_end(t) == t
            &&& !is_blank(t)
        }),
{
    lemma_trim_start(s);
    lemma_trim_end(s);
    trim_empty_iff_blank(s);
    let t = trim_start(s);
    if t.len() == 0 {
        assert(trim(s).len() == 0);
    }
    assert(t.last() == s.last());
    assert(!is_space(t[t.len() - 1]));
}

/// The lines that are left between a blank first line and a blank last one.
spec fn inner_lines(kept: Seq<Seq<char>>) -> Seq<Seq<char>> {
    let a: int = if is_blank(kept[0]) {
        1
    } else {
        0
    };
    let b: int = if is_blank(kept.last()) {
        kept.len() - 1
    } else {
        kept.len() as int
    };
    kept.subrange(a, b)
}

/// The inner lines of tight ones that are not all blank: tight, not blank at
/// either end, and all that trimming leaves.
proof fn lemma_inner_lines(kept: Seq<Seq<char>>)
    requires
        tight(kept),
        kept.len() > 1 || (kept.len() == 1 && !is_blank(kept[0])),
        forall|i: int| 0 <= i < kept.len() ==> !(#[trigger] kept[i]).contains('\n'),
    ensures
        ({
            let core = inner_lines(kept);
            let c = core.update(0, trim_start(core[0]));
            &&& core.len() > 0
            &&& tight(c)
            &&& !is_blank(c[0])
            &&& trim(fed_lines(kept)) == join(c, seq!['\n'])
            &&& join(c, seq!['\n']).len() > 0
            &&& !is_space(join(c, seq!['\n'])[0])
            &&& !is_space(join(c, seq!['\n']).last())
            &&& lines(join(c, seq!['\n'])) == c
            &&& full_lines(c, false) == headed(full_lines(kept, false))
        }),
{
    let n = kept.len() as int;
    let a: int = if is_blank(kept[0]) {
        1
    } else {
        0
    };
    let b: int = if is_blank(kept.last()) {
        n - 1
    } else {
        n
    };
    if n > 1 {
        assert(is_blank(kept[0]) ==> !is_blank(kept[1]));
        assert(is_blank(kept[n - 2]) ==> !is_blank(kept[n - 2 + 1]));
    }
    let core = kept.subrange(a, b);
    assert(core == inner_lines(kept));
    assert(!is_blank(core[0]) && !is_blank(core.last()));
    assert forall|i: int| 0 <= i < core.len() implies trim_end(#[trigger] core[i]) == core[i] && !core[i].contains('\n') by {
        assert(core[i] == kept[i + a]);
    }
    assert forall|i: int| 0 <= i < core.len() - 1 && is_blank(#[trigger] core[i]) implies !is_blank(core[i + 1]) by {
        assert(core[i] == kept[i + a]);
        assert(core[i + 1] == kept[i + a + 1]);
    }
    let head = trim_start(core[0]);
    let c = core.update(0, head);
    lemma_trim_start_full(core[0]);
    lemma_trim_start_full(core.last());
    lemma_inner_text(kept, a, b);

    // The inner lines are tight and are read back.
    assert forall|i: int| 0 <= i < c.len() implies trim_end(#[trigger] c[i]) == c[i] && !c[i].contains('\n') && (c[i].len() > 0 ==> c[i].last()
        != '\r') by {
        assert(trim_end(core[i]) == core[i] && !core[i].contains('\n'));
        if i == 0 {
            lemma_trim_start(core[0]);
            assert forall|j: int| 0 <= j < head.len() implies head[j] != '\n' by {
                assert(head[j] == core[0][j + core[0].len() - head.len()]);
                assert(core[0].contains(core[0][j + core[0].len() - head.len()]));
            }
        }
        lemma_trim_end(c[i]);
    }
    assert forall|i: int| 0 <= i < c.len() - 1 && is_blank(#[trigger] c[i]) implies !is_blank(c[i + 1]) by {
        assert(is_blank(core[i]));
        assert(!is_blank(core[i + 1]));
    }
    lemma_join_ends(c, seq!['\n']);
    joined_lines_read_back(c);

    // The lines that are not blank are the same ones.
    let tail = kept.skip(a);
    if a == 1 {
        assert(kept.drop_first() =~= tail);
    } else {
        assert(kept.skip(0) =~= kept);
    }
    assert(full_lines(kept, false) == full_lines(tail, a == 1));
    if b == n {
        assert(tail =~= core);
    } else {
        assert(tail =~= core.push(kept.last()));
        lemma_full_lines_end(core, kept.last(), a == 1);
    }
    assert(c.drop_first() =~= core.drop_first());
    let rest = full_lines(core.drop_first(), false);
    assert(trim_end(core[0]) == core[0]);
    assert(trim_end(c[0]) == head);
    assert(full_lines(kept, false) == seq![(core[0], a == 1)] + rest);
    assert(full_lines(c, false) == seq![(head, false)] + rest);
    assert(headed(full_lines(kept, false)) =~= seq![(head, false)] + rest);
}

/// The text of the inner lines is what trimming leaves.
proof fn lemma_inner_text(kept: Seq<Seq<char>>, a: int, b: int)
    requires
        0 <= a < b <= kept.len(),
        a <= 1,
        kept.len() - b <= 1,
        a == 1 ==> is_blank(kept[0]),
        b < kept.len() ==> is_blank(kept.last()),
        !is_blank(kept[a]),
        !is_blank(kept[b - 1]),
        trim_end(kept[a]) == kept[a],
        trim_end(kept[b - 1]) == kept[b - 1],
    ensures
        ({
            let core = kept.subrange(a, b);
            trim(fed_lines(kept)) == join(core.update(0, trim_start(core[0])), seq!['\n'])
        }),
{
    let n = kept.len() as int;
    let core = kept.subrange(a, b);
    let head = trim_start(core[0]);
    let c = core.update(0, head);
    let lead = core[0].take(core[0].len() - head.len());
    let u = join(c, seq!['\n']);
    lemma_trim_start(core[0]);
    lemma_trim_start_full(core[0]);
    lemma_trim_start_full(core.last());
    lemma_join_ends(c, seq!['\n']);
    assert(lead + head =~= core[0]);
    assert(c.update(0, lead + c[0]) =~= core);
    lemma_join_behind(lead, c, seq!['\n']);
    lemma_fed_lines_join(core);

    let before = fed_lines(kept.take(a));
    let behind = fed_lines(kept.skip(b));
    assert(kept =~= kept.take(a) + (core + kept.skip(b)));
    lemma_fed_lines_of_both(kept.take(a), core + kept.skip(b));
    lemma_fed_lines_of_both(core, kept.skip(b));
    lemma_fed_blank(kept.take(a));
    lemma_fed_blank(kept.skip(b));
    let x = before + lead;
    let y = seq!['\n'] + behind;
    assert forall|i: int| 0 <= i < x.len() implies is_space(#[trigger] x[i]) by {
        if i < before.len() {
            assert(is_space(before[i]));
        } else {
            assert(is_space(lead[i - before.len()]));
        }
    }
    assert forall|i: int| 0 <= i < y.len() implies is_space(#[trigger] y[i]) by {
        if i > 0 {
            assert(is_space(behind[i - 1]));
        }
    }
    assert(fed_lines(kept) =~= x + u + y);
    trim_finds_inner(x, u, y);
}

/// At most one line, and that a blank one, makes a blank text.
proof fn lemma_fed_blank(ls: Seq<Seq<char>>)
    requires
        ls.len() <= 1,
        ls.len() == 1 ==> is_blank(ls[0]),
    ensures
        is_blank(fed_lines(ls)),
{
    let t = fed_lines(ls);
    if ls.len() == 1 {
        assert(fed_lines(ls.drop_last()) =~= seq![]);
        assert(t =~= ls[0].push('\n'));
        assert forall|i: int| 0 <= i < t.len() implies is_space(#[trigger] t[i]) by {
            if i < ls[0].len() {
                assert(is_space(ls[0][i]));
            }
        }
    }
}

/// Squeezing leaves a text without white space at either end, without two
/// blank lines in a row and without white space at the end of a line. Its lines
/// that are not blank are those of the text, in their order, without white
/// space behind them, the first also without white space before it; two of them
/// have a blank line between them exactly where they had one or more. What is
/// squeezed stays as it is when it is squeezed again.
pub proof fn squeezing_keeps_the_text(s: Seq<char>)
    ensures
        trim(squeezed(s)) == squeezed(s),
        tight(lines(squeezed(s))),
        full_lines(lines(squeezed(s)), false) == headed(full_lines(lines(s), false)),
        squeezed(squeezed(s)) == squeezed(s),
{
    let ls = lines(s);
    let kept = squeezed_lines(ls, false);
    let r = squeezed(s);
    lemma_squeezed_tight(ls, false);
    lemma_squeezing_keeps_full_lines(ls, false);
    trim_is_idempotent(fed_lines(kept));
    lines_hold_no_feed(s);
    lemma_squeezed_hold_no_feed(ls, false);
    if kept.len() > 1 || (kept.len() == 1 && !is_blank(kept[0])) {
        lemma_inner_lines(kept);
        let core = inner_lines(kept);
        let c = core.update(0, trim_start(core[0]));
        lemma_tight_stays(c, false);
        lemma_fed_lines_join(c);
        assert(seq![] + r + seq!['\n'] =~= r.push('\n'));
        trim_finds_inner(seq![], r, seq!['\n']);
    } else {
        lemma_fed_blank(kept);
        trim_empty_iff_blank(fed_lines(kept));
        assert(r =~= seq![]);
        assert(lines(r) =~= seq![]);
        assert(squeezed_lines(lines(r), false) =~= seq![]);
        assert(fed_lines(squeezed_lines(lines(r), false)) =~= r);
        assert(full_lines(kept, false) =~= seq![]) by {
            if kept.len() == 1 {
                assert(kept.drop_first() =~= seq![]);
                assert(full_lines(kept.drop_first(), true) =~= seq![]);
            }
        }
        assert(full_lines(lines(r), false) =~= seq![]);
    }
}

proof fn lemma_squeezed_hold_no_feed(ls: Seq<Seq<char>>, after_blank: bool)
    requires
        forall|i: int| 0 <= i < ls.len() ==> !(#[trigger] ls[i]).contains('\n'),
    ensures
        forall|i: int| 0 <= i < squeezed_lines(ls, after_blank).len() ==> !(#[trigger] squeezed_lines(ls, after_blank)[i]).contains('\n'),
    decreases ls.len(),
{
    if ls.len() > 0 {
        let rest = squeezed_lines(ls.drop_first(), is_blank(ls[0]));
        let r = squeezed_lines(ls, after_blank);
        assert forall|i: int| 0 <= i < ls.drop_first().len() implies !(#[trigger] ls.drop_first()[i]).contains('\n') by {
            assert(ls.drop_first()[i] == ls[i + 1]);
        }
        lemma_squeezed_hold_no_feed(ls.drop_first(), is_blank(ls[0]));
        lemma_trim_end(ls[0]);
        let t = trim_end(ls[0]);
        assert forall|j: int| 0 <= j < t.len() implies t[j] != '\n' by {
            assert(t[j] == ls[0][j]);
            assert(ls[0].contains(ls[0][j]));
        }
        assert forall|i: int| 0 <= i < r.len() implies !(#[trigger] r[i]).contains('\n') by {
            if !(is_blank(ls[0]) && after_blank) && i > 0 {
                assert(r[i] == rest[i - 1]);
            }
        }
    }
}

proof fn lemma_until_heading(ls: Seq<Seq<char>>)
    ensures
        forall|i: int| 0 <= i < until_heading(ls).len() ==> level(#[trigger] until_heading(ls)[i]) is None,
    decreases ls.len(),
{
    if ls.len() > 0 && level(ls[0]) is None {
        lemma_until_heading(ls.drop_first());
        let rest = until_heading(ls.drop_first());
        assert forall|i: int| 0 <= i < until_heading(ls).len() implies level(#[trigger] until_heading(ls)[i]) is None by {
            if i > 0 {
                assert(until_heading(ls)[i] == rest[i - 1]);
            }
        }
    }
}

/// No line of the lead is a heading.
pub proof fn lead_has_no_heading(ls: Seq<Seq<char>>)
    ensures
        forall|i: int| 0 <= i < lead_lines(ls).len() ==> level(#[trigger] lead_lines(ls)[i]) is None,
{
    if first_h1(ls) < ls.len() {
        lemma_until_heading(ls.skip((first_h1(ls) + 1) as int));
    } else {
        lemma_until_heading(ls);
    }
}

/// A heading is `n` marks, at least one, and a space; its level is `n`. Nothing
/// else is a heading.
pub proof fn headings_are_marked(marks: Seq<char>, rest: Seq<char>)
    requires
        forall|i: int| 0 <= i < marks.len() ==> #[trigger] marks[i] == '#',
        rest.len() == 0 || rest[0] != '#',
    ensures
        level(marks + rest) == (if marks.len() > 0 && rest.len() > 0 && rest[0] == ' ' {
            Some(marks.len())
        } else {
            None
        }),
{
    lemma_hashes_are(marks, rest);
    if rest.len() > 0 {
        assert((marks + rest)[marks.len() as int] == rest[0]);
    }
}

proof fn lemma_hashes_are(marks: Seq<char>, rest: Seq<char>)
    requires
        forall|i: int| 0 <= i < marks.len() ==> #[trigger] marks[i] == '#',
        rest.len() == 0 || rest[0] != '#',
    ensures
        hashes(marks + rest) == marks.len(),
    decreases marks.len(),
{
    let line = marks + rest;
    if marks.len() == 0 {
        assert(line =~= rest);
    } else {
        assert(marks[0] == '#');
        assert(line.drop_first() =~= marks.drop_first() + rest);
        assert forall|i: int| 0 <= i < marks.drop_first().len() implies #[trigger] marks.drop_first()[i] == '#' by {
            assert(marks[i + 1] == '#');
        }
        lemma_hashes_are(marks.drop_first(), rest);
    }
}

/// The lead is all the lines from just behind the first top-level heading, or
/// from the top where there is none, to just before the next heading of any
/// level, or to the end.
pub proof fn lead_runs_to_the_next_heading(ls: Seq<Seq<char>>, from: int, to: int)
    requires
        0 <= from <= to <= ls.len(),
        from > 0 ==> level(ls[from - 1]) == Some(1nat) && forall|i: int| 0 <= i < from - 1 ==> level(#[trigger] ls[i]) != Some(1nat),
        from == 0 ==> forall|i: int| 0 <= i < ls.len() ==> level(#[trigger] ls[i]) != Some(1nat),
        forall|i: int| from <= i < to ==> level(#[trigger] ls[i]) is None,
        to < ls.len() ==> level(ls[to]) is Some,
    ensures
        lead_lines(ls) == ls.subrange(from, to),
{
    if from > 0 {
        lemma_first_h1_is(ls, from - 1);
        lemma_until_heading_is(ls.skip(from), to - from, from, ls);
        assert(ls.skip(from).take(to - from) =~= ls.subrange(from, to));
    } else {
        lemma_first_h1_is(ls, ls.len() as int);
        assert(ls.skip(0) =~= ls);
        lemma_until_heading_is(ls, to, 0, ls);
        assert(ls.take(to) =~= ls.subrange(0, to));
    }
}

proof fn lemma_first_h1_is(ls: Seq<Seq<char>>, k: int)
    requires
        0 <= k <= ls.len(),
        k < ls.len() ==> level(ls[k]) == Some(1nat),
        forall|i: int| 0 <= i < k ==> level(#[trigger] ls[i]) != Some(1nat),
    ensures
        first_h1(ls) == k,
    decreases ls.len(),
{
    if k > 0 {
        let rest = ls.drop_first();
        assert(level(ls[0]) != Some(1nat));
        assert forall|i: int| 0 <= i < k - 1 implies level(#[trigger] rest[i]) != Some(1nat) by {
            assert(level(ls[i + 1]) != Some(1nat));
        }
        lemma_first_h1_is(rest, k - 1);
    }
}

proof fn lemma_until_heading_is(ls: Seq<Seq<char>>, k: int, d: int, all: Seq<Seq<char>>)
    requires
        0 <= k <= ls.len(),
        0 <= d <= all.len(),
        ls == all.skip(d),
        forall|i: int| d <= i < d + k ==> level(#[trigger] all[i]) is None,
        k < ls.len() ==> level(all[d + k]) is Some,
    ensures
        until_heading(ls) == ls.take(k),
    decreases ls.len(),
{
    if k == 0 {
        assert(ls.take(0) =~= seq![]);
        if ls.len() > 0 {
            assert(ls[0] == all[d]);
        }
    } else {
        assert(ls[0] == all[d]);
        assert(ls.drop_first() =~= all.skip(d + 1));
        lemma_until_heading_is(ls.drop_first(), k - 1, d + 1, all);
        assert(seq![ls[0]] + ls.drop_first().take(k - 1) =~= ls.take(k));
    }
}

/// The lead as text is its lines with line feeds between them, trimmed.
pub proof fn lead_is_its_lines(body: Seq<char>)
    ensures
        lead_text(body) == trim(join(lead_lines(lines(body)), seq!['\n'])),
{
}

/// A heading is asked for where its text, the marks before it aside, holds one
/// of the wanted texts, in whatever case either is written.
pub proof fn headings_are_wanted_by_text(line: Seq<char>, wanted: Seq<Seq<char>>, n: nat)
    requires
        level(line) == Some(n),
    ensures
        heading_wanted(line, wanted) == exists|i: int, a: Seq<char>, b: Seq<char>|
            0 <= i < wanted.len() && lowercase(trim(line.skip(n as int))) == #[trigger] (a + lowercase(wanted[i]) + b),
{
    let t = lowercase(trim(line.skip(n as int)));
    if heading_wanted(line, wanted) {
        let i = choose|i: int| 0 <= i < wanted.len() && contains_text(t, lowercase(#[trigger] wanted[i]));
        occurrence_is_in_place(t, lowercase(wanted[i]));
        let (a, b) = choose|a: Seq<char>, b: Seq<char>| t == #[trigger] (a + lowercase(wanted[i]) + b);
        assert(t == a + lowercase(wanted[i]) + b);
    }
    if exists|i: int, a: Seq<char>, b: Seq<char>| 0 <= i < wanted.len() && t == #[trigger] (a + lowercase(wanted[i]) + b) {
        let (i, a, b) = choose|i: int, a: Seq<char>, b: Seq<char>| 0 <= i < wanted.len() && t == #[trigger] (a + lowercase(wanted[i]) + b);
        occurrence_is_in_place(t, lowercase(wanted[i]));
        assert(contains_text(t, lowercase(wanted[i])));
    }
}

/// Sections follow one another as they do in the text: what comes before a
/// wanted heading that no wanted section holds makes the sections before it,
/// and what comes behind its section those behind it.
pub proof fn sections_come_in_order(ls: Seq<Seq<char>>, wanted: Seq<Seq<char>>, n: int)
    requires
        ls.len() > 0,
    ensures
        section_texts(seq![], wanted).len() == 0,
        !heading_wanted(ls[0], wanted) ==> section_texts(ls, wanted) == section_texts(ls.skip(1), wanted),
        is_section(ls, wanted, 0, n) ==> section_texts(ls, wanted) == seq![trim(join(ls.take(n), seq!['\n']))] + section_texts(ls.skip(n), wanted),
{
    assert(ls.drop_first() =~= ls.skip(1));
    if is_section(ls, wanted, 0, n) {
        let l = level(ls[0])->0;
        let rest = ls.drop_first();
        let m = (1 + body_len(rest, l)) as int;
        lemma_body_len(rest, l);
        lemma_body_ends(rest, l);
        if m < n {
            assert(rest[m - 1] == ls[m]);
        } else if n < m {
            assert(rest[n - 1] == ls[n]);
        }
    }
}

/// A text that is cut keeps all of its first `max` characters but the white
/// space at their end.
pub proof fn truncation_keeps_all_but_space(s: Seq<char>, max: nat)
    requires
        s.len() > max,
    ensures
        ({
            let head = truncated(s, max).drop_last();
            &&& head.len() <= max
            &&& head == s.take(head.len() as int)
            &&& head.len() > 0 ==> !is_space(head.last())
            &&& forall|i: int| head.len() <= i < max ==> is_space(#[trigger] s[i])
        }),
{
    truncation_keeps_a_prefix(s, max);
    let cut = s.take(max as int);
    lemma_trim_end(cut);
    let head = truncated(s, max).drop_last();
    assert(head =~= trim_end(cut));
    assert forall|i: int| head.len() <= i < max implies is_space(#[trigger] s[i]) by {
        assert(cut.skip(head.len() as int)[i - head.len()] == s[i]);
    }
}

} // verus!
