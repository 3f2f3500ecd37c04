//! The front matter of a note: `---`-delimited lines of `key: value`.
//!
//! Deliberately small: `key: value`, quoted values, inline lists `[a, "b"]`
//! and block lists (`key:` followed by `- item` lines). Anything nested
//! deeper is kept as its raw text so nothing is silently dropped.
use vstd::prelude::*;

use crate::json::{array_value, json_entries, json_tree, json_trees, no_entries, no_members, put_entry, string_value, JsonTree};
use crate::text::{
    blank, chars_of, contains_text, copy_chars, find_char, first_at, has_char, has_prefix, is_blank, is_space, join, join_contains_each,
    join_texts, lemma_first_at, lemma_first_at_is, lemma_join_first, lemma_trim_end, lemma_trim_end_of, lines, same_text, split_lines,
    starts_with, string_of, texts, trim, trim_empty_iff_blank, trim_end, trim_finds_inner, trim_is_idempotent, trimmed, trimmed_end,
};

verus! {

// ---------------------------------------------------------------------------
// The fences
// ---------------------------------------------------------------------------

pub open spec fn dashes() -> Seq<char> {
    seq!['-', '-', '-']
}

/// What follows the opening `---` line, where the text starts with one.
pub open spec fn after_opening(text: Seq<char>) -> Option<Seq<char>> {
    if starts_with(text, dashes() + seq!['\n']) {
        Some(text.skip(4))
    } else if starts_with(text, dashes() + seq!['\r', '\n']) {
        Some(text.skip(5))
    } else {
        None
    }
}

/// The length of the first line with its line feed.
pub open spec fn first_line_len(s: Seq<char>) -> int {
    if first_at(s, '\n') < s.len() {
        first_at(s, '\n') + 1
    } else {
        s.len() as int
    }
}

/// Where the closing `---` line starts and ends: the first line that holds
/// three dashes and white space behind them.
pub open spec fn closing(s: Seq<char>) -> Option<(int, int)>
    decreases s.len(),
    via closing_end
{
    if s.len() == 0 {
        None
    } else {
        let n = first_line_len(s);
        if trim_end(s.take(n)) == dashes() {
            Some((0, n))
        } else {
            match closing(s.skip(n)) {
                Some((a, b)) => Some((a + n, b + n)),
                None => None,
            }
        }
    }
}

#[via_fn]
proof fn closing_end(s: Seq<char>) {
    lemma_first_at(s, '\n');
}

/// The range of the closing `---` line inside `rest`: (start, end-after-newline).
pub fn find_closing_fence(rest: &[char]) -> (r: Option<(usize, usize)>)
    ensures
        match r {
            Some((a, b)) => closing(rest@) == Some((a as int, b as int)) && a <= b <= rest@.len(),
            None => closing(rest@) is None,
        },
{
    let n = rest.len();
    let fence: Vec<char> = vec!['-', '-', '-'];
    assert(fence@ =~= dashes());
    let mut offset: usize = 0;
    assert(rest@.skip(0) =~= rest@);
    while offset < n
        invariant
            offset <= n == rest@.len(),
            fence@ == dashes(),
            match closing(rest@.skip(offset as int)) {
                Some((a, b)) => closing(rest@) == Some((a + offset, b + offset)),
                None => closing(rest@) is None,
            },
        decreases n - offset,
    {
        let tail = &rest[offset..n];
        assert(tail@ =~= rest@.skip(offset as int));
        let feed = find_char(tail, '\n');
        let len: usize = if feed < tail.len() {
            feed + 1
        } else {
            tail.len()
        };
        let line = &tail[0..len];
        assert(line@ =~= tail@.take(len as int));
        if same_text(trimmed_end(line), fence.as_slice()) {
            return Some((offset, offset + len));
        }
        assert(tail@.skip(len as int) =~= rest@.skip(offset + len));
        offset += len;
    }
    assert(rest@.skip(n as int).len() == 0);
    None
}

// ---------------------------------------------------------------------------
// Values
// ---------------------------------------------------------------------------

/// The text inside a pair of equal quotes.
pub open spec fn quoted(s: Seq<char>, q: char) -> bool {
    s.len() >= 2 && s[0] == q && s.last() == q
}

/// The text without white space at its ends and, inside that, without a pair of quotes.
pub open spec fn unquoted(s: Seq<char>) -> Seq<char> {
    let t = trim(s);
    if quoted(t, '"') || quoted(t, '\'') {
        t.subrange(1, t.len() - 1)
    } else {
        t
    }
}

pub fn unquote(s: &[char]) -> (r: Vec<char>)
    ensures
        r@ == unquoted(s@),
{
    let t = trimmed(s);
    let n = t.len();
    if n >= 2 && ((t[0] == '"' && t[n - 1] == '"') || (t[0] == '\'' && t[n - 1] == '\'')) {
        copy_chars(&t[1..n - 1])
    } else {
        copy_chars(t)
    }
}

/// The pieces between commas outside quotes. `cur` is what was read of the
/// first piece, `quote` the quote that is open.
pub open spec fn pieces(s: Seq<char>, cur: Seq<char>, quote: Option<char>) -> Seq<Seq<char>>
    decreases s.len(),
{
    if s.len() == 0 {
        seq![cur]
    } else {
        let c = s[0];
        let rest = s.drop_first();
        match quote {
            None => if c == '"' || c == '\'' {
                pieces(rest, cur.push(c), Some(c))
            } else if c == ',' {
                seq![cur] + pieces(rest, seq![], None)
            } else {
                pieces(rest, cur.push(c), None)
            },
            Some(q) => pieces(
                rest,
                cur.push(c),
                if c == q {
                    None
                } else {
                    quote
                },
            ),
        }
    }
}

/// Split on commas that are not inside quotes.
pub fn split_top_level_commas(s: &[char]) -> (r: Vec<Vec<char>>)
    ensures
        texts(r@) == pieces(s@, seq![], None),
{
    let n = s.len();
    let mut out: Vec<Vec<char>> = Vec::new();
    let mut cur: Vec<char> = Vec::new();
    let mut quote: Option<char> = None;
    let mut i: usize = 0;
    assert(s@.skip(0) =~= s@);
    assert(cur@ =~= seq![]);
    assert(texts(out@) + pieces(s@, seq![], None) =~= pieces(s@, seq![], None));
    while i < n
        invariant
            i <= n == s@.len(),
            texts(out@) + pieces(s@.skip(i as int), cur@, quote) == pieces(s@, seq![], None),
        decreases n - i,
    {
        let c = s[i];
        let ghost rest = s@.skip(i as int);
        assert(rest.drop_first() =~= s@.skip(i + 1));
        match quote {
            None => {
                if c == '"' || c == '\'' {
                    quote = Some(c);
                    cur.push(c);
                } else if c == ',' {
                    let ghost before = texts(out@);
                    let ghost was = cur@;
                    let mut fresh: Vec<char> = Vec::new();
                    std::mem::swap(&mut fresh, &mut cur);
                    out.push(fresh);
                    assert(cur@ =~= seq![]);
                    assert(texts(out@) =~= before.push(was));
                    let ghost more = pieces(s@.skip(i + 1), seq![], None);
                    assert(before.push(was) + more =~= before + (seq![was] + more));
                } else {
                    cur.push(c);
                }
            },
            Some(q) => {
                if c == q {
                    quote = None;
                }
                cur.push(c);
            },
        }
        i += 1;
    }
    let ghost before = texts(out@);
    let ghost was = cur@;
    assert(s@.skip(i as int).len() == 0);
    out.push(cur);
    assert(texts(out@) =~= before + seq![was]);
    out
}

/// The texts that are left when each is trimmed and the empty ones are left
/// out, without their quotes.
pub open spec fn list_items(parts: Seq<Seq<char>>) -> Seq<JsonTree>
    decreases parts.len(),
{
    if parts.len() == 0 {
        seq![]
    } else {
        let rest = list_items(parts.drop_last());
        if is_blank(parts.last()) {
            rest
        } else {
            rest.push(JsonTree::Str(unquoted(trim(parts.last()))))
        }
    }
}

/// What a value that stands behind its key is: a list where it stands in
/// square brackets, else a text.
pub open spec fn scalar_or_list(v: Seq<char>) -> JsonTree {
    if v.len() >= 2 && v[0] == '[' && v.last() == ']' {
        JsonTree::Arr(list_items(pieces(v.subrange(1, v.len() - 1), seq![], None)))
    } else {
        JsonTree::Str(unquoted(v))
    }
}

pub fn parse_scalar_or_list(v: &[char]) -> (r: serde_json::Value)
    ensures
        json_tree(r) == scalar_or_list(v@),
{
    let n = v.len();
    if n >= 2 && v[0] == '[' && v[n - 1] == ']' {
        let parts = split_top_level_commas(&v[1..n - 1]);
        let ghost ps = texts(parts@);
        let k = parts.len();
        let mut items: Vec<serde_json::Value> = Vec::new();
        let mut i: usize = 0;
        assert(json_trees(items@) =~= seq![]);
        assert(ps.take(0) =~= seq![]);
        while i < k
            invariant
                i <= k == parts@.len(),
                ps == texts(parts@),
                json_trees(items@) == list_items(ps.take(i as int)),
            decreases k - i,
        {
            assert(ps.take(i + 1).drop_last() =~= ps.take(i as int));
            assert(ps.take(i + 1).last() == parts@[i as int]@);
            proof {
                trim_empty_iff_blank(parts@[i as int]@);
            }
            let item = trimmed(parts[i].as_slice());
            if item.len() > 0 {
                let ghost before = json_trees(items@);
                let value = string_value(string_of(unquote(item).as_slice()).as_str());
                items.push(value);
                assert(json_trees(items@) =~= before.push(json_tree(value)));
            }
            i += 1;
        }
        assert(ps.take(k as int) =~= ps);
        array_value(items)
    } else {
        string_value(string_of(unquote(v).as_slice()).as_str())
    }
}

// ---------------------------------------------------------------------------
// Lines
// ---------------------------------------------------------------------------

/// The trimmed texts.
pub open spec fn trims(s: Seq<Seq<char>>) -> Seq<Seq<char>> {
    s.map_values(|t: Seq<char>| trim(t))
}

pub open spec fn is_item(t: Seq<char>) -> bool {
    starts_with(t, seq!['-', ' '])
}

/// What a block of lines under a key is: a list where every line is a
/// `- item`, else the lines as they stand.
pub open spec fn block_value(block: Seq<Seq<char>>) -> JsonTree {
    let items = trims(block);
    if items.len() > 0 && (forall|i: int| 0 <= i < items.len() ==> is_item(#[trigger] items[i])) {
        JsonTree::Arr(items.map_values(|t: Seq<char>| JsonTree::Str(unquoted(t.skip(2)))))
    } else {
        JsonTree::Str(join(items, seq!['\n']))
    }
}

/// The value of a key with `head` behind its colon and `block` in the lines
/// under it. Where there are both, it is the raw text of both.
pub open spec fn entry_value(head: Seq<char>, block: Seq<Seq<char>>) -> JsonTree {
    if head.len() == 0 {
        block_value(block)
    } else if block.len() == 0 {
        scalar_or_list(head)
    } else {
        JsonTree::Str(join(seq![head] + trims(block), seq!['\n']))
    }
}

/// What has been read of the front matter: the fields that are complete, the
/// key whose value is being read, what stands behind its colon, and the lines
/// under it.
#[verifier::ext_equal]
pub struct Matter {
    pub fields: Map<Seq<char>, JsonTree>,
    pub key: Option<Seq<char>>,
    pub head: Seq<char>,
    pub block: Seq<Seq<char>>,
}

pub open spec fn no_matter() -> Matter {
    Matter { fields: no_members(), key: None, head: seq![], block: seq![] }
}

/// The value that is being read put away under its key.
pub open spec fn flushed(m: Matter) -> Matter {
    match m.key {
        Some(k) => Matter { fields: m.fields.insert(k, entry_value(m.head, m.block)), key: None, head: seq![], block: seq![] },
        None => m,
    }
}

pub open spec fn is_indented(line: Seq<char>) -> bool {
    line.len() > 0 && (line[0] == ' ' || line[0] == '\t')
}

/// The key that a line gives a value to: it is not indented, and what stands
/// before its first colon is one word.
pub open spec fn line_key(line: Seq<char>) -> Option<Seq<char>> {
    let k = first_at(line, ':');
    let key = trim(line.take(k));
    if !is_indented(line) && k < line.len() && key.len() > 0 && !key.contains(' ') {
        Some(key)
    } else {
        None
    }
}

/// What stands behind the first colon of a line.
pub open spec fn line_value(line: Seq<char>) -> Seq<char> {
    trim(line.skip(first_at(line, ':') + 1))
}

/// Whether a line belongs to the value that is being read: it is not blank,
/// and it is indented or nothing stands behind the colon of the key.
pub open spec fn continues(m: Matter, line: Seq<char>) -> bool {
    m.key is Some && !is_blank(line) && (m.head.len() == 0 || is_indented(line))
}

/// One more line read.
pub open spec fn line_read(m: Matter, line: Seq<char>) -> Matter {
    match line_key(line) {
        Some(key) => Matter { fields: flushed(m).fields, key: Some(key), head: line_value(line), block: seq![] },
        None => if continues(m, line) {
            Matter { block: m.block.push(line), ..m }
        } else {
            m
        },
    }
}

pub open spec fn lines_read(ls: Seq<Seq<char>>) -> Matter
    decreases ls.len(),
{
    if ls.len() == 0 {
        no_matter()
    } else {
        line_read(lines_read(ls.drop_last()), ls.last())
    }
}

/// The fields of the lines between the fences.
pub open spec fn fields_of(s: Seq<char>) -> Map<Seq<char>, JsonTree> {
    flushed(lines_read(lines(s))).fields
}

/// The fields and the body of a note.
pub open spec fn front_matter(text: Seq<char>) -> (Map<Seq<char>, JsonTree>, Seq<char>) {
    match after_opening(text) {
        Some(rest) => match closing(rest) {
            Some((a, b)) => (fields_of(rest.take(a)), rest.skip(b)),
            None => (no_members(), text),
        },
        None => (no_members(), text),
    }
}

struct Reading {
    fields: serde_json::Map<String, serde_json::Value>,
    key: Option<String>,
    head: Vec<char>,
    block: Vec<Vec<char>>,
}

impl Reading {
    spec fn view(&self) -> Matter {
        Matter {
            fields: json_entries(self.fields),
            key: match self.key {
                Some(k) => Some(k@),
                None => None,
            },
            head: self.head@,
            block: texts(self.block@),
        }
    }

    fn flush(&mut self)
        ensures
            final(self)@ == flushed(old(self)@),
    {
        let mut key: Option<String> = None;
        std::mem::swap(&mut key, &mut self.key);
        match key {
            Some(k) => {
                let value = value_of_entry(self.head.as_slice(), &self.block);
                put_entry(&mut self.fields, k, value);
                self.head = Vec::new();
                self.block = Vec::new();
                assert(self.head@ =~= seq![]);
                assert(texts(self.block@) =~= seq![]);
            },
            None => {
                assert(self@ =~= old(self)@);
            },
        }
    }

    fn read(&mut self, line: &[char])
        ensures
            final(self)@ == line_read(old(self)@, line@),
    {
        let indented = line.len() > 0 && (line[0] == ' ' || line[0] == '\t');
        let colon = find_char(line, ':');
        if !indented && colon < line.len() {
            let before = &line[0..colon];
            assert(before@ =~= line@.take(colon as int));
            let key = trimmed(before);
            if key.len() > 0 && !has_char(key, ' ') {
                let after = &line[colon + 1..line.len()];
                assert(after@ =~= line@.skip(colon + 1));
                self.flush();
                self.key = Some(string_of(key));
                self.head = copy_chars(trimmed(after));
                self.block = Vec::new();
                assert(texts(self.block@) =~= seq![]);
                return;
            }
        }
        if self.key.is_some() && !blank(line) && (self.head.len() == 0 || indented) {
            let ghost before = texts(self.block@);
            self.block.push(copy_chars(line));
            assert(texts(self.block@) =~= before.push(line@));
        }
    }
}

/// Put the trimmed texts of `block` behind those of `out`.
fn push_trimmed(out: &mut Vec<Vec<char>>, block: &Vec<Vec<char>>)
    ensures
        texts(final(out)@) == texts(old(out)@) + trims(texts(block@)),
{
    let ghost was = texts(out@);
    let ghost bs = trims(texts(block@));
    let n = block.len();
    let mut i: usize = 0;
    assert(texts(out@) =~= was + bs.take(0));
    while i < n
        invariant
            i <= n == block@.len(),
            bs == trims(texts(block@)),
            texts(out@) == was + bs.take(i as int),
        decreases n - i,
    {
        let ghost before = texts(out@);
        let t = trimmed(block[i].as_slice());
        assert(t@ == bs[i as int]);
        out.push(copy_chars(t));
        assert(texts(out@) =~= before.push(bs[i as int]));
        assert(before.push(bs[i as int]) =~= was + bs.take(i + 1));
        i += 1;
    }
    assert(bs.take(n as int) =~= bs);
}

fn value_of_entry(head: &[char], block: &Vec<Vec<char>>) -> (r: serde_json::Value)
    ensures
        json_tree(r) == entry_value(head@, texts(block@)),
{
    if head.len() == 0 {
        value_of_block(block)
    } else if block.len() == 0 {
        parse_scalar_or_list(head)
    } else {
        let mut parts: Vec<Vec<char>> = Vec::new();
        parts.push(copy_chars(head));
        assert(texts(parts@) =~= seq![head@]);
        push_trimmed(&mut parts, block);
        let sep: Vec<char> = vec!['\n'];
        assert(sep@ =~= seq!['\n']);
        string_value(string_of(join_texts(&parts, sep.as_slice()).as_slice()).as_str())
    }
}

fn value_of_block(block: &Vec<Vec<char>>) -> (r: serde_json::Value)
    ensures
        json_tree(r) == block_value(texts(block@)),
{
    let n = block.len();
    let dash: Vec<char> = vec!['-', ' '];
    assert(dash@ =~= seq!['-', ' ']);
    let mut items: Vec<Vec<char>> = Vec::new();
    let ghost bs = trims(texts(block@));
    assert(texts(items@) =~= seq![]);
    push_trimmed(&mut items, block);
    assert(seq![] + bs =~= bs);
    let mut listed = n > 0;
    let mut i: usize = 0;
    while i < n
        invariant
            i <= n == block@.len(),
            n == items@.len(),
            dash@ == seq!['-', ' '],
            texts(items@) == bs,
            listed == (n > 0 && forall|j: int| 0 <= j < i ==> is_item(#[trigger] bs[j])),
        decreases n - i,
    {
        assert(items@[i as int]@ == bs[i as int]);
        if !has_prefix(items[i].as_slice(), dash.as_slice()) {
            listed = false;
        }
        i += 1;
    }
    if listed {
        let mut values: Vec<serde_json::Value> = Vec::new();
        let ghost want = bs.map_values(|t: Seq<char>| JsonTree::Str(unquoted(t.skip(2))));
        let mut k: usize = 0;
        while k < n
            invariant
                k <= n == items@.len(),
                n == bs.len(),
                texts(items@) == bs,
                forall|j: int| 0 <= j < n ==> is_item(#[trigger] bs[j]),
                want == bs.map_values(|t: Seq<char>| JsonTree::Str(unquoted(t.skip(2)))),
                json_trees(values@) == want.take(k as int),
            decreases n - k,
        {
            assert(items@[k as int]@ == bs[k as int]);
            assert(is_item(bs[k as int]));
            let t = items[k].as_slice();
            let rest = &t[2..t.len()];
            assert(rest@ =~= bs[k as int].skip(2));
            let value = string_value(string_of(unquote(rest).as_slice()).as_str());
            let ghost before = json_trees(values@);
            values.push(value);
            assert(json_trees(values@) =~= before.push(want[k as int]));
            assert(before.push(want[k as int]) =~= want.take(k + 1));
            k += 1;
        }
        assert(want.take(n as int) =~= want);
        array_value(values)
    } else {
        let sep: Vec<char> = vec!['\n'];
        assert(sep@ =~= seq!['\n']);
        string_value(string_of(join_texts(&items, sep.as_slice()).as_slice()).as_str())
    }
}

/// Split `---`-delimited front matter from the body.
pub fn split_front_matter(text: &str) -> (r: (serde_json::Map<String, serde_json::Value>, String))
    ensures
        (json_entries(r.0), r.1@) == front_matter(text@),
{
    let cs = chars_of(text);
    let feed: Vec<char> = vec!['-', '-', '-', '\n'];
    let crlf: Vec<char> = vec!['-', '-', '-', '\r', '\n'];
    assert(feed@ =~= dashes() + seq!['\n']);
    assert(crlf@ =~= dashes() + seq!['\r', '\n']);
    let start: usize = if has_prefix(cs.as_slice(), feed.as_slice()) {
        4
    } else if has_prefix(cs.as_slice(), crlf.as_slice()) {
        5
    } else {
        return (no_entries(), string_of(cs.as_slice()));
    };
    let rest = &cs.as_slice()[start..cs.len()];
    assert(rest@ =~= text@.skip(start as int));
    match find_closing_fence(rest) {
        None => (no_entries(), string_of(cs.as_slice())),
        Some((a, b)) => {
            let inner = &rest[0..a];
            assert(inner@ =~= rest@.take(a as int));
            let after = &rest[b..rest.len()];
            assert(after@ =~= rest@.skip(b as int));
            let all = split_lines(inner);
            let ghost ls = texts(all@);
            let n = all.len();
            let mut m = Reading { fields: no_entries(), key: None, head: Vec::new(), block: Vec::new() };
            assert(m.head@ =~= seq![]);
            assert(texts(m.block@) =~= seq![]);
            assert(ls.take(0) =~= seq![]);
            let mut i: usize = 0;
            while i < n
                invariant
                    i <= n == all@.len(),
                    ls == texts(all@),
                    m@ == lines_read(ls.take(i as int)),
                decreases n - i,
            {
                assert(ls.take(i + 1).drop_last() =~= ls.take(i as int));
                assert(ls.take(i + 1).last() == all@[i as int]@);
                m.read(all[i].as_slice());
                i += 1;
            }
            assert(ls.take(n as int) =~= ls);
            m.flush();
            (m.fields, string_of(after))
        },
    }
}

// ---------------------------------------------------------------------------
// Laws
// ---------------------------------------------------------------------------

/// The closing line lies within the text.
pub proof fn lemma_closing(s: Seq<char>)
    ensures
        closing(s) matches Some((a, b)) ==> 0 <= a < b <= s.len(),
    decreases s.len(),
{
    if s.len() > 0 {
        lemma_first_at(s, '\n');
        lemma_closing(s.skip(first_line_len(s)));
    }
}

/// A text that does not start with a `---` line has no fields and is all body.
pub proof fn no_opening_is_all_body(text: Seq<char>)
    requires
        after_opening(text) is None,
    ensures
        front_matter(text) == (no_members(), text),
{
}

/// A text whose front matter is never closed has no fields and is all body.
pub proof fn unclosed_is_all_body(text: Seq<char>)
    requires
        after_opening(text) matches Some(rest) && closing(rest) is None,
    ensures
        front_matter(text) == (no_members(), text),
{
}

/// The body is the end of the text: nothing in it is changed or reordered.
pub proof fn body_is_a_suffix(text: Seq<char>)
    ensures
        front_matter(text).1.len() <= text.len(),
        front_matter(text).1 == text.skip(text.len() - front_matter(text).1.len()),
{
    match after_opening(text) {
        Some(rest) => {
            lemma_closing(rest);
            match closing(rest) {
                Some((_, b)) => {
                    assert(rest.skip(b) =~= text.skip(text.len() - (rest.len() - b)));
                },
                None => {
                    assert(text.skip(0) =~= text);
                },
            }
        },
        None => {
            assert(text.skip(0) =~= text);
        },
    }
}

/// No key of the front matter holds a space or is empty.
pub proof fn keys_are_words(ls: Seq<Seq<char>>)
    ensures
        forall|k: Seq<char>| #[trigger] flushed(lines_read(ls)).fields.contains_key(k) ==> k.len() > 0 && !k.contains(' '),
        lines_read(ls).key matches Some(k) ==> k.len() > 0 && !k.contains(' '),
    decreases ls.len(),
{
    if ls.len() > 0 {
        let before = lines_read(ls.drop_last());
        keys_are_words(ls.drop_last());
        assert forall|k: Seq<char>| before.fields.contains_key(k) implies k.len() > 0 && !k.contains(' ') by {
            assert(flushed(before).fields.contains_key(k));
        }
        let next = lines_read(ls);
        assert forall|k: Seq<char>| #[trigger] flushed(next).fields.contains_key(k) implies k.len() > 0 && !k.contains(' ') by {
            if next.key != Some(k) {
                assert(next.fields.contains_key(k));
                assert(flushed(before).fields.contains_key(k));
            }
        }
    }
}

/// Whether a value holds what a line says: the trimmed line where the value is
/// a text, the item of the line where it is a list.
pub open spec fn holds_line(v: JsonTree, line: Seq<char>) -> bool {
    match v {
        JsonTree::Str(s) => contains_text(s, trim(line)),
        JsonTree::Arr(items) => is_item(trim(line)) && items.contains(JsonTree::Str(unquoted(trim(line).skip(2)))),
        _ => false,
    }
}

proof fn lemma_entry_holds_block(head: Seq<char>, block: Seq<Seq<char>>, i: int)
    requires
        0 <= i < block.len(),
    ensures
        holds_line(entry_value(head, block), block[i]),
{
    let items = trims(block);
    assert(items[i] == trim(block[i]));
    if head.len() > 0 {
        let parts = seq![head] + items;
        assert(parts[i + 1] == items[i]);
        join_contains_each(parts, seq!['\n'], i + 1);
    } else if forall|k: int| 0 <= k < items.len() ==> is_item(#[trigger] items[k]) {
        let values = items.map_values(|t: Seq<char>| JsonTree::Str(unquoted(t.skip(2))));
        assert(is_item(items[i]));
        assert(values[i] == JsonTree::Str(unquoted(items[i].skip(2))));
    } else {
        join_contains_each(items, seq!['\n'], i);
    }
}

/// The value of `key` is being read, and line `i` of those under it belongs to it.
proof fn lemma_under_key(before: Seq<Seq<char>>, key_line: Seq<char>, under: Seq<Seq<char>>, i: int)
    requires
        line_key(key_line) is Some,
        forall|j: int| 0 <= j < under.len() ==> line_key(#[trigger] under[j]) is None,
    ensures
        lines_read(before.push(key_line) + under).key == line_key(key_line),
        0 <= i < under.len() && is_indented(under[i]) && !is_blank(under[i]) ==> lines_read(before.push(key_line) + under).block.contains(under[i]),
    decreases under.len(),
{
    let ls = before.push(key_line) + under;
    if under.len() == 0 {
        assert(ls =~= before.push(key_line));
        assert(ls.drop_last() =~= before);
    } else {
        assert(ls.drop_last() =~= before.push(key_line) + under.drop_last());
        assert(ls.last() == under.last());
        assert(line_key(under[under.len() - 1]) is None);
        lemma_under_key(before, key_line, under.drop_last(), i);
        let m = lines_read(ls.drop_last());
        let next = lines_read(ls);
        if 0 <= i < under.len() && is_indented(under[i]) && !is_blank(under[i]) {
            if i < under.len() - 1 {
                let k = choose|k: int| 0 <= k < m.block.len() && m.block[k] == under[i];
                assert(next.block[k] == under[i]);
            } else {
                assert(next.block[m.block.len() as int] == under[i]);
            }
        }
    }
}

/// What a value was when the next key came is what it stays.
proof fn lemma_value_stays(ls: Seq<Seq<char>>, after: Seq<Seq<char>>, key: Seq<char>)
    requires
        lines_read(ls).key == Some(key),
        after.len() > 0 ==> line_key(after[0]) is Some,
        forall|j: int| 0 <= j < after.len() ==> line_key(#[trigger] after[j]) != Some(key),
    ensures
        flushed(lines_read(ls + after)).fields.contains_pair(key, flushed(lines_read(ls)).fields[key]),
        after.len() > 0 ==> lines_read(ls + after).key is Some && lines_read(ls + after).key != Some(key),
    decreases after.len(),
{
    if after.len() == 0 {
        assert(ls + after =~= ls);
    } else {
        assert((ls + after).drop_last() =~= ls + after.drop_last());
        assert((ls + after).last() == after.last());
        assert(line_key(after[after.len() - 1]) != Some(key));
        lemma_value_stays(ls, after.drop_last(), key);
    }
}

/// Nothing that is nested under a key is dropped: every line under a key that
/// is indented and not blank is found in the value of that key, whether or not
/// a text stands behind the colon. The lines under a key end at the next key;
/// a key that comes again takes the place of the earlier one.
pub proof fn nested_lines_are_kept(before: Seq<Seq<char>>, key_line: Seq<char>, under: Seq<Seq<char>>, after: Seq<Seq<char>>, i: int)
    requires
        line_key(key_line) is Some,
        forall|j: int| 0 <= j < under.len() ==> line_key(#[trigger] under[j]) is None,
        after.len() > 0 ==> line_key(after[0]) is Some,
        forall|j: int| 0 <= j < after.len() ==> line_key(#[trigger] after[j]) != line_key(key_line),
        0 <= i < under.len(),
        is_indented(under[i]),
        !is_blank(under[i]),
    ensures
        ({
            let fields = flushed(lines_read(before.push(key_line) + under + after)).fields;
            let key = line_key(key_line)->0;
            fields.contains_key(key) && holds_line(fields[key], under[i])
        }),
{
    let ls = before.push(key_line) + under;
    let key = line_key(key_line)->0;
    lemma_under_key(before, key_line, under, i);
    lemma_value_stays(ls, after, key);
    let m = lines_read(ls);
    let k = choose|k: int| 0 <= k < m.block.len() && m.block[k] == under[i];
    lemma_entry_holds_block(m.head, m.block, k);
}

/// Whether the characters from `a` to `b` are a whole line, its line feed
/// included where it has one.
pub open spec fn is_line_at(s: Seq<char>, a: int, b: int) -> bool {
    &&& 0 <= a < b <= s.len()
    &&& a == 0 || s[a - 1] == '\n'
    &&& b == s.len() || s[b - 1] == '\n'
    &&& forall|i: int| a <= i < b - 1 ==> #[trigger] s[i] != '\n'
}

/// Three dashes and nothing but white space behind them.
pub open spec fn is_fence(line: Seq<char>) -> bool {
    &&& line.len() >= 3
    &&& line[0] == '-' && line[1] == '-' && line[2] == '-'
    &&& forall|i: int| 3 <= i < line.len() ==> is_space(#[trigger] line[i])
}

proof fn lemma_fence(line: Seq<char>)
    ensures
        (trim_end(line) == dashes()) == is_fence(line),
{
    lemma_trim_end(line);
    let t = trim_end(line);
    if t == dashes() {
        assert(line.take(3) == dashes());
        assert(line[0] == line.take(3)[0] && line[1] == line.take(3)[1] && line[2] == line.take(3)[2]);
        assert forall|i: int| 3 <= i < line.len() implies is_space(#[trigger] line[i]) by {
            assert(line.skip(3)[i - 3] == line[i]);
        }
    }
    if is_fence(line) {
        let ws = line.skip(3);
        assert(line =~= dashes() + ws);
        assert forall|i: int| 0 <= i < ws.len() implies is_space(#[trigger] ws[i]) by {
            assert(is_space(line[i + 3]));
        }
        lemma_trim_end_of(dashes(), ws);
    }
}

/// A line is the first one, or a line of what comes behind the first.
proof fn lemma_first_line_or_later(s: Seq<char>, a: int, b: int)
    requires
        is_line_at(s, a, b),
    ensures
        ({
            let n = first_line_len(s);
            &&& (a == 0 && b == n) || (a >= n && is_line_at(s.skip(n), a - n, b - n))
        }),
{
    let n = first_line_len(s);
    lemma_first_at(s, '\n');
    if a == 0 {
        if b < n {
            assert(s[b - 1] == '\n');
            assert(s[b - 1] != '\n');
        } else if b > n {
            assert(s[n - 1] == '\n');
        }
    } else {
        if a < n {
            assert(s[a - 1] == '\n');
            assert(a - 1 < first_at(s, '\n'));
        }
        let rest = s.skip(n);
        if a > n {
            assert(rest[a - n - 1] == s[a - 1]);
        }
        if b < s.len() {
            assert(rest[b - n - 1] == s[b - 1]);
        }
        assert forall|i: int| a - n <= i < b - n - 1 implies #[trigger] rest[i] != '\n' by {
            assert(s[i + n] != '\n');
        }
    }
}

/// The closing fence is a whole line of three dashes and white space behind
/// them, and the first such line: no line before it is one. Where there is no
/// closing fence, no line is one.
pub proof fn closing_fence_is_first(s: Seq<char>)
    ensures
        match closing(s) {
            Some((a, b)) => {
                &&& is_line_at(s, a, b)
                &&& is_fence(s.subrange(a, b))
                &&& forall|c: int, d: int| #[trigger] is_line_at(s, c, d) && c < a ==> !is_fence(s.subrange(c, d))
            },
            None => forall|c: int, d: int| #[trigger] is_line_at(s, c, d) ==> !is_fence(s.subrange(c, d)),
        },
    decreases s.len(),
{
    if s.len() > 0 {
        let n = first_line_len(s);
        let rest = s.skip(n);
        lemma_first_at(s, '\n');
        lemma_fence(s.take(n));
        assert(s.take(n) =~= s.subrange(0, n));
        assert(is_line_at(s, 0, n));
        closing_fence_is_first(rest);
        if trim_end(s.take(n)) != dashes() {
            assert forall|c: int, d: int| #[trigger] is_line_at(s, c, d) && (closing(s) matches Some((a, b)) ==> c < a) implies !is_fence(
                s.subrange(c, d),
            ) by {
                lemma_first_line_or_later(s, c, d);
                if c >= n {
                    assert(rest.subrange(c - n, d - n) =~= s.subrange(c, d));
                    assert(is_line_at(rest, c - n, d - n));
                }
            }
            if let Some((a, b)) = closing(rest) {
                assert(rest.subrange(a, b) =~= s.subrange(a + n, b + n));
                assert(is_line_at(s, a + n, b + n)) by {
                    assert forall|i: int| a + n <= i < b + n - 1 implies #[trigger] s[i] != '\n' by {
                        assert(rest[i - n] != '\n');
                    }
                    if a > 0 {
                        assert(rest[a - 1] == s[a + n - 1]);
                    } else if n < s.len() {
                        assert(s[n - 1] == '\n');
                    }
                    if b < rest.len() {
                        assert(rest[b - 1] == s[b + n - 1]);
                    }
                }
            }
        }
    }
}

/// A note that opens with a `---` line is split at the first fence behind it:
/// the fields are those of the lines between the two, the body is all that
/// stands behind the second.
pub proof fn split_at_first_fence(text: Seq<char>, rest: Seq<char>, a: int, b: int)
    requires
        text == seq!['-', '-', '-', '\n'] + rest || text == seq!['-', '-', '-', '\r', '\n'] + rest,
        is_line_at(rest, a, b),
        is_fence(rest.subrange(a, b)),
        forall|c: int, d: int| #[trigger] is_line_at(rest, c, d) && c < a ==> !is_fence(rest.subrange(c, d)),
    ensures
        front_matter(text) == (fields_of(rest.take(a)), rest.skip(b)),
{
    if text == seq!['-', '-', '-', '\n'] + rest {
        assert(text.take(4) =~= dashes() + seq!['\n']);
        assert(text.skip(4) =~= rest);
    } else {
        assert(text[3] == '\r');
        assert((dashes() + seq!['\n'])[3] == '\n');
        assert(text.take(4)[3] == '\r');
        assert(text.take(5) =~= dashes() + seq!['\r', '\n']);
        assert(text.skip(5) =~= rest);
    }
    closing_fence_is_first(rest);
    if let Some((x, y)) = closing(rest) {
        if x < a {
            assert(is_line_at(rest, x, y));
        } else if a < x {
            assert(is_line_at(rest, a, b));
        } else if y < b {
            assert(rest[y - 1] == '\n');
        } else if b < y {
            assert(rest[b - 1] == '\n');
        }
    }
}

/// The lines under a key that belong to its value: those that are not blank
/// and, where a text stands behind the colon, are indented.
pub open spec fn kept_lines(head: Seq<char>, under: Seq<Seq<char>>) -> Seq<Seq<char>> {
    under.filter(|l: Seq<char>| !is_blank(l) && (head.len() == 0 || is_indented(l)))
}

proof fn lemma_block_under_key(before: Seq<Seq<char>>, key_line: Seq<char>, under: Seq<Seq<char>>)
    requires
        line_key(key_line) is Some,
        forall|j: int| 0 <= j < under.len() ==> line_key(#[trigger] under[j]) is None,
    ensures
        ({
            let m = lines_read(before.push(key_line) + under);
            &&& m.key == line_key(key_line)
            &&& m.head == line_value(key_line)
            &&& m.block == kept_lines(line_value(key_line), under)
        }),
    decreases under.len(),
{
    reveal(Seq::filter);
    let ls = before.push(key_line) + under;
    if under.len() == 0 {
        assert(ls =~= before.push(key_line));
        assert(ls.drop_last() =~= before);
        assert(lines_read(ls).block =~= kept_lines(line_value(key_line), under));
    } else {
        assert(ls.drop_last() =~= before.push(key_line) + under.drop_last());
        assert(ls.last() == under.last());
        assert(line_key(under[under.len() - 1]) is None);
        lemma_block_under_key(before, key_line, under.drop_last());
    }
}

/// Every key has the value that its own lines give: what stands behind its
/// colon and the lines under it, up to the next key. A key that comes again
/// takes the place of the earlier one.
pub proof fn each_key_has_its_value(before: Seq<Seq<char>>, key_line: Seq<char>, under: Seq<Seq<char>>, after: Seq<Seq<char>>)
    requires
        line_key(key_line) is Some,
        forall|j: int| 0 <= j < under.len() ==> line_key(#[trigger] under[j]) is None,
        after.len() > 0 ==> line_key(after[0]) is Some,
        forall|j: int| 0 <= j < after.len() ==> line_key(#[trigger] after[j]) != line_key(key_line),
    ensures
        flushed(lines_read(before.push(key_line) + under + after)).fields.contains_pair(
            line_key(key_line)->0,
            entry_value(line_value(key_line), kept_lines(line_value(key_line), under)),
        ),
{
    lemma_block_under_key(before, key_line, under);
    lemma_value_stays(before.push(key_line) + under, after, line_key(key_line)->0);
}

/// There are no other keys than those that a line gives a value to.
pub proof fn keys_come_from_lines(ls: Seq<Seq<char>>, k: Seq<char>)
    requires
        flushed(lines_read(ls)).fields.contains_key(k),
    ensures
        exists|i: int| 0 <= i < ls.len() && line_key(#[trigger] ls[i]) == Some(k),
    decreases ls.len(),
{
    if ls.len() > 0 {
        let front = ls.drop_last();
        let last = ls.len() - 1;
        if line_key(ls[last]) != Some(k) {
            assert(flushed(lines_read(front)).fields.contains_key(k));
            keys_come_from_lines(front, k);
            let i = choose|i: int| 0 <= i < front.len() && line_key(#[trigger] front[i]) == Some(k);
            assert(ls[i] == front[i]);
        }
    }
}

/// A line `key: value` gives the key what stands behind the first colon: the
/// key is one word at the start of the line.
pub proof fn key_lines_split_at_the_colon(key: Seq<char>, value: Seq<char>)
    requires
        key.len() > 0,
        !key.contains(':'),
        !key.contains(' '),
        !is_space(key[0]),
        !is_space(key.last()),
    ensures
        line_key(key + seq![':'] + value) == Some(key),
        line_value(key + seq![':'] + value) == trim(value),
{
    let line = key + seq![':'] + value;
    let n = key.len() as int;
    assert forall|i: int| 0 <= i < n implies #[trigger] line[i] != ':' by {
        assert(key.contains(key[i]));
    }
    lemma_first_at_is(line, ':', n);
    assert(line.take(n) =~= key);
    assert(line.skip(n + 1) =~= value);
    trim_finds_inner(seq![], key, seq![]);
    assert(seq![] + key + seq![] =~= key);
    assert(line[0] == key[0]);
}

/// A line that is indented, or that has no colon, gives no key a value.
pub proof fn other_lines_give_no_key(line: Seq<char>)
    requires
        (line.len() > 0 && (line[0] == ' ' || line[0] == '\t')) || !line.contains(':'),
    ensures
        line_key(line) is None,
{
    lemma_first_at(line, ':');
    if !line.contains(':') && first_at(line, ':') < line.len() {
        assert(line[first_at(line, ':')] == ':');
    }
}

/// What stands behind a colon is a text without the quotes around it, or a
/// list where it stands in square brackets: of the parts between its commas,
/// those inside quotes aside, each that is not blank.
pub proof fn scalars_and_lists(v: Seq<char>)
    ensures
        (v.len() >= 2 && v[0] == '[' && v.last() == ']') ==> (scalar_or_list(v) matches JsonTree::Arr(items) && items == list_items(
            pieces(v.subrange(1, v.len() - 1), seq![], None),
        )),
        !(v.len() >= 2 && v[0] == '[' && v.last() == ']') ==> scalar_or_list(v) == JsonTree::Str(unquoted(v)),
        entry_value(v, seq![]) == (if v.len() == 0 {
            JsonTree::Str(seq![])
        } else {
            scalar_or_list(v)
        }),
{
    if v.len() == 0 {
        let none: Seq<Seq<char>> = seq![];
        assert(trims(none) =~= seq![]);
        assert(join(trims(none), seq!['\n']) =~= seq![]);
    }
}

/// A pair of quotes comes off once; a text without one is only trimmed.
pub proof fn quotes_come_off(x: Seq<char>, q: char)
    ensures
        q == '"' || q == '\'' ==> unquoted(seq![q] + x + seq![q]) == x,
        x.len() > 0 && trim(x).len() > 0 && trim(x)[0] != '"' && trim(x)[0] != '\'' ==> unquoted(x) == trim(x),
{
    if q == '"' || q == '\'' {
        let t = seq![q] + x + seq![q];
        trim_finds_inner(seq![], t, seq![]);
        assert(seq![] + t + seq![] =~= t);
        assert(t.subrange(1, t.len() - 1) =~= x);
    }
}

/// Splitting at commas loses nothing: the pieces with commas between them are
/// the text.
pub proof fn pieces_join_to_the_text(s: Seq<char>, cur: Seq<char>, quote: Option<char>)
    ensures
        join(pieces(s, cur, quote), seq![',']) == cur + s,
        pieces(s, cur, quote).len() > 0,
    decreases s.len(),
{
    if s.len() == 0 {
        assert(cur + s =~= cur);
    } else {
        let c = s[0];
        let rest = s.drop_first();
        if quote is None && c == ',' {
            let more = pieces(rest, seq![], None);
            pieces_join_to_the_text(rest, seq![], None);
            let all = seq![cur] + more;
            lemma_join_first(all, seq![',']);
            assert(all.drop_first() =~= more);
            assert(seq![] + rest =~= rest);
            assert(join(all, seq![',']) =~= cur + s);
        } else {
            let next = match quote {
                None => if c == '"' || c == '\'' {
                    Some(c)
                } else {
                    None
                },
                Some(q) => if c == q {
                    None
                } else {
                    quote
                },
            };
            pieces_join_to_the_text(rest, cur.push(c), next);
            assert(cur.push(c) + rest =~= cur + s);
        }
    }
}

/// Without quotes in it, a text is split at every comma.
pub proof fn plain_pieces_hold_no_comma(s: Seq<char>, cur: Seq<char>)
    requires
        !s.contains('"'),
        !s.contains('\''),
        !cur.contains(','),
    ensures
        forall|i: int| 0 <= i < pieces(s, cur, None).len() ==> !(#[trigger] pieces(s, cur, None)[i]).contains(','),
    decreases s.len(),
{
    if s.len() > 0 {
        let c = s[0];
        let rest = s.drop_first();
        assert(s.contains(s[0]));
        assert(c != '"' && c != '\'');
        assert(!rest.contains('"') && !rest.contains('\'')) by {
            if rest.contains('"') {
                let i = choose|i: int| 0 <= i < rest.len() && rest[i] == '"';
                assert(s[i + 1] == '"');
            }
            if rest.contains('\'') {
                let i = choose|i: int| 0 <= i < rest.len() && rest[i] == '\'';
                assert(s[i + 1] == '\'');
            }
        }
        let all = pieces(s, cur, None);
        if c == ',' {
            let more = pieces(rest, seq![], None);
            plain_pieces_hold_no_comma(rest, seq![]);
            assert forall|i: int| 0 <= i < all.len() implies !(#[trigger] all[i]).contains(',') by {
                if i > 0 {
                    assert(all[i] == more[i - 1]);
                }
            }
        } else {
            let next = cur.push(c);
            assert(!next.contains(',')) by {
                if next.contains(',') {
                    let i = choose|i: int| 0 <= i < next.len() && next[i] == ',';
                    if i < cur.len() {
                        assert(cur[i] == ',');
                    }
                }
            }
            plain_pieces_hold_no_comma(rest, next);
            assert(all == pieces(rest, next, None));
        }
    } else {
        assert(pieces(s, cur, None) =~= seq![cur]);
    }
}

/// No comma inside quotes splits a text.
pub proof fn quoted_commas_do_not_split(x: Seq<char>, q: char, cur: Seq<char>, rest: Seq<char>)
    requires
        q == '"' || q == '\'',
        !x.contains(q),
    ensures
        pieces(x + seq![q] + rest, cur, Some(q)) == pieces(rest, cur + x + seq![q], None),
    decreases x.len(),
{
    let s = x + seq![q] + rest;
    if x.len() == 0 {
        assert(s.drop_first() =~= rest);
        assert(cur.push(q) =~= cur + x + seq![q]);
    } else {
        let more = x.drop_first();
        assert(x.contains(x[0]));
        assert(!more.contains(q)) by {
            if more.contains(q) {
                let i = choose|i: int| 0 <= i < more.len() && more[i] == q;
                assert(x[i + 1] == q);
            }
        }
        assert(s.drop_first() =~= more + seq![q] + rest);
        quoted_commas_do_not_split(more, q, cur.push(x[0]), rest);
        assert(cur.push(x[0]) + more + seq![q] =~= cur + x + seq![q]);
    }
}

/// The items of a list are its parts that are not blank, in order, each
/// trimmed and without its quotes.
pub proof fn list_items_of_parts(a: Seq<Seq<char>>, part: Seq<char>, b: Seq<Seq<char>>)
    ensures
        list_items(a + b) == list_items(a) + list_items(b),
        list_items(seq![part]) == (if trim(part).len() == 0 {
            Seq::<JsonTree>::empty()
        } else {
            seq![JsonTree::Str(unquoted(part))]
        }),
    decreases b.len(),
{
    trim_empty_iff_blank(part);
    trim_is_idempotent(part);
    let one = seq![part];
    assert(one.drop_last() =~= seq![]);
    assert(list_items(one.drop_last()) =~= seq![]);
    assert(list_items(one) =~= (if trim(part).len() == 0 {
        Seq::<JsonTree>::empty()
    } else {
        seq![JsonTree::Str(unquoted(part))]
    }));
    if b.len() == 0 {
        assert(a + b =~= a);
        assert(list_items(a) + list_items(b) =~= list_items(a));
    } else {
        assert((a + b).drop_last() =~= a + b.drop_last());
        list_items_of_parts(a, part, b.drop_last());
        assert(list_items(a + b) =~= list_items(a) + list_items(b));
    }
}

/// A block under a key without a text behind its colon is a list exactly where
/// all its lines start with `- `, and then holds what stands behind each; else
/// it is its trimmed lines with line feeds between them.
pub proof fn blocks_are_lists_or_lines(block: Seq<Seq<char>>)
    ensures
        (block.len() > 0 && forall|i: int| 0 <= i < block.len() ==> is_item(trim(#[trigger] block[i]))) ==> (entry_value(
            seq![],
            block,
        ) matches JsonTree::Arr(items) && items.len() == block.len() && forall|i: int|
            0 <= i < block.len() ==> #[trigger] items[i] == JsonTree::Str(unquoted(trim(block[i]).skip(2)))),
        (exists|i: int| 0 <= i < block.len() && !is_item(trim(#[trigger] block[i]))) ==> (entry_value(seq![], block) matches JsonTree::Str(t) && t
            == join(block.map_values(|l: Seq<char>| trim(l)), seq!['\n'])),
{
    let items = trims(block);
    assert(items =~= block.map_values(|l: Seq<char>| trim(l)));
    if exists|i: int| 0 <= i < block.len() && !is_item(trim(#[trigger] block[i])) {
        let i = choose|i: int| 0 <= i < block.len() && !is_item(trim(#[trigger] block[i]));
        assert(!is_item(items[i]));
    } else {
        assert forall|i: int| 0 <= i < items.len() implies is_item(#[trigger] items[i]) by {
            assert(is_item(trim(block[i])));
        }
    }
}

} // verus!
