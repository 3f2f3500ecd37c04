//! Markdown documents, cut down to the part worth sending.
//!
//! Nothing here knows about any particular notes collection: which
//! front-matter keys, which sections and which patterns to strip all come
//! from the caller.
use vstd::prelude::*;
use vstd::string::*;
use vstd::utf8::encode_utf8;

use crate::json::{
    as_items, as_text, copy_value, entry_at, entry_keys, json_entries, json_text, json_tree, json_trees, no_entries, no_members, object_value,
    put_entry, string_value, value_text, JsonTree,
};
use crate::rank::front_matter::{front_matter, split_front_matter};
use crate::rank::markdown::{lead, lead_text, section_texts, sections, squeeze_blank_lines, squeezed, truncate_chars, truncated, truncation_keeps_a_prefix};
use crate::rank::path::{file_name, lossy, stem, DocPath, PathView};
use crate::rank::pattern::{erased, Pattern};
use crate::sorting::views;
use crate::text::{
    blank, chars_of, copy_chars, has_prefix, is_blank, join, join_texts, lines, split_lines, starts_with, string_of, strings, texts, trim,
    trim_empty_iff_blank, trimmed,
};

verus! {

/// One document on disk.
pub struct Doc {
    pub path: DocPath,
    /// Flat front matter: scalars become strings, lists become arrays.
    pub fields: serde_json::Map<String, serde_json::Value>,
    /// Markdown after the front matter.
    pub body: String,
}

/// What a document holds.
#[verifier::ext_equal]
pub struct DocView {
    pub path: PathView,
    pub fields: Map<Seq<char>, JsonTree>,
    pub body: Seq<char>,
}

impl View for Doc {
    type V = DocView;

    open spec fn view(&self) -> DocView {
        DocView { path: self.path@, fields: json_entries(self.fields), body: self.body@ }
    }
}

/// How to turn a [`Doc`] into the text the model sees.
#[derive(Debug)]
pub struct Extract {
    /// Front-matter keys to send. Empty means every key.
    pub fields: Vec<String>,
    /// Send the text between the first `# ` heading and the next heading.
    pub lead: bool,
    /// Send sections whose heading contains any of these (case-insensitive).
    /// With neither `lead` nor `sections`, the body is sent from the top.
    pub sections: Vec<String>,
    /// Characters of body text per document (chars, not bytes). 0 = no body.
    pub max_chars: usize,
    /// Deleted from the body, in order, before anything else.
    pub strip: Vec<Pattern>,
}

#[verifier::ext_equal]
pub struct ExtractView {
    pub fields: Seq<Seq<char>>,
    pub lead: bool,
    pub sections: Seq<Seq<char>>,
    pub max_chars: nat,
    pub strip: Seq<Seq<char>>,
}

impl View for Extract {
    type V = ExtractView;

    open spec fn view(&self) -> ExtractView {
        ExtractView {
            fields: strings(self.fields@),
            lead: self.lead,
            sections: strings(self.sections@),
            max_chars: self.max_chars as nat,
            strip: views(self.strip@),
        }
    }
}

impl Default for Extract {
    fn default() -> (r: Self)
        ensures
            r@ == (ExtractView { fields: seq![], lead: false, sections: seq![], max_chars: 2000, strip: seq![] }),
    {
        let r = Extract { fields: Vec::new(), lead: false, sections: Vec::new(), max_chars: 2000, strip: Vec::new() };
        assert(r@ =~= (ExtractView { fields: seq![], lead: false, sections: seq![], max_chars: 2000, strip: seq![] }));
        r
    }
}

// ---------------------------------------------------------------------------
// Title and fields
// ---------------------------------------------------------------------------

pub open spec fn hash_space() -> Seq<char> {
    seq!['#', ' ']
}

/// The text of the first line that starts with `# `.
pub open spec fn first_heading(ls: Seq<Seq<char>>) -> Option<Seq<char>>
    decreases ls.len(),
{
    if ls.len() == 0 {
        None
    } else if starts_with(ls[0], hash_space()) {
        Some(trim(ls[0].skip(2)))
    } else {
        first_heading(ls.drop_first())
    }
}

/// Front-matter `title`, else the first `# ` heading, else the file stem.
pub open spec fn doc_title(d: DocView) -> Seq<char> {
    if d.fields.contains_key("title"@) && (d.fields["title"@] matches JsonTree::Str(t) && t.len() > 0) {
        d.fields["title"@]->Str_0
    } else {
        match first_heading(lines(d.body)) {
            Some(t) => t,
            None => match file_name(d.path.parts) {
                Some(name) => lossy(stem(name)),
                None => seq![],
            },
        }
    }
}

/// Whether a document has its title from the name of its file: neither its
/// front matter nor a heading gives one.
pub open spec fn is_named_by_file(d: DocView) -> bool {
    &&& !(d.fields.contains_key("title"@) && (d.fields["title"@] matches JsonTree::Str(t) && t.len() > 0))
    &&& first_heading(lines(d.body)) is None
    &&& file_name(d.path.parts) is Some
}

/// A value as display text: a string as it is, anything else as JSON.
pub open spec fn shown_value(t: JsonTree) -> Seq<char> {
    match t {
        JsonTree::Str(s) => s,
        _ => json_text(t),
    }
}

/// A front-matter value as display text: lists are joined with ", ".
pub open spec fn shown_field(t: JsonTree) -> Seq<char> {
    match t {
        JsonTree::Arr(items) => join(items.map_values(|v: JsonTree| shown_value(v)), seq![',', ' ']),
        _ => shown_value(t),
    }
}

/// Whether a field is sent: every field but the title, or those asked for.
pub open spec fn field_sent(k: Seq<char>, wanted: Seq<Seq<char>>) -> bool {
    k != "title"@ && (wanted.len() == 0 || wanted.contains(k))
}

/// The fields that are sent.
pub open spec fn sent_fields(fields: Map<Seq<char>, JsonTree>, wanted: Seq<Seq<char>>) -> Map<Seq<char>, JsonTree> {
    Map::new(|k: Seq<char>| fields.contains_key(k) && field_sent(k, wanted), |k: Seq<char>| fields[k])
}

// ---------------------------------------------------------------------------
// Text
// ---------------------------------------------------------------------------

/// The body with the matches of each pattern deleted, one pattern after the other.
pub open spec fn stripped(body: Seq<char>, strip: Seq<Seq<char>>) -> Seq<char>
    decreases strip.len(),
{
    if strip.len() == 0 {
        body
    } else {
        erased(strip.last(), stripped(body, strip.drop_last()))
    }
}

/// The texts that are not blank.
pub open spec fn not_blank(parts: Seq<Seq<char>>) -> Seq<Seq<char>>
    decreases parts.len(),
{
    if parts.len() == 0 {
        seq![]
    } else if is_blank(parts.last()) {
        not_blank(parts.drop_last())
    } else {
        not_blank(parts.drop_last()).push(parts.last())
    }
}

/// The lead, where it is asked for, and the sections asked for.
pub open spec fn wanted_parts(body: Seq<char>, ex: ExtractView) -> Seq<Seq<char>> {
    (if ex.lead {
        seq![lead_text(body)]
    } else {
        seq![]
    }) + section_texts(lines(body), ex.sections)
}

/// The part of the body that is sent, before it is squeezed and cut.
pub open spec fn picked(body: Seq<char>, ex: ExtractView) -> Seq<char> {
    if ex.lead || ex.sections.len() > 0 {
        join(not_blank(wanted_parts(body, ex)), seq!['\n', '\n'])
    } else {
        body
    }
}

/// Body text after stripping, section selection and truncation.
pub open spec fn doc_text(body: Seq<char>, ex: ExtractView) -> Seq<char> {
    if ex.max_chars == 0 {
        seq![]
    } else {
        truncated(squeezed(picked(stripped(body, ex.strip), ex)), ex.max_chars)
    }
}

/// The JSON object sent as `document` in the state: the title, then the
/// fields and the text where there are any.
pub open spec fn doc_state(d: DocView, ex: ExtractView) -> JsonTree {
    let titled = no_members().insert("title"@, JsonTree::Str(doc_title(d)));
    let fields = sent_fields(d.fields, ex.fields);
    let with_fields = if fields == no_members() {
        titled
    } else {
        titled.insert("fields"@, JsonTree::Obj(fields))
    };
    let text = doc_text(d.body, ex);
    JsonTree::Obj(
        if text.len() == 0 {
            with_fields
        } else {
            with_fields.insert("text"@, JsonTree::Str(text))
        },
    )
}

fn wants(k: &String, wanted: &Vec<String>) -> (r: bool)
    ensures
        r == field_sent(k@, strings(wanted@)),
{
    let title: String = "title".to_owned();
    if *k == title {
        return false;
    }
    let n = wanted.len();
    if n == 0 {
        return true;
    }
    let mut i: usize = 0;
    while i < n
        invariant
            i <= n == wanted@.len(),
            n > 0,
            k@ != "title"@,
            forall|j: int| 0 <= j < i ==> (#[trigger] strings(wanted@)[j]) != k@,
        decreases n - i,
    {
        assert(strings(wanted@)[i as int] == wanted@[i as int]@);
        if wanted[i] == *k {
            return true;
        }
        i += 1;
    }
    false
}

impl Doc {
    pub fn parse(path: DocPath, text: &str) -> (r: Self)
        ensures
            r@.path == path@,
            (r@.fields, r@.body) == front_matter(text@),
    {
        let (fields, body) = split_front_matter(text);
        Doc { path, fields, body }
    }

    /// Front-matter `title`, else the first `# ` heading, else the file stem.
    pub fn title(&self) -> (r: String)
        ensures
            r@ == doc_title(self@),
            forall|t: Seq<char>| is_named_by_file(self@) && stem(file_name(self@.path.parts)->0) == #[trigger] encode_utf8(t) ==> r@ == t,
    {
        match entry_at(&self.fields, "title") {
            Some(v) => match as_text(v) {
                Some(t) => {
                    if !t.is_empty() {
                        return t.to_owned();
                    }
                },
                None => {},
            },
            None => {},
        }
        let cs = chars_of(self.body.as_str());
        let all = split_lines(cs.as_slice());
        let ghost ls = texts(all@);
        let mark: Vec<char> = vec!['#', ' '];
        assert(mark@ =~= hash_space());
        let n = all.len();
        let mut i: usize = 0;
        assert(ls.skip(0) =~= ls);
        while i < n
            invariant
                i <= n == all@.len(),
                ls == texts(all@),
                ls == lines(self@.body),
                mark@ == hash_space(),
                first_heading(ls) == first_heading(ls.skip(i as int)),
                !(self@.fields.contains_key("title"@) && (self@.fields["title"@] matches JsonTree::Str(t) && t.len() > 0)),
            decreases n - i,
        {
            assert(ls.skip(i as int)[0] == all@[i as int]@);
            let line = all[i].as_slice();
            if has_prefix(line, mark.as_slice()) {
                let rest = &line[2..line.len()];
                assert(rest@ =~= line@.skip(2));
                return string_of(trimmed(rest));
            }
            assert(ls.skip(i as int).drop_first() =~= ls.skip(i + 1));
            i += 1;
        }
        assert(ls.skip(n as int).len() == 0);
        self.path.stem_text()
    }

    /// A front-matter value as display text (lists joined with ", ").
    pub fn field_text(&self, key: &str) -> (r: Option<String>)
        ensures
            match r {
                Some(s) => self@.fields.contains_key(key@) && s@ == shown_field(self@.fields[key@]),
                None => !self@.fields.contains_key(key@),
            },
    {
        let v = match entry_at(&self.fields, key) {
            Some(v) => v,
            None => {
                return None;
            },
        };
        match as_items(v) {
            Some(items) => {
                let ghost want = json_trees(items@).map_values(|t: JsonTree| shown_value(t));
                let n = items.len();
                let mut parts: Vec<Vec<char>> = Vec::new();
                let mut i: usize = 0;
                assert(texts(parts@) =~= want.take(0));
                while i < n
                    invariant
                        i <= n == items@.len(),
                        want == json_trees(items@).map_values(|t: JsonTree| shown_value(t)),
                        texts(parts@) == want.take(i as int),
                    decreases n - i,
                {
                    let ghost before = texts(parts@);
                    let part = chars_of(display_of(&items[i]).as_str());
                    assert(want[i as int] == shown_value(json_tree(items@[i as int])));
                    parts.push(part);
                    assert(texts(parts@) =~= before.push(want[i as int]));
                    assert(before.push(want[i as int]) =~= want.take(i + 1));
                    i += 1;
                }
                assert(want.take(n as int) =~= want);
                let sep: Vec<char> = vec![',', ' '];
                assert(sep@ =~= seq![',', ' ']);
                Some(string_of(join_texts(&parts, sep.as_slice()).as_slice()))
            },
            None => Some(display_of(v)),
        }
    }

    /// The JSON object sent as `document` in the state.
    pub fn to_state(&self, ex: &Extract) -> (r: serde_json::Value)
        ensures
            json_tree(r) == doc_state(self@, ex@),
    {
        let mut doc = no_entries();
        put_entry(&mut doc, "title".to_owned(), string_value(self.title().as_str()));

        let keys = entry_keys(&self.fields);
        let ghost ks = strings(keys@);
        let ghost sent = sent_fields(self@.fields, ex@.fields);
        let mut fields = no_entries();
        let mut some = false;
        let n = keys.len();
        let mut i: usize = 0;
        assert(ks.take(0) =~= seq![]);
        while i < n
            invariant
                i <= n == keys@.len(),
                ks == strings(keys@),
                ks.to_set() == self@.fields.dom(),
                sent == sent_fields(self@.fields, ex@.fields),
                forall|k: Seq<char>| #[trigger] json_entries(fields).contains_key(k) ==> sent.contains_key(k) && json_entries(fields)[k] == sent[k],
                forall|j: int| 0 <= j < i && sent.contains_key(#[trigger] ks[j]) ==> json_entries(fields).contains_key(ks[j]),
                some == (exists|j: int| 0 <= j < i && sent.contains_key(#[trigger] ks[j])),
            decreases n - i,
        {
            assert(ks[i as int] == keys@[i as int]@);
            assert(ks.to_set().contains(ks[i as int]));
            if wants(&keys[i], &ex.fields) {
                match entry_at(&self.fields, keys[i].as_str()) {
                    Some(v) => {
                        put_entry(&mut fields, keys[i].clone(), copy_value(v));
                        some = true;
                    },
                    None => {},
                }
            }
            i += 1;
        }
        proof {
            assert forall|k: Seq<char>| #[trigger] sent.contains_key(k) implies json_entries(fields).contains_key(k) by {
                assert(ks.to_set().contains(k));
                let j = choose|j: int| 0 <= j < ks.len() && ks[j] == k;
                assert(sent.contains_key(ks[j]));
            }
            assert(json_entries(fields) =~= sent);
            if some {
                let j = choose|j: int| 0 <= j < n && sent.contains_key(#[trigger] ks[j]);
                assert(!no_members().contains_key(ks[j]));
            } else {
                assert forall|k: Seq<char>| !sent.contains_key(k) by {
                    if sent.contains_key(k) {
                        assert(ks.to_set().contains(k));
                        let j = choose|j: int| 0 <= j < ks.len() && ks[j] == k;
                        assert(sent.contains_key(ks[j]));
                    }
                }
                assert(sent =~= no_members());
            }
        }
        if some {
            put_entry(&mut doc, "fields".to_owned(), object_value(fields));
        }
        let text = self.text(ex);
        if !text.as_str().is_empty() {
            put_entry(&mut doc, "text".to_owned(), string_value(text.as_str()));
        }
        object_value(doc)
    }

    /// Body text after stripping, section selection and truncation.
    pub fn text(&self, ex: &Extract) -> (r: String)
        ensures
            r@ == doc_text(self@.body, ex@),
    {
        if ex.max_chars == 0 {
            return String::new();
        }
        let mut body = self.body.clone();
        let n = ex.strip.len();
        let mut i: usize = 0;
        assert(ex@.strip.take(0) =~= seq![]);
        while i < n
            invariant
                i <= n == ex.strip@.len(),
                body@ == stripped(self@.body, ex@.strip.take(i as int)),
            decreases n - i,
        {
            assert(ex@.strip.take(i + 1).drop_last() =~= ex@.strip.take(i as int));
            assert(ex@.strip.take(i + 1).last() == ex.strip@[i as int]@);
            body = ex.strip[i].delete_from(body.as_str());
            i += 1;
        }
        assert(ex@.strip.take(n as int) =~= ex@.strip);
        let cs = chars_of(body.as_str());
        let chosen = if ex.lead || ex.sections.len() > 0 {
            pick(cs.as_slice(), ex)
        } else {
            cs
        };
        let tight = squeeze_blank_lines(chosen.as_slice());
        truncate_chars(string_of(tight.as_slice()).as_str(), ex.max_chars)
    }
}

fn display_of(v: &serde_json::Value) -> (r: String)
    ensures
        r@ == shown_value(json_tree(*v)),
{
    match as_text(v) {
        Some(s) => s.to_owned(),
        None => value_text(v),
    }
}

fn pick(body: &[char], ex: &Extract) -> (r: Vec<char>)
    ensures
        r@ == join(not_blank(wanted_parts(body@, ex@)), seq!['\n', '\n']),
{
    let mut parts: Vec<Vec<char>> = Vec::new();
    if ex.lead {
        parts.push(lead(body));
        assert(texts(parts@) =~= seq![lead_text(body@)]);
    } else {
        assert(texts(parts@) =~= seq![]);
    }
    let ghost head = texts(parts@);
    let mut more = sections(body, &ex.sections);
    let ghost ms = texts(more@);
    parts.append(&mut more);
    assert(texts(parts@) =~= head + ms);
    let ghost all = wanted_parts(body@, ex@);
    let mut kept: Vec<Vec<char>> = Vec::new();
    let n = parts.len();
    let mut i: usize = 0;
    assert(all.take(0) =~= seq![]);
    assert(texts(kept@) =~= seq![]);
    while i < n
        invariant
            i <= n == parts@.len(),
            texts(parts@) == all,
            texts(kept@) == not_blank(all.take(i as int)),
        decreases n - i,
    {
        assert(all.take(i + 1).drop_last() =~= all.take(i as int));
        assert(all.take(i + 1).last() == parts@[i as int]@);
        if !blank(parts[i].as_slice()) {
            let ghost before = texts(kept@);
            kept.push(copy_chars(parts[i].as_slice()));
            assert(texts(kept@) =~= before.push(all[i as int]));
        }
        i += 1;
    }
    assert(all.take(n as int) =~= all);
    let sep: Vec<char> = vec!['\n', '\n'];
    assert(sep@ =~= seq!['\n', '\n']);
    join_texts(&kept, sep.as_slice())
}

/// The text that is sent is at most `max_chars` long, but for the ellipsis
/// that marks a cut; with `max_chars` 0 nothing is sent.
pub proof fn text_is_bounded(body: Seq<char>, ex: ExtractView)
    ensures
        ex.max_chars == 0 ==> doc_text(body, ex).len() == 0,
        doc_text(body, ex).len() <= ex.max_chars + 1,
        doc_text(body, ex).len() > ex.max_chars ==> doc_text(body, ex).last() == '\u{2026}',
{
    truncation_keeps_a_prefix(squeezed(picked(stripped(body, ex.strip), ex)), ex.max_chars);
}

/// The title is never among the fields that are sent, and what is sent is
/// sent as it stands.
pub proof fn sent_fields_are_fields(fields: Map<Seq<char>, JsonTree>, wanted: Seq<Seq<char>>)
    ensures
        !sent_fields(fields, wanted).contains_key("title"@),
        forall|k: Seq<char>| #[trigger] sent_fields(fields, wanted).contains_key(k) ==> fields.contains_pair(k, sent_fields(fields, wanted)[k]),
{
}

/// The title of a document is what its front matter says under `title`, where
/// that is a text that is not empty; else the text behind the first `# ` that a
/// line of its body starts with; else the name of its file without the
/// extension. `i` is the first such line, or the number of lines.
pub proof fn title_is_given_heading_or_stem(d: DocView, i: int)
    requires
        0 <= i <= lines(d.body).len(),
        forall|j: int| 0 <= j < i ==> !((#[trigger] lines(d.body)[j]).len() >= 2 && lines(d.body)[j][0] == '#' && lines(d.body)[j][1] == ' '),
        i < lines(d.body).len() ==> lines(d.body)[i].len() >= 2 && lines(d.body)[i][0] == '#' && lines(d.body)[i][1] == ' ',
    ensures
        (d.fields.contains_key("title"@) && d.fields["title"@] is Str && d.fields["title"@]->Str_0.len() > 0) ==> JsonTree::Str(doc_title(d))
            == d.fields["title"@],
        !(d.fields.contains_key("title"@) && d.fields["title"@] is Str && d.fields["title"@]->Str_0.len() > 0) ==> doc_title(d) == (if i < lines(
            d.body,
        ).len() {
            trim(lines(d.body)[i].skip(2))
        } else if d.path.parts.len() > 0 && d.path.parts.last() is Name {
            lossy(stem(d.path.parts.last()->Name_0))
        } else {
            seq![]
        }),
{
    lemma_first_heading_is(lines(d.body), i);
}

proof fn lemma_first_heading_is(ls: Seq<Seq<char>>, i: int)
    requires
        0 <= i <= ls.len(),
        forall|j: int| 0 <= j < i ==> !((#[trigger] ls[j]).len() >= 2 && ls[j][0] == '#' && ls[j][1] == ' '),
        i < ls.len() ==> ls[i].len() >= 2 && ls[i][0] == '#' && ls[i][1] == ' ',
    ensures
        first_heading(ls) == (if i < ls.len() {
            Some(trim(ls[i].skip(2)))
        } else {
            None
        }),
    decreases ls.len(),
{
    if ls.len() > 0 {
        let l = ls[0];
        if starts_with(l, hash_space()) {
            assert(l.take(2)[0] == '#' && l.take(2)[1] == ' ');
        }
        if l.len() >= 2 && l[0] == '#' && l[1] == ' ' {
            assert(l.take(2) =~= hash_space());
        }
        if i > 0 {
            let rest = ls.drop_first();
            assert forall|j: int| 0 <= j < i - 1 implies !((#[trigger] rest[j]).len() >= 2 && rest[j][0] == '#' && rest[j][1] == ' ') by {
                assert(rest[j] == ls[j + 1]);
            }
            lemma_first_heading_is(rest, i - 1);
        }
    }
}

/// A field is sent exactly where the document has it, it is not the title, and
/// it is asked for or nothing is asked for in particular; it is sent as it is.
pub proof fn fields_asked_for_are_sent(fields: Map<Seq<char>, JsonTree>, wanted: Seq<Seq<char>>, k: Seq<char>)
    ensures
        sent_fields(fields, wanted).contains_key(k) == (fields.contains_key(k) && k != "title"@ && (wanted.len() == 0 || exists|i: int|
            0 <= i < wanted.len() && #[trigger] wanted[i] == k)),
        sent_fields(fields, wanted).contains_key(k) ==> sent_fields(fields, wanted)[k] == fields[k],
{
}

/// A field is shown as its text, a list as the texts of its items with a comma
/// and a space between each two, anything else as JSON.
pub proof fn fields_are_shown(t: JsonTree, shown: Seq<Seq<char>>)
    requires
        t matches JsonTree::Arr(items) ==> shown.len() == items.len() && forall|i: int|
            0 <= i < items.len() ==> #[trigger] shown[i] == (match items[i] {
                JsonTree::Str(s) => s,
                other => json_text(other),
            }),
    ensures
        match t {
            JsonTree::Str(s) => shown_field(t) == s,
            JsonTree::Arr(_) => shown_field(t) == join(shown, seq![',', ' ']),
            _ => shown_field(t) == json_text(t),
        },
{
    if let JsonTree::Arr(items) = t {
        assert(items.map_values(|v: JsonTree| shown_value(v)) =~= shown);
    }
}

/// Patterns are deleted one after the other, each from what the one before it
/// left.
pub proof fn patterns_are_deleted_in_turn(body: Seq<char>, a: Seq<Seq<char>>, p: Seq<char>, b: Seq<Seq<char>>)
    ensures
        stripped(body, seq![]) == body,
        stripped(body, seq![p]) == erased(p, body),
        stripped(body, a + b) == stripped(stripped(body, a), b),
    decreases b.len(),
{
    let one = seq![p];
    assert(one.drop_last() =~= seq![]);
    assert(stripped(body, one.drop_last()) == body);
    if b.len() == 0 {
        assert(a + b =~= a);
    } else {
        assert((a + b).drop_last() =~= a + b.drop_last());
        patterns_are_deleted_in_turn(body, a, p, b.drop_last());
    }
}

/// Of several texts those that are not blank are kept, in order.
pub proof fn blank_texts_are_left_out(a: Seq<Seq<char>>, t: Seq<char>, b: Seq<Seq<char>>)
    ensures
        not_blank(seq![t]) == (if trim(t).len() == 0 {
            Seq::<Seq<char>>::empty()
        } else {
            seq![t]
        }),
        not_blank(a + b) == not_blank(a) + not_blank(b),
    decreases b.len(),
{
    trim_empty_iff_blank(t);
    let one = seq![t];
    assert(one.drop_last() =~= seq![]);
    assert(not_blank(one.drop_last()) =~= seq![]);
    assert(not_blank(one) =~= (if trim(t).len() == 0 {
        Seq::<Seq<char>>::empty()
    } else {
        seq![t]
    }));
    if b.len() == 0 {
        assert(a + b =~= a);
        assert(not_blank(a) + not_blank(b) =~= not_blank(a));
    } else {
        assert((a + b).drop_last() =~= a + b.drop_last());
        blank_texts_are_left_out(a, t, b.drop_last());
        assert(not_blank(a + b) =~= not_blank(a) + not_blank(b));
    }
}

/// What is sent of a body: patterns are deleted first; with neither the lead
/// nor sections asked for the rest is sent from the top, else the lead and the
/// sections that are, those that are not blank, a blank line between each two;
/// what comes of it is squeezed and cut.
pub proof fn text_is_what_was_asked_for(body: Seq<char>, ex: ExtractView)
    requires
        ex.max_chars > 0,
    ensures
        ({
            let b = stripped(body, ex.strip);
            let sections = section_texts(lines(b), ex.sections);
            &&& !ex.lead && ex.sections.len() == 0 ==> doc_text(body, ex) == truncated(squeezed(b), ex.max_chars)
            &&& !ex.lead && ex.sections.len() > 0 ==> doc_text(body, ex) == truncated(
                squeezed(join(not_blank(sections), seq!['\n', '\n'])),
                ex.max_chars,
            )
            &&& ex.lead ==> doc_text(body, ex) == truncated(
                squeezed(join(not_blank(seq![lead_text(b)]) + not_blank(sections), seq!['\n', '\n'])),
                ex.max_chars,
            )
        }),
{
    let b = stripped(body, ex.strip);
    let sections = section_texts(lines(b), ex.sections);
    if ex.lead {
        blank_texts_are_left_out(seq![lead_text(b)], seq![], sections);
    } else {
        assert(seq![] + sections =~= sections);
    }
}

/// The document that is sent holds its title, its fields where any are sent,
/// its text where there is any, and nothing else.
pub proof fn state_holds_the_document(d: DocView, ex: ExtractView)
    ensures
        doc_state(d, ex) matches JsonTree::Obj(m) && {
            &&& m.contains_pair("title"@, JsonTree::Str(doc_title(d)))
            &&& m.contains_key("fields"@) == exists|k: Seq<char>| #[trigger] sent_fields(d.fields, ex.fields).contains_key(k)
            &&& m.contains_key("fields"@) ==> m["fields"@] == JsonTree::Obj(sent_fields(d.fields, ex.fields))
            &&& m.contains_key("text"@) == (doc_text(d.body, ex).len() > 0)
            &&& m.contains_key("text"@) ==> m["text"@] == JsonTree::Str(doc_text(d.body, ex))
            &&& forall|k: Seq<char>| #[trigger] m.contains_key(k) ==> k == "title"@ || k == "fields"@ || k == "text"@
        },
{
    reveal_strlit("title");
    reveal_strlit("fields");
    reveal_strlit("text");
    assert("title"@.len() == 5 && "fields"@.len() == 6 && "text"@.len() == 4);
    let fields = sent_fields(d.fields, ex.fields);
    if !(exists|k: Seq<char>| #[trigger] fields.contains_key(k)) {
        assert(fields =~= no_members());
    } else {
        let k = choose|k: Seq<char>| #[trigger] fields.contains_key(k);
        assert(fields != no_members()) by {
            assert(!no_members().contains_key(k));
        }
    }
}

/// What a document and the way to extract it say is all that they hold.
pub proof fn documents_are_seen_whole(d: Doc, e: Extract, i: int)
    ensures
        d@.path == d.path@ && d@.fields == json_entries(d.fields) && d@.body == d.body@,
        e@.lead == e.lead && e@.max_chars == e.max_chars,
        e@.fields.len() == e.fields@.len() && (0 <= i < e.fields@.len() ==> e@.fields[i] == e.fields@[i]@),
        e@.sections.len() == e.sections@.len() && (0 <= i < e.sections@.len() ==> e@.sections[i] == e.sections@[i]@),
        e@.strip.len() == e.strip@.len() && (0 <= i < e.strip@.len() ==> e@.strip[i] == e.strip@[i]@),
{
}

} // verus!
