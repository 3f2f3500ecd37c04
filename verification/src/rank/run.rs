//! The course of a ranking: from the files that were found to what is printed.
use vstd::prelude::*;
use vstd::string::*;

use crate::json::{copy_value, json_text, json_tree, json_trees, value_text, JsonTree};
use crate::rank::doc::{doc_state, doc_title, Doc, DocView, Extract, ExtractView};
use crate::rank::front_matter::front_matter;
use crate::rank::options::Opts;
use crate::rank::output::{print_table, skipped, skipped_lines, summary, table_lines, Printed, RowText};
use crate::rank::path::{DocPath, PathView};
use crate::rank::rows::{judged_state, row_json, row_members, rows_shown, shown_count, state_value, summary_text, with_fields, Judged, RowView};
use crate::sorting::views;
use crate::text::strings;

verus! {

// ---------------------------------------------------------------------------
// Reading
// ---------------------------------------------------------------------------

/// What was read of the files: the documents with their titles and the state
/// to judge each in, and the files that could not be read with their reasons.
pub struct Prepared {
    pub docs: Vec<Doc>,
    pub titles: Vec<String>,
    pub states: Vec<serde_json::Value>,
    pub unreadable: Vec<String>,
}

#[verifier::ext_equal]
pub struct PreparedView {
    pub docs: Seq<DocView>,
    pub titles: Seq<Seq<char>>,
    pub states: Seq<JsonTree>,
    pub unreadable: Seq<Seq<char>>,
}

impl View for Prepared {
    type V = PreparedView;

    open spec fn view(&self) -> PreparedView {
        PreparedView {
            docs: views(self.docs@),
            titles: strings(self.titles@),
            states: json_trees(self.states@),
            unreadable: strings(self.unreadable@),
        }
    }
}

pub open spec fn nothing_prepared() -> PreparedView {
    PreparedView { docs: seq![], titles: seq![], states: seq![], unreadable: seq![] }
}

/// A file: where it lies, and its text or why it cannot be read.
#[verifier::ext_equal]
pub struct FileView {
    pub path: PathView,
    pub read: Result<Seq<char>, Seq<char>>,
}

/// The document in a file.
pub open spec fn doc_in(path: PathView, text: Seq<char>) -> DocView {
    DocView { path, fields: front_matter(text).0, body: front_matter(text).1 }
}

/// A document without its body.
pub open spec fn bodiless(d: DocView) -> DocView {
    DocView { body: seq![], ..d }
}

/// One more file taken in. Of a document only its title and the extracted state
/// are kept: its body is dropped.
pub open spec fn took_in(p: PreparedView, f: FileView, question: Seq<char>, ex: ExtractView) -> PreparedView {
    match f.read {
        Ok(text) => PreparedView {
            docs: p.docs.push(bodiless(doc_in(f.path, text))),
            titles: p.titles.push(doc_title(doc_in(f.path, text))),
            states: p.states.push(judged_state(question, doc_state(doc_in(f.path, text), ex))),
            unreadable: p.unreadable,
        },
        Err(e) => PreparedView { unreadable: p.unreadable.push(f.path.shown + ": "@ + e), ..p },
    }
}

/// What a file read says.
pub open spec fn read_view(read: Result<String, String>) -> Result<Seq<char>, Seq<char>> {
    match read {
        Ok(t) => Ok(t@),
        Err(e) => Err(e@),
    }
}

impl Prepared {
    pub fn new() -> (r: Self)
        ensures
            r@ == nothing_prepared(),
    {
        let r = Prepared { docs: Vec::new(), titles: Vec::new(), states: Vec::new(), unreadable: Vec::new() };
        assert(r@ =~= nothing_prepared());
        r
    }

    /// Take in the file at `path`, whose text, or why it cannot be read, is `read`.
    pub fn take_in(&mut self, path: DocPath, read: Result<String, String>, question: &str, ex: &Extract)
        ensures
            final(self)@ == took_in(old(self)@, FileView { path: path@, read: read_view(read) }, question@, ex@),
    {
        let ghost was = self@;
        match read {
            Ok(text) => {
                let d = Doc::parse(path, text.as_str());
                let state = state_value(question, d.to_state(ex));
                let title = d.title();
                let kept = Doc { path: d.path, fields: d.fields, body: String::new() };
                assert(d@ =~= doc_in(path@, text@));
                assert(kept@ =~= bodiless(d@));
                self.docs.push(kept);
                self.titles.push(title);
                self.states.push(state);
                assert(views(self.docs@) =~= was.docs.push(kept@));
                assert(strings(self.titles@) =~= was.titles.push(title@));
                assert(json_trees(self.states@) =~= was.states.push(json_tree(state)));
            },
            Err(e) => {
                let mut m = path.shown.clone();
                m.push_str(": ");
                m.push_str(e.as_str());
                self.unreadable.push(m);
                assert(strings(self.unreadable@) =~= was.unreadable.push(m@));
            },
        }
    }
}

/// What is wrong where there is nothing to rank.
pub fn check_found(files: &Vec<DocPath>, ext: &str) -> (r: Result<(), String>)
    ensures
        match r {
            Ok(_) => files@.len() > 0,
            Err(e) => files@.len() == 0 && e@ == "no ."@ + ext@ + " files under the given paths"@,
        },
{
    if files.len() == 0 {
        let mut m = "no .".to_owned();
        m.push_str(ext);
        m.push_str(" files under the given paths");
        Err(m)
    } else {
        Ok(())
    }
}

// ---------------------------------------------------------------------------
// Printing
// ---------------------------------------------------------------------------

/// The numbers of a row as JSON: its probability, and how sure its role is.
pub struct RowNumbers {
    pub p: serde_json::Value,
    pub confidence: serde_json::Value,
}

/// The JSON lines of the first `k` rows.
pub open spec fn row_json_lines(rows: Seq<RowView>, numbers: Seq<RowNumbers>, k: nat) -> Seq<Seq<char>> {
    Seq::new(
        k,
        |i: int|
            json_text(
                JsonTree::Obj(
                    with_fields(row_members((i + 1) as u64, rows[i], json_tree(numbers[i].p), json_tree(numbers[i].confidence)), rows[i].show),
                ),
            ),
    )
}

/// How a ranking ends: what is printed, and the exit status.
#[derive(Debug)]
pub struct Ending {
    pub printed: Printed,
    pub status: u8,
}

/// End a ranking whose rows are sorted. `texts` and `numbers` hold the numbers
/// of each row, as text for a table and as JSON for JSON lines. Nothing is
/// dropped silently: every document that did not make it into the ranking is
/// listed with its reason, and the status is 2 where judging one failed.
pub fn end_ranking(o: &Opts, j: &Judged, texts: &Vec<RowText>, numbers: &Vec<RowNumbers>, unreadable: &Vec<String>) -> (r: Ending)
    requires
        !o.json ==> texts@.len() >= j.rows@.len(),
        o.json ==> numbers@.len() >= j.rows@.len(),
    ensures
        ({
            let shown = rows_shown(o.top, j@.rows.len());
            &&& strings(r.printed.out@) == (if o.json {
                row_json_lines(j@.rows, numbers@, shown)
            } else {
                table_lines(j@.rows, texts@, strings(o.show@), shown)
            })
            &&& strings(r.printed.err@) == seq![summary_text(j@.rows.len(), shown, j@.model, j@.tokens, o@.record)] + skipped_lines(
                strings(unreadable@),
            ) + skipped_lines(j@.failed)
            &&& r.status == (if j@.failed.len() == 0 {
                0u8
            } else {
                2u8
            })
        }),
{
    let shown = shown_count(o.top, j.rows.len());
    let out = if o.json {
        let ghost want = row_json_lines(j@.rows, numbers@, shown as nat);
        let mut lines: Vec<String> = Vec::new();
        let mut i: usize = 0;
        assert(strings(lines@) =~= want.take(0));
        while i < shown
            invariant
                i <= shown <= j.rows@.len(),
                numbers@.len() >= j.rows@.len(),
                want == row_json_lines(j@.rows, numbers@, shown as nat),
                strings(lines@) == want.take(i as int),
            decreases shown - i,
        {
            let ghost before = strings(lines@);
            assert(j@.rows[i as int] == j.rows@[i as int]@);
            let rank = i as u64 + 1;
            let line = value_text(&row_json(rank, &j.rows[i], copy_value(&numbers[i].p), copy_value(&numbers[i].confidence)));
            assert(want[i as int] == line@);
            lines.push(line);
            assert(strings(lines@) =~= before.push(want[i as int]));
            assert(before.push(want[i as int]) =~= want.take(i + 1));
            i += 1;
        }
        assert(want.take(shown as int) =~= want);
        lines
    } else {
        print_table(&j.rows, texts, &o.show, shown)
    };
    let mut err: Vec<String> = Vec::new();
    let line = summary(j, shown, &o.record);
    let ghost first = line@;
    err.push(line);
    assert(strings(err@) =~= seq![first]);
    push_lines(&mut err, skipped(unreadable));
    push_lines(&mut err, skipped(&j.failed));
    let status: u8 = if j.failed.len() == 0 {
        0
    } else {
        2
    };
    Ending { printed: Printed { out, err }, status }
}

fn push_lines(out: &mut Vec<String>, lines: Vec<String>)
    ensures
        strings(final(out)@) == strings(old(out)@) + strings(lines@),
{
    let ghost was = out@;
    let mut rest = lines;
    out.append(&mut rest);
    assert(strings(out@) =~= strings(was) + strings(lines@));
}

// ---------------------------------------------------------------------------
// Laws
// ---------------------------------------------------------------------------

/// Files taken in one after the other.
pub open spec fn taken(files: Seq<FileView>, question: Seq<char>, ex: ExtractView) -> PreparedView
    decreases files.len(),
{
    if files.len() == 0 {
        nothing_prepared()
    } else {
        took_in(taken(files.drop_last(), question, ex), files.last(), question, ex)
    }
}

/// Every file is accounted for: it is a document with a title and a state, or
/// it is listed as unreadable.
pub proof fn every_file_is_accounted_for(files: Seq<FileView>, question: Seq<char>, ex: ExtractView)
    ensures
        taken(files, question, ex).docs.len() + taken(files, question, ex).unreadable.len() == files.len(),
        taken(files, question, ex).titles.len() == taken(files, question, ex).docs.len(),
        taken(files, question, ex).states.len() == taken(files, question, ex).docs.len(),
    decreases files.len(),
{
    if files.len() > 0 {
        every_file_is_accounted_for(files.drop_last(), question, ex);
    }
}

/// Whether document `i` of those taken in is the one in `f`, under the title
/// that the whole of it gives.
pub open spec fn is_titled_from(p: PreparedView, i: int, f: FileView) -> bool {
    match f.read {
        Ok(text) => p.docs[i] == bodiless(doc_in(f.path, text)) && p.titles[i] == doc_title(doc_in(f.path, text)),
        Err(_) => false,
    }
}

/// Whether some file is the one that document `i` was taken from.
pub open spec fn is_titled_by_file(files: Seq<FileView>, p: PreparedView, i: int) -> bool {
    exists|k: int| 0 <= k < files.len() && is_titled_from(p, i, #[trigger] files[k])
}

/// Each document keeps the title that its file gives, body included, though
/// the body itself is dropped.
pub proof fn titles_are_of_whole_documents(files: Seq<FileView>, question: Seq<char>, ex: ExtractView)
    ensures
        forall|i: int|
            0 <= i < taken(files, question, ex).docs.len() ==> #[trigger] is_titled_by_file(files, taken(files, question, ex), i),
    decreases files.len(),
{
    if files.len() > 0 {
        let before = taken(files.drop_last(), question, ex);
        let p = taken(files, question, ex);
        titles_are_of_whole_documents(files.drop_last(), question, ex);
        every_file_is_accounted_for(files.drop_last(), question, ex);
        assert forall|i: int| 0 <= i < p.docs.len() implies #[trigger] is_titled_by_file(files, p, i) by {
            if i < before.docs.len() {
                assert(is_titled_by_file(files.drop_last(), before, i));
                let k = choose|k: int| 0 <= k < files.len() - 1 && is_titled_from(before, i, #[trigger] files.drop_last()[k]);
                assert(is_titled_from(p, i, files[k]));
            } else {
                assert(is_titled_from(p, i, files[files.len() - 1]));
            }
        }
    }
}

/// Files are taken in one after the other: one that can be read adds its
/// document, its title and the state it is judged in, in this place; one that
/// cannot adds its path and the reason to those that are unreadable.
pub proof fn files_are_taken_in_order(files: Seq<FileView>, question: Seq<char>, ex: ExtractView, i: int)
    requires
        0 <= i < files.len(),
    ensures
        taken(seq![], question, ex).docs.len() == 0,
        taken(seq![], question, ex).unreadable.len() == 0,
        ({
            let all = taken(files, question, ex);
            let before = taken(files.take(i), question, ex);
            let next = taken(files.take(i + 1), question, ex);
            let at = before.docs.len() as int;
            match files[i].read {
                Ok(text) => {
                    let (fields, body) = front_matter(text);
                    let d = DocView { path: files[i].path, fields, body };
                    &&& next.docs.len() == at + 1 <= all.docs.len()
                    &&& next.unreadable.len() == before.unreadable.len() <= all.unreadable.len()
                    &&& all.docs[at].path == files[i].path
                    &&& all.docs[at].fields == fields
                    &&& all.docs[at].body.len() == 0
                    &&& all.titles[at] == doc_title(d)
                    &&& all.states[at] == judged_state(question, doc_state(d, ex))
                },
                Err(e) => {
                    &&& next.docs.len() == at <= all.docs.len()
                    &&& next.unreadable.len() == before.unreadable.len() + 1 <= all.unreadable.len()
                    &&& all.unreadable[before.unreadable.len() as int] == files[i].path.shown + ": "@ + e
                },
            }
        }),
    decreases files.len(),
{
    let front = files.drop_last();
    every_file_is_accounted_for(files.take(i), question, ex);
    every_file_is_accounted_for(front, question, ex);
    assert(files.take(i + 1).drop_last() =~= files.take(i));
    assert(files.take(i + 1).last() == files[i]);
    if i == files.len() - 1 {
        assert(files.take(i + 1) =~= files);
    } else {
        files_are_taken_in_order(front, question, ex, i);
        assert(front.take(i) =~= files.take(i));
        assert(front.take(i + 1) =~= files.take(i + 1));
        every_file_is_accounted_for(files.take(i + 1), question, ex);
    }
}

/// With JSON, each row that is shown is printed on a line of its own, in order:
/// the row's own members with its own numbers under its rank.
pub proof fn json_lines_are_of_their_rows(rows: Seq<RowView>, numbers: Seq<RowNumbers>, k: nat, i: int)
    requires
        0 <= i < k <= rows.len(),
        k <= numbers.len(),
    ensures
        row_json_lines(rows, numbers, k).len() == k,
        row_json_lines(rows, numbers, k)[i] == json_text(
            JsonTree::Obj(
                with_fields(row_members((i + 1) as u64, rows[i], json_tree(numbers[i].p), json_tree(numbers[i].confidence)), rows[i].show),
            ),
        ),
{
}

/// What is prepared is seen whole, in place; a document in a file is what
/// stands before and behind its front matter's fences.
pub proof fn preparations_are_seen_whole(p: Prepared, i: int, path: PathView, text: Seq<char>, t: String)
    ensures
        p@.docs.len() == p.docs@.len() && (0 <= i < p.docs@.len() ==> p@.docs[i] == p.docs@[i]@),
        p@.titles.len() == p.titles@.len() && (0 <= i < p.titles@.len() ==> p@.titles[i] == p.titles@[i]@),
        p@.states.len() == p.states@.len() && (0 <= i < p.states@.len() ==> p@.states[i] == json_tree(p.states@[i])),
        p@.unreadable.len() == p.unreadable@.len() && (0 <= i < p.unreadable@.len() ==> p@.unreadable[i] == p.unreadable@[i]@),
        doc_in(path, text).path == path && (doc_in(path, text).fields, doc_in(path, text).body) == front_matter(text),
        read_view(Ok(t)) == Ok::<Seq<char>, Seq<char>>(t@) && read_view(Err(t)) == Err::<Seq<char>, Seq<char>>(t@),
{
}

} // verus!
