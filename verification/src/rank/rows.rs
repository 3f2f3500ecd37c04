//! What is printed: one row per document, the most relevant first.
use vstd::prelude::*;
use vstd::string::*;

use crate::answer::{RawAnswer, RawAnswers};
use crate::binary64::{place_follows_size, Binary64};
use crate::error::{Error, ErrorView};
use crate::hash::{hash_json, tree_hash};
use crate::json::{
    copy_value, json_entries, json_tree, member, no_entries, no_members, object_value, put_entry, string_value, uint_value, JsonTree,
};
use crate::numeral::decimal;
use crate::order::Rel;
use crate::rank::doc::{shown_field, Doc, DocView};
use crate::rank::path::{compare_paths, path_lt, path_order, DocPath, PathView};
use crate::rank::questions::{RELEVANT, ROLE};
use crate::sorting::{arranged, arranged_is_sorted, in_order, sort, views, weak_order, Ranked};
use crate::text::{chars_of, string_of, strings};

verus! {

/// One document in the ranking.
#[derive(Debug)]
pub struct Row {
    pub id: String,
    pub path: DocPath,
    pub title: String,
    /// The probability that the document helps.
    pub p: Binary64,
    /// What it contributes, and how sure that is.
    pub role: Option<(String, Binary64)>,
    /// Front-matter keys to print, with their values.
    pub show: Vec<(String, String)>,
}

#[verifier::ext_equal]
pub struct RowView {
    pub id: Seq<char>,
    pub path: PathView,
    pub title: Seq<char>,
    pub p: Binary64,
    pub role: Option<(Seq<char>, Binary64)>,
    pub show: Seq<(Seq<char>, Seq<char>)>,
}

pub open spec fn pair_views(v: Seq<(String, String)>) -> Seq<(Seq<char>, Seq<char>)> {
    v.map_values(|e: (String, String)| (e.0@, e.1@))
}

impl View for Row {
    type V = RowView;

    open spec fn view(&self) -> RowView {
        RowView {
            id: self.id@,
            path: self.path@,
            title: self.title@,
            p: self.p,
            role: match self.role {
                Some((c, conf)) => Some((c@, conf)),
                None => None,
            },
            show: pair_views(self.show@),
        }
    }
}

// ---------------------------------------------------------------------------
// The state
// ---------------------------------------------------------------------------

/// The state that is judged: the question and the document.
pub open spec fn judged_state(query: Seq<char>, document: JsonTree) -> JsonTree {
    JsonTree::Obj(no_members().insert("query"@, JsonTree::Str(query)).insert("document"@, document))
}

/// The state for a question and a document.
pub fn state_value(query: &str, document: serde_json::Value) -> (r: serde_json::Value)
    ensures
        json_tree(r) == judged_state(query@, json_tree(document)),
{
    let mut m = no_entries();
    put_entry(&mut m, "query".to_owned(), string_value(query));
    put_entry(&mut m, "document".to_owned(), document);
    object_value(m)
}

// ---------------------------------------------------------------------------
// Rows
// ---------------------------------------------------------------------------

/// The first 8 characters of a state hash.
pub open spec fn short(state_hash: Seq<char>) -> Seq<char> {
    if state_hash.len() > 8 {
        state_hash.take(8)
    } else {
        state_hash
    }
}

/// The first 8 hex characters of a record's state hash: what marking takes.
pub fn short_id(state_hash: &str) -> (r: String)
    ensures
        r@ == short(state_hash@),
{
    let cs = chars_of(state_hash);
    if cs.len() > 8 {
        let head = &cs.as_slice()[0..8];
        assert(head@ =~= state_hash@.take(8));
        string_of(head)
    } else {
        string_of(cs.as_slice())
    }
}

/// The keys to print with their values; nothing for one that a document lacks.
pub open spec fn shown_fields(d: DocView, show: Seq<Seq<char>>) -> Seq<(Seq<char>, Seq<char>)> {
    show.map_values(
        |k: Seq<char>|
            (
                k,
                if d.fields.contains_key(k) {
                    shown_field(d.fields[k])
                } else {
                    seq![]
                },
            ),
    )
}

/// The role that an answer gives a document.
pub open spec fn answered_role(answers: Map<Seq<char>, RawAnswer>) -> Option<(Seq<char>, Binary64)> {
    if answers.contains_key(ROLE@) {
        match answers[ROLE@] {
            RawAnswer::Choice { choice, confidence, .. } => Some((choice@, confidence)),
            _ => None,
        }
    } else {
        None
    }
}

/// The row of a document under its title, or why it has none. `got` is how an
/// answer of another kind than expected is shown.
pub open spec fn row_of(
    d: DocView,
    title: Seq<char>,
    state: JsonTree,
    answers: Map<Seq<char>, RawAnswer>,
    show: Seq<Seq<char>>,
    got: Seq<char>,
) -> Result<RowView, ErrorView> {
    if !answers.contains_key(RELEVANT@) {
        Err(ErrorView::MissingAnswer(RELEVANT@))
    } else {
        match answers[RELEVANT@] {
            RawAnswer::Noul { noul, .. } => Ok(
                RowView {
                    id: short(tree_hash(state)),
                    path: d.path,
                    title,
                    p: noul,
                    role: answered_role(answers),
                    show: shown_fields(d, show),
                },
            ),
            _ => Err(ErrorView::SchemaMismatch { question: RELEVANT@, reason: "expected a noul, got "@ + got }),
        }
    }
}

fn fields_shown(d: &Doc, show: &Vec<String>) -> (r: Vec<(String, String)>)
    ensures
        pair_views(r@) == shown_fields(d@, strings(show@)),
{
    let ghost want = shown_fields(d@, strings(show@));
    let n = show.len();
    let mut out: Vec<(String, String)> = Vec::new();
    let mut i: usize = 0;
    assert(pair_views(out@) =~= want.take(0));
    while i < n
        invariant
            i <= n == show@.len(),
            want == shown_fields(d@, strings(show@)),
            pair_views(out@) == want.take(i as int),
        decreases n - i,
    {
        let ghost before = pair_views(out@);
        let value = match d.field_text(show[i].as_str()) {
            Some(t) => t,
            None => String::new(),
        };
        assert(want[i as int] == (show@[i as int]@, value@));
        out.push((show[i].clone(), value));
        assert(pair_views(out@) =~= before.push(want[i as int]));
        assert(before.push(want[i as int]) =~= want.take(i + 1));
        i += 1;
    }
    assert(want.take(n as int) =~= want);
    out
}

/// The row of a document that was judged in `state`, under the title it had
/// before its body was dropped. `got` is how the answer is shown in the error
/// where it is of another kind than expected.
pub fn to_row(d: &Doc, title: &str, state: &serde_json::Value, a: &RawAnswers, show: &Vec<String>, got: &str) -> (r: Result<Row, Error>)
    ensures
        match row_of(d@, title@, json_tree(*state), a.answers@, strings(show@), got@) {
            Ok(row) => r matches Ok(x) && x@ == row,
            Err(e) => r matches Err(f) && f@ == e,
        },
{
    let p = match a.get(RELEVANT) {
        Ok(answer) => match answer {
            RawAnswer::Noul { noul, .. } => *noul,
            _ => {
                let mut reason = "expected a noul, got ".to_owned();
                reason.push_str(got);
                return Err(Error::SchemaMismatch { question: RELEVANT.to_owned(), reason });
            },
        },
        Err(e) => {
            return Err(e);
        },
    };
    let role_name: String = ROLE.to_owned();
    let role = match a.answers.get(&role_name) {
        Some(answer) => match answer {
            RawAnswer::Choice { choice, confidence, .. } => Some((choice.clone(), *confidence)),
            _ => None,
        },
        None => None,
    };
    Ok(
        Row {
            id: short_id(hash_json(state).as_str()),
            path: d.path.copy(),
            title: title.to_owned(),
            p,
            role,
            show: fields_shown(d, show),
        },
    )
}

// ---------------------------------------------------------------------------
// Order
// ---------------------------------------------------------------------------

impl Ranked for Row {
    /// The higher probability comes first; the path breaks ties.
    open spec fn before() -> spec_fn(RowView, RowView) -> bool {
        |a: RowView, b: RowView| b.p.place() < a.p.place() || (a.p.place() == b.p.place() && path_lt()(a.path.parts, b.path.parts))
    }

    fn comes_before(&self, other: &Self) -> (r: bool) {
        if other.p.total_lt(self.p) {
            true
        } else if self.p.total_lt(other.p) {
            false
        } else {
            proof {
                path_order();
            }
            compare_paths(&self.path, &other.path) == Rel::Before
        }
    }
}

/// Highest probability first; the path breaks ties so output is stable.
pub fn sort_rows(rows: &mut Vec<Row>)
    ensures
        views(final(rows)@) == arranged(views(old(rows)@), Row::before()),
{
    sort(rows);
}

/// How many rows are shown: all of them where `top` is zero.
pub open spec fn rows_shown(top: usize, rows: nat) -> nat {
    if top == 0 || rows < top {
        rows
    } else {
        top as nat
    }
}

pub fn shown_count(top: usize, rows: usize) -> (r: usize)
    ensures
        r == rows_shown(top, rows as nat),
        r <= rows,
{
    if top == 0 || rows < top {
        rows
    } else {
        top
    }
}

// ---------------------------------------------------------------------------
// Judging
// ---------------------------------------------------------------------------

/// What came of judging: the rows in the order of the documents, the
/// documents that failed with their reasons, the tokens that were read and
/// the model that answered first.
#[derive(Debug)]
pub struct Judged {
    pub rows: Vec<Row>,
    pub failed: Vec<String>,
    pub tokens: u128,
    pub model: String,
}

#[verifier::ext_equal]
pub struct JudgedView {
    pub rows: Seq<RowView>,
    pub failed: Seq<Seq<char>>,
    pub tokens: nat,
    pub model: Seq<char>,
}

impl View for Judged {
    type V = JudgedView;

    open spec fn view(&self) -> JudgedView {
        JudgedView { rows: views(self.rows@), failed: strings(self.failed@), tokens: self.tokens as nat, model: self.model@ }
    }
}

/// One document taken in.
pub open spec fn judged_step(
    j: JudgedView,
    d: DocView,
    title: Seq<char>,
    state: JsonTree,
    answer: Result<RawAnswers, Error>,
    show: Seq<Seq<char>>,
    got: Seq<char>,
) -> JudgedView {
    match answer {
        Err(e) => JudgedView { failed: j.failed.push(d.path.shown + ": "@ + crate::error::shown_error(e@)), ..j },
        Ok(a) => match row_of(d, title, state, a.answers@, show, got) {
            Err(e) => JudgedView { failed: j.failed.push(d.path.shown + ": "@ + crate::error::shown_error(e)), ..j },
            Ok(row) => JudgedView {
                rows: j.rows.push(row),
                failed: j.failed,
                tokens: j.tokens + a.usage.input_tokens as nat,
                model: if j.model.len() == 0 {
                    a.model@
                } else {
                    j.model
                },
            },
        },
    }
}

/// The first `k` documents taken in, one after the other.
pub open spec fn judged(
    docs: Seq<Doc>,
    titles: Seq<Seq<char>>,
    states: Seq<serde_json::Value>,
    answers: Seq<Result<RawAnswers, Error>>,
    show: Seq<Seq<char>>,
    got: Seq<Seq<char>>,
    k: nat,
) -> JudgedView
    decreases k,
{
    if k == 0 {
        JudgedView { rows: seq![], failed: seq![], tokens: 0, model: seq![] }
    } else {
        judged_step(
            judged(docs, titles, states, answers, show, got, (k - 1) as nat),
            docs[k - 1]@,
            titles[k - 1],
            json_tree(states[k - 1]),
            answers[k - 1],
            show,
            got[k - 1],
        )
    }
}

fn failure(d: &Doc, e: &Error) -> (r: String)
    ensures
        r@ == d@.path.shown + ": "@ + crate::error::shown_error(e@),
{
    let mut m = d.path.shown.clone();
    m.push_str(": ");
    m.push_str(e.message().as_str());
    m
}

/// Take in what was answered for each document. Nothing is dropped silently:
/// every document ends up as a row or as a failure with its reason.
pub fn judge(
    docs: &Vec<Doc>,
    titles: &Vec<String>,
    states: &Vec<serde_json::Value>,
    answers: &Vec<Result<RawAnswers, Error>>,
    show: &Vec<String>,
    got: &Vec<String>,
) -> (r: Judged)
    requires
        titles@.len() == docs@.len(),
        states@.len() == docs@.len(),
        answers@.len() == docs@.len(),
        got@.len() == docs@.len(),
    ensures
        r@ == judged(docs@, strings(titles@), states@, answers@, strings(show@), strings(got@), docs@.len()),
{
    let n = docs.len();
    let mut rows: Vec<Row> = Vec::new();
    let mut failed: Vec<String> = Vec::new();
    let mut tokens: u128 = 0;
    let mut model = String::new();
    let mut i: usize = 0;
    assert(views(rows@) =~= seq![]);
    assert(strings(failed@) =~= seq![]);
    while i < n
        invariant
            i <= n == docs@.len(),
            titles@.len() == n,
            states@.len() == n,
            answers@.len() == n,
            got@.len() == n,
            tokens <= i * 0x1_0000_0000_0000_0000,
            (JudgedView { rows: views(rows@), failed: strings(failed@), tokens: tokens as nat, model: model@ }) == judged(
                docs@,
                strings(titles@),
                states@,
                answers@,
                strings(show@),
                strings(got@),
                i as nat,
            ),
        decreases n - i,
    {
        let ghost rs = views(rows@);
        let ghost fs = strings(failed@);
        assert(strings(titles@)[i as int] == titles@[i as int]@);
        assert(strings(got@)[i as int] == got@[i as int]@);
        match &answers[i] {
            Err(e) => {
                let m = failure(&docs[i], e);
                failed.push(m);
                assert(strings(failed@) =~= fs.push(m@));
            },
            Ok(a) => match to_row(&docs[i], titles[i].as_str(), &states[i], a, show, got[i].as_str()) {
                Ok(row) => {
                    assert(i * 0x1_0000_0000_0000_0000 + 0x1_0000_0000_0000_0000 == (i + 1) * 0x1_0000_0000_0000_0000) by (nonlinear_arith);
                    assert((i + 1) * 0x1_0000_0000_0000_0000 <= 0x1_0000_0000_0000_0000 * 0x1_0000_0000_0000_0000) by (nonlinear_arith)
                        requires
                            i + 1 <= 0x1_0000_0000_0000_0000,
                    ;
                    tokens = tokens + a.usage.input_tokens as u128;
                    if model.as_str().is_empty() {
                        model = a.model.clone();
                    }
                    let ghost x = row@;
                    rows.push(row);
                    assert(views(rows@) =~= rs.push(x));
                },
                Err(e) => {
                    let m = failure(&docs[i], &e);
                    failed.push(m);
                    assert(strings(failed@) =~= fs.push(m@));
                },
            },
        }
        i += 1;
    }
    Judged { rows, failed, tokens, model }
}

/// The line that sums a ranking up.
pub open spec fn summary_text(rows: nat, shown: nat, model: Seq<char>, tokens: nat, record: Option<Seq<char>>) -> Seq<char> {
    "\n"@ + decimal(rows) + " documents judged, "@ + decimal(shown) + " shown · model "@ + (if model.len() == 0 {
        "<mock>"@
    } else {
        model
    }) + " · "@ + decimal(tokens) + " input tokens"@ + (match record {
        Some(p) => " · recorded to "@ + p,
        None => seq![],
    })
}

// ---------------------------------------------------------------------------
// Output
// ---------------------------------------------------------------------------

/// The members of a row's JSON object before the printed fields.
pub open spec fn row_members(rank: u64, r: RowView, p: JsonTree, confidence: JsonTree) -> Map<Seq<char>, JsonTree> {
    let m = no_members().insert("rank"@, JsonTree::UInt(rank)).insert("id"@, JsonTree::Str(r.id)).insert(
        "path"@,
        JsonTree::Str(r.path.shown),
    ).insert("title"@, JsonTree::Str(r.title)).insert(RELEVANT@, p);
    match r.role {
        Some((c, _)) => m.insert(
            ROLE@,
            JsonTree::Obj(no_members().insert("choice"@, JsonTree::Str(c)).insert("confidence"@, confidence)),
        ),
        None => m,
    }
}

/// Printed fields put in one after the other.
pub open spec fn with_fields(m: Map<Seq<char>, JsonTree>, show: Seq<(Seq<char>, Seq<char>)>) -> Map<Seq<char>, JsonTree>
    decreases show.len(),
{
    if show.len() == 0 {
        m
    } else {
        with_fields(m, show.drop_last()).insert(show.last().0, JsonTree::Str(show.last().1))
    }
}

/// A row as a JSON object. `p` and `confidence` are the row's numbers as JSON.
pub fn row_json(rank: u64, r: &Row, p: serde_json::Value, confidence: serde_json::Value) -> (v: serde_json::Value)
    ensures
        json_tree(v) == JsonTree::Obj(with_fields(row_members(rank, r@, json_tree(p), json_tree(confidence)), r@.show)),
{
    let mut m = no_entries();
    put_entry(&mut m, "rank".to_owned(), uint_value(rank));
    put_entry(&mut m, "id".to_owned(), string_value(r.id.as_str()));
    put_entry(&mut m, "path".to_owned(), string_value(r.path.shown.as_str()));
    put_entry(&mut m, "title".to_owned(), string_value(r.title.as_str()));
    put_entry(&mut m, RELEVANT.to_owned(), p);
    match &r.role {
        Some((c, _)) => {
            let mut role = no_entries();
            put_entry(&mut role, "choice".to_owned(), string_value(c.as_str()));
            put_entry(&mut role, "confidence".to_owned(), confidence);
            put_entry(&mut m, ROLE.to_owned(), object_value(role));
        },
        None => {},
    }
    let ghost base = json_entries(m);
    let n = r.show.len();
    let mut i: usize = 0;
    assert(r@.show.take(0) =~= seq![]);
    while i < n
        invariant
            i <= n == r.show@.len(),
            json_entries(m) == with_fields(base, r@.show.take(i as int)),
        decreases n - i,
    {
        assert(r@.show.take(i + 1).drop_last() =~= r@.show.take(i as int));
        assert(r@.show.take(i + 1).last() == (r.show@[i as int].0@, r.show@[i as int].1@));
        put_entry(&mut m, r.show[i].0.clone(), string_value(r.show[i].1.as_str()));
        i += 1;
    }
    assert(r@.show.take(n as int) =~= r@.show);
    object_value(m)
}

// ---------------------------------------------------------------------------
// Laws
// ---------------------------------------------------------------------------

proof fn lemma_rows_ranked()
    ensures
        weak_order(Row::before()),
{
    path_order();
    let lt = path_lt();
    let before = Row::before();
    assert forall|a: RowView, b: RowView, c: RowView| !#[trigger] before(a, b) && !#[trigger] before(b, c) implies !before(a, c) by {
        assert(a.path.parts == b.path.parts || lt(a.path.parts, b.path.parts) || lt(b.path.parts, a.path.parts));
        assert(b.path.parts == c.path.parts || lt(b.path.parts, c.path.parts) || lt(c.path.parts, b.path.parts));
    }
}

/// The ranking holds every row, and none stands behind one with a lower
/// probability, nor behind one with the same probability and a later path.
pub proof fn ranking_is_in_order(rows: Seq<RowView>)
    ensures
        arranged(rows, Row::before()).len() == rows.len(),
        arranged(rows, Row::before()).to_multiset() == rows.to_multiset(),
        in_order(arranged(rows, Row::before()), Row::before()),
{
    lemma_rows_ranked();
    arranged_is_sorted(rows, Row::before());
}

/// Every document ends up as a row or as a failure.
pub proof fn every_document_is_accounted_for(
    docs: Seq<Doc>,
    titles: Seq<Seq<char>>,
    states: Seq<serde_json::Value>,
    answers: Seq<Result<RawAnswers, Error>>,
    show: Seq<Seq<char>>,
    got: Seq<Seq<char>>,
    k: nat,
)
    ensures
        ({
            let j = judged(docs, titles, states, answers, show, got, k);
            j.rows.len() + j.failed.len() == k
        }),
    decreases k,
{
    if k > 0 {
        every_document_is_accounted_for(docs, titles, states, answers, show, got, (k - 1) as nat);
    }
}

/// The state that is judged holds the question under `query` and the document
/// under `document`, and nothing else.
pub proof fn state_holds_question_and_document(query: Seq<char>, document: JsonTree)
    ensures
        judged_state(query, document) matches JsonTree::Obj(m) && {
            &&& m.contains_pair("query"@, JsonTree::Str(query))
            &&& m.contains_pair("document"@, document)
            &&& forall|k: Seq<char>| #[trigger] m.contains_key(k) ==> k == "query"@ || k == "document"@
        },
{
    reveal_strlit("query");
    reveal_strlit("document");
    assert("query"@.len() == 5 && "document"@.len() == 8);
}

/// An id is the beginning of a state hash: eight characters where it has them.
pub proof fn ids_begin_the_hash(hash: Seq<char>)
    ensures
        short(hash).len() == (if hash.len() < 8 {
            hash.len()
        } else {
            8
        }),
        forall|i: int| 0 <= i < short(hash).len() ==> #[trigger] short(hash)[i] == hash[i],
{
}

/// A document that was judged relevant or not has a row, under its own path and
/// title, with the probability that was answered, the id of the state it was
/// judged in, the role that was answered, if any, and its fields that are to be
/// printed; any other answer gives none.
pub proof fn row_is_of_its_document(
    d: DocView,
    title: Seq<char>,
    state: JsonTree,
    answers: Map<Seq<char>, RawAnswer>,
    show: Seq<Seq<char>>,
    got: Seq<char>,
)
    ensures
        match row_of(d, title, state, answers, show, got) {
            Ok(r) => {
                &&& answers.contains_key("relevant"@)
                &&& answers["relevant"@] matches RawAnswer::Noul { noul, .. } && r.p == noul
                &&& r.path == d.path
                &&& r.title == title
                &&& r.id == short(tree_hash(state))
                &&& r.role == (if answers.contains_key("role"@) {
                    match answers["role"@] {
                        RawAnswer::Choice { choice, confidence, .. } => Some((choice@, confidence)),
                        _ => None,
                    }
                } else {
                    None
                })
                &&& r.show.len() == show.len()
                &&& forall|i: int| 0 <= i < show.len() ==> (#[trigger] r.show[i]).0 == show[i]
                &&& forall|i: int| 0 <= i < show.len() && d.fields.contains_key(show[i]) ==> (#[trigger] r.show[i]).1 == shown_field(d.fields[show[i]])
                &&& forall|i: int| 0 <= i < show.len() && !d.fields.contains_key(show[i]) ==> (#[trigger] r.show[i]).1.len() == 0
            },
            Err(e) => if answers.contains_key("relevant"@) {
                !(answers["relevant"@] is Noul) && e == (ErrorView::SchemaMismatch {
                    question: "relevant"@,
                    reason: "expected a noul, got "@ + got,
                })
            } else {
                e == ErrorView::MissingAnswer("relevant"@)
            },
        },
{
}

/// The ranking goes by falling probability, and by path where two are equally
/// likely.
pub proof fn ranking_is_descending(rows: Seq<RowView>, i: int, j: int)
    requires
        0 <= i < j < arranged(rows, Row::before()).len(),
    ensures
        ({
            let r = arranged(rows, Row::before());
            &&& r.to_multiset() == rows.to_multiset()
            &&& !r[i].p.below(r[j].p)
            &&& r[i].p == r[j].p ==> !path_lt()(r[j].path.parts, r[i].path.parts)
        }),
{
    let r = arranged(rows, Row::before());
    ranking_is_in_order(rows);
    assert(!Row::before()(r[j], r[i]));
    if r[i].p.below(r[j].p) {
        place_follows_size(r[i].p, r[j].p);
    }
}

/// All rows are shown where `top` is zero, else at most `top`.
pub proof fn top_limits_what_is_shown(top: usize, rows: nat)
    ensures
        top == 0 ==> rows_shown(top, rows) == rows,
        rows_shown(top, rows) <= rows,
        top > 0 ==> rows_shown(top, rows) <= top && (rows_shown(top, rows) == rows || rows_shown(top, rows) == top),
{
}

/// Each document is taken in once, in order: where it was answered and has a
/// row, the row stands behind those of the documents before it, its tokens are
/// added and its model is taken where none was before; where it failed, its
/// path and the reason stand behind the failures before it.
pub proof fn documents_are_taken_in_order(
    docs: Seq<Doc>,
    titles: Seq<Seq<char>>,
    states: Seq<serde_json::Value>,
    answers: Seq<Result<RawAnswers, Error>>,
    show: Seq<Seq<char>>,
    got: Seq<Seq<char>>,
    k: nat,
    i: int,
)
    requires
        0 <= i < k,
    ensures
        ({
            let none = judged(docs, titles, states, answers, show, got, 0);
            none.rows.len() == 0 && none.failed.len() == 0 && none.tokens == 0 && none.model.len() == 0
        }),
        ({
            let all = judged(docs, titles, states, answers, show, got, k);
            let before = judged(docs, titles, states, answers, show, got, i as nat);
            let next = judged(docs, titles, states, answers, show, got, (i + 1) as nat);
            let row = match answers[i] {
                Ok(a) => row_of(docs[i]@, titles[i], json_tree(states[i]), a.answers@, show, got[i]),
                Err(e) => Err(e@),
            };
            match row {
                Ok(r) => {
                    &&& next.rows.len() == before.rows.len() + 1 <= all.rows.len()
                    &&& all.rows[before.rows.len() as int] == r
                    &&& next.failed.len() == before.failed.len() <= all.failed.len()
                    &&& next.tokens == before.tokens + answers[i]->Ok_0.usage.input_tokens
                    &&& next.model == (if before.model.len() == 0 {
                        answers[i]->Ok_0.model@
                    } else {
                        before.model
                    })
                },
                Err(e) => {
                    &&& next.rows.len() == before.rows.len() <= all.rows.len()
                    &&& next.failed.len() == before.failed.len() + 1 <= all.failed.len()
                    &&& all.failed[before.failed.len() as int] == docs[i]@.path.shown + ": "@ + crate::error::shown_error(e)
                    &&& next.tokens == before.tokens
                    &&& next.model == before.model
                },
            }
        }),
    decreases k,
{
    if i + 1 < k {
        documents_are_taken_in_order(docs, titles, states, answers, show, got, (k - 1) as nat, i);
    }
}

/// The line that sums a ranking up says how many documents were judged and how
/// many are shown, which model answered, how many tokens were read and, where
/// it was recorded, where to.
pub proof fn summary_says_it_all(rows: nat, shown: nat, model: Seq<char>, tokens: nat, record: Option<Seq<char>>, name: Seq<char>)
    requires
        model.len() > 0 ==> name == model,
        model.len() == 0 ==> name == "<mock>"@,
    ensures
        ({
            let s = "\n"@ + decimal(rows) + " documents judged, "@ + decimal(shown) + " shown · model "@ + name + " · "@ + decimal(tokens)
                + " input tokens"@;
            match record {
                Some(p) => summary_text(rows, shown, model, tokens, record) == s + (" · recorded to "@ + p),
                None => summary_text(rows, shown, model, tokens, record) == s,
            }
        }),
{
    if record is None {
        let s = "\n"@ + decimal(rows) + " documents judged, "@ + decimal(shown) + " shown · model "@ + name + " · "@ + decimal(tokens)
            + " input tokens"@;
        assert(s + seq![] =~= s);
    }
}

/// The JSON object of a row holds its rank, id, path, title and probability,
/// its role where it has one, and each printed field under its own name, a
/// later one in place of what stood there before.
pub proof fn row_object_holds_the_row(rank: u64, r: RowView, p: JsonTree, confidence: JsonTree)
    ensures
        ({
            let m = row_members(rank, r, p, confidence);
            &&& m.contains_pair("rank"@, JsonTree::UInt(rank))
            &&& m.contains_pair("id"@, JsonTree::Str(r.id))
            &&& m.contains_pair("path"@, JsonTree::Str(r.path.shown))
            &&& m.contains_pair("title"@, JsonTree::Str(r.title))
            &&& m.contains_pair("relevant"@, p)
            &&& match r.role {
                Some((c, _)) => m.contains_key("role"@) && (m["role"@] matches JsonTree::Obj(o) && o.contains_pair("choice"@, JsonTree::Str(c))
                    && o.contains_pair("confidence"@, confidence) && o.len() == 2),
                None => !m.contains_key("role"@),
            }
            &&& forall|k: Seq<char>| #[trigger]
                m.contains_key(k) ==> k == "rank"@ || k == "id"@ || k == "path"@ || k == "title"@ || k == "relevant"@ || k == "role"@
        }),
{
    reveal_strlit("rank");
    reveal_strlit("id");
    reveal_strlit("path");
    reveal_strlit("title");
    reveal_strlit("relevant");
    reveal_strlit("role");
    reveal_strlit("choice");
    reveal_strlit("confidence");
    assert("rank"@.len() == 4 && "id"@.len() == 2 && "path"@.len() == 4 && "title"@.len() == 5 && "relevant"@.len() == 8 && "role"@.len() == 4);
    assert("rank"@[1] == 'a' && "path"@[0] == 'p' && "role"@[1] == 'o' && "rank"@[0] == 'r' && "role"@[0] == 'r');
    assert("choice"@.len() == 6 && "confidence"@.len() == 10);
    if let Some((c, _)) = r.role {
        let o = no_members().insert("choice"@, JsonTree::Str(c)).insert("confidence"@, confidence);
        assert(o.dom() =~= set!["choice"@, "confidence"@]);
        assert(o.len() == 2);
    }
}

/// Printed fields are put in one after the other, each as text under its name.
pub proof fn fields_are_put_in_order(
    m: Map<Seq<char>, JsonTree>,
    a: Seq<(Seq<char>, Seq<char>)>,
    f: (Seq<char>, Seq<char>),
    b: Seq<(Seq<char>, Seq<char>)>,
)
    ensures
        with_fields(m, seq![]) == m,
        with_fields(m, seq![f]) == m.insert(f.0, JsonTree::Str(f.1)),
        with_fields(m, a + b) == with_fields(with_fields(m, a), b),
    decreases b.len(),
{
    let one = seq![f];
    assert(one.drop_last() =~= seq![]);
    assert(with_fields(m, one.drop_last()) == m);
    if b.len() == 0 {
        assert(a + b =~= a);
    } else {
        assert((a + b).drop_last() =~= a + b.drop_last());
        fields_are_put_in_order(m, a, f, b.drop_last());
    }
}

/// What rows and the judgement of all documents say is all that they hold.
pub proof fn rows_are_seen_whole(r: Row, j: Judged, i: int)
    ensures
        r@.id == r.id@ && r@.path == r.path@ && r@.title == r.title@ && r@.p == r.p,
        match r.role {
            Some((role, confidence)) => r@.role == Some((role@, confidence)),
            None => r@.role is None,
        },
        r@.show.len() == r.show@.len() && (0 <= i < r.show@.len() ==> r@.show[i] == (r.show@[i].0@, r.show@[i].1@)),
        j@.rows.len() == j.rows@.len() && (0 <= i < j.rows@.len() ==> j@.rows[i] == j.rows@[i]@),
        j@.failed.len() == j.failed@.len() && (0 <= i < j.failed@.len() ==> j@.failed[i] == j.failed@[i]@),
        j@.tokens == j.tokens && j@.model == j.model@,
{
}

} // verus!
