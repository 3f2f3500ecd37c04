//! The lines that the ranking tool prints.
use vstd::prelude::*;
use vstd::string::*;

use crate::json::{
    copy_value, get_member, json_entries, json_pretty, json_text, json_tree, member, no_entries, no_members, object_value, put_entry, string_value,
    uint_value, value_pretty, value_text, JsonTree,
};
use crate::numeral::{decimal, decimal_of};
use crate::rank::doc::{Doc, DocView};
use crate::rank::rows::{summary_text, Judged, Row, RowView};
use crate::schema::{opt_text, schema_tree, QuestionSchema};
use crate::sorting::views;
use crate::text::{chars_of, pad, pad_behind, padded, padded_behind, string_of, strings};

verus! {

fn number(n: u128) -> (r: String)
    ensures
        r@ == decimal(n as nat),
{
    string_of(decimal_of(n).as_slice())
}

/// The line that sums a ranking up.
pub fn summary(j: &Judged, shown: usize, record: &Option<String>) -> (r: String)
    ensures
        r@ == summary_text(j@.rows.len(), shown as nat, j@.model, j@.tokens, opt_text(*record)),
{
    let mut s = "\n".to_owned();
    s.push_str(number(j.rows.len() as u128).as_str());
    s.push_str(" documents judged, ");
    s.push_str(number(shown as u128).as_str());
    s.push_str(" shown · model ");
    if j.model.as_str().is_empty() {
        s.push_str("<mock>");
    } else {
        s.push_str(j.model.as_str());
    }
    s.push_str(" · ");
    s.push_str(number(j.tokens).as_str());
    s.push_str(" input tokens");
    match record {
        Some(p) => {
            s.push_str(" · recorded to ");
            s.push_str(p.as_str());
        },
        None => {},
    }
    assert(s@ =~= summary_text(j@.rows.len(), shown as nat, j@.model, j@.tokens, opt_text(*record)));
    s
}

// ---------------------------------------------------------------------------
// The table
// ---------------------------------------------------------------------------

/// The numbers of a row as text: its probability, and how sure its role is.
#[derive(Debug)]
pub struct RowText {
    pub p: String,
    pub confidence: String,
}

pub open spec fn role_text(role: Option<(Seq<char>, crate::binary64::Binary64)>, confidence: Seq<char>) -> Seq<char> {
    match role {
        Some((c, _)) => c + " ("@ + confidence + ")"@,
        None => seq![],
    }
}

/// The first line of a row.
pub open spec fn row_line(rank: nat, r: RowView, t: RowText) -> Seq<char> {
    padded(decimal(rank), 3) + ". "@ + t.p@ + "  "@ + padded_behind(role_text(r.role, t.confidence@), 20) + " "@ + r.title + "  ["@ + r.id
        + "]"@
}

/// The lines of the first `k` printed fields; one without a value has none.
pub open spec fn field_lines(show: Seq<Seq<char>>, values: Seq<(Seq<char>, Seq<char>)>, k: nat) -> Seq<Seq<char>>
    decreases k,
{
    if k == 0 {
        seq![]
    } else {
        let rest = field_lines(show, values, (k - 1) as nat);
        if values[k - 1].1.len() == 0 {
            rest
        } else {
            rest.push("     "@ + show[k - 1] + ": "@ + values[k - 1].1)
        }
    }
}

pub open spec fn fewer(a: nat, b: nat) -> nat {
    if a < b {
        a
    } else {
        b
    }
}

/// The lines of a row.
pub open spec fn row_lines(rank: nat, r: RowView, t: RowText, show: Seq<Seq<char>>) -> Seq<Seq<char>> {
    seq![row_line(rank, r, t), "     "@ + r.path.shown] + field_lines(show, r.show, fewer(show.len(), r.show.len()))
}

/// The lines of the first `k` rows.
pub open spec fn table_lines(rows: Seq<RowView>, texts: Seq<RowText>, show: Seq<Seq<char>>, k: nat) -> Seq<Seq<char>>
    decreases k,
{
    if k == 0 {
        seq![]
    } else {
        table_lines(rows, texts, show, (k - 1) as nat) + row_lines(k, rows[k - 1], texts[k - 1], show)
    }
}

fn push_row(out: &mut Vec<String>, rank: usize, r: &Row, t: &RowText, show: &Vec<String>)
    ensures
        strings(final(out)@) == strings(old(out)@) + row_lines(rank as nat, r@, *t, strings(show@)),
{
    let ghost was = strings(out@);
    let role = match &r.role {
        Some((c, _)) => {
            let mut s = c.clone();
            s.push_str(" (");
            s.push_str(t.confidence.as_str());
            s.push_str(")");
            s
        },
        None => String::new(),
    };
    assert(role@ =~= role_text(r@.role, t.confidence@));
    let mut line = pad(number(rank as u128).as_str(), 3);
    line.push_str(". ");
    line.push_str(t.p.as_str());
    line.push_str("  ");
    line.push_str(pad_behind(role.as_str(), 20).as_str());
    line.push_str(" ");
    line.push_str(r.title.as_str());
    line.push_str("  [");
    line.push_str(r.id.as_str());
    line.push_str("]");
    assert(line@ == row_line(rank as nat, r@, *t));
    let mut place = "     ".to_owned();
    place.push_str(r.path.shown.as_str());
    out.push(line);
    out.push(place);
    let ghost head = seq![row_line(rank as nat, r@, *t), "     "@ + r@.path.shown];
    assert(strings(out@) =~= was + head);
    let n = if show.len() < r.show.len() {
        show.len()
    } else {
        r.show.len()
    };
    let ghost ks = strings(show@);
    let mut i: usize = 0;
    assert(strings(out@) =~= was + head + field_lines(ks, r@.show, 0));
    while i < n
        invariant
            i <= n <= show@.len(),
            n <= r.show@.len(),
            ks == strings(show@),
            strings(out@) == was + head + field_lines(ks, r@.show, i as nat),
        decreases n - i,
    {
        let ghost before = strings(out@);
        assert(r@.show[i as int].1 == r.show@[i as int].1@);
        assert(ks[i as int] == show@[i as int]@);
        if !r.show[i].1.as_str().is_empty() {
            let mut f = "     ".to_owned();
            f.push_str(show[i].as_str());
            f.push_str(": ");
            f.push_str(r.show[i].1.as_str());
            out.push(f);
            assert(strings(out@) =~= before.push(f@));
            assert(before.push(f@) =~= was + head + field_lines(ks, r@.show, (i + 1) as nat));
        }
        i += 1;
    }
    assert(strings(out@) =~= was + row_lines(rank as nat, r@, *t, ks));
}

/// The lines of the first `shown` rows.
pub fn print_table(rows: &Vec<Row>, texts: &Vec<RowText>, show: &Vec<String>, shown: usize) -> (r: Vec<String>)
    requires
        shown <= rows@.len(),
        shown <= texts@.len(),
    ensures
        strings(r@) == table_lines(views(rows@), texts@, strings(show@), shown as nat),
{
    let mut out: Vec<String> = Vec::new();
    let mut i: usize = 0;
    assert(strings(out@) =~= seq![]);
    while i < shown
        invariant
            i <= shown <= rows@.len(),
            shown <= texts@.len(),
            strings(out@) == table_lines(views(rows@), texts@, strings(show@), i as nat),
        decreases shown - i,
    {
        assert(views(rows@)[i as int] == rows@[i as int]@);
        push_row(&mut out, i + 1, &rows[i], &texts[i], show);
        i += 1;
    }
    out
}

// ---------------------------------------------------------------------------
// Documents without text
// ---------------------------------------------------------------------------

/// A state whose document has no text.
pub open spec fn lacks_text(state: JsonTree) -> bool {
    match member(state, "document"@) {
        Some(d) => member(d, "text"@) is None,
        None => true,
    }
}

/// The paths of the first `k` documents that have no text.
pub open spec fn bare_paths(docs: Seq<DocView>, states: Seq<JsonTree>, k: nat) -> Seq<Seq<char>>
    decreases k,
{
    if k == 0 {
        seq![]
    } else {
        let rest = bare_paths(docs, states, (k - 1) as nat);
        if lacks_text(states[k - 1]) {
            rest.push(docs[k - 1].path.shown)
        } else {
            rest
        }
    }
}

/// The paths that are named, each on a line of its own: at most five.
pub open spec fn named_paths(bare: Seq<Seq<char>>) -> Seq<Seq<char>> {
    Seq::new(fewer(bare.len(), 5), |i: int| "  "@ + bare[i])
}

/// The warning about documents without text.
pub open spec fn bare_warning(bare: Seq<Seq<char>>, docs: nat) -> Seq<Seq<char>> {
    if bare.len() == 0 {
        seq![]
    } else {
        let head = seq![
            "warning: "@ + decimal(bare.len()) + " of "@ + decimal(docs)
                + " documents have no body text after --lead/--section/--strip and are judged on title and fields only:"@,
        ] + named_paths(bare);
        if bare.len() > 5 {
            head.push("  … and "@ + decimal((bare.len() - 5) as nat) + " more (see --dry-run --json)"@)
        } else {
            head
        }
    }
}

fn textless(state: &serde_json::Value) -> (r: bool)
    ensures
        r == lacks_text(json_tree(*state)),
{
    match get_member(state, "document") {
        Some(d) => get_member(d, "text").is_none(),
        None => true,
    }
}

/// Say out loud when body text was requested but a document yielded none:
/// usually the sections asked for do not match how those files are written,
/// and they are being judged on their title alone.
pub fn warn_bodyless(max_chars: usize, docs: &Vec<Doc>, states: &Vec<serde_json::Value>) -> (r: Vec<String>)
    requires
        states@.len() == docs@.len(),
    ensures
        strings(r@) == (if max_chars == 0 {
            seq![]
        } else {
            bare_warning(bare_paths(views(docs@), crate::json::json_trees(states@), docs@.len()), docs@.len())
        }),
{
    let mut out: Vec<String> = Vec::new();
    assert(strings(out@) =~= seq![]);
    if max_chars == 0 {
        return out;
    }
    let ghost ds = views(docs@);
    let ghost ss = crate::json::json_trees(states@);
    let n = docs.len();
    let mut bare: Vec<String> = Vec::new();
    let mut i: usize = 0;
    assert(strings(bare@) =~= seq![]);
    while i < n
        invariant
            i <= n == docs@.len(),
            states@.len() == n,
            ds == views(docs@),
            ss == crate::json::json_trees(states@),
            strings(bare@) == bare_paths(ds, ss, i as nat),
        decreases n - i,
    {
        let ghost before = strings(bare@);
        assert(ds[i as int] == docs@[i as int]@);
        assert(ss[i as int] == json_tree(states@[i as int]));
        if textless(&states[i]) {
            bare.push(docs[i].path.shown.clone());
            assert(strings(bare@) =~= before.push(ds[i as int].path.shown));
        }
        i += 1;
    }
    let ghost bs = strings(bare@);
    let m = bare.len();
    if m == 0 {
        return out;
    }
    let mut head = "warning: ".to_owned();
    head.push_str(number(m as u128).as_str());
    head.push_str(" of ");
    head.push_str(number(n as u128).as_str());
    head.push_str(" documents have no body text after --lead/--section/--strip and are judged on title and fields only:");
    let ghost first = head@;
    out.push(head);
    assert(strings(out@) =~= seq![first]);
    let k: usize = if m < 5 {
        m
    } else {
        5
    };
    let mut j: usize = 0;
    assert(strings(out@) =~= seq![first] + named_paths(bs).take(0));
    while j < k
        invariant
            j <= k <= m,
            m == bare@.len(),
            k == fewer(m as nat, 5),
            bs == strings(bare@),
            strings(out@) == seq![first] + named_paths(bs).take(j as int),
        decreases k - j,
    {
        let ghost before = strings(out@);
        let mut line = "  ".to_owned();
        line.push_str(bare[j].as_str());
        assert(named_paths(bs)[j as int] == line@);
        out.push(line);
        assert(strings(out@) =~= before.push(line@));
        assert(before.push(line@) =~= seq![first] + named_paths(bs).take(j + 1));
        j += 1;
    }
    assert(named_paths(bs).take(k as int) =~= named_paths(bs));
    if m > 5 {
        let ghost before = strings(out@);
        let mut line = "  … and ".to_owned();
        line.push_str(number((m - 5) as u128).as_str());
        line.push_str(" more (see --dry-run --json)");
        out.push(line);
        assert(strings(out@) =~= before.push(line@));
    }
    out
}

// ---------------------------------------------------------------------------
// Dry run
// ---------------------------------------------------------------------------

/// How many characters are ASCII.
pub open spec fn ascii_count(s: Seq<char>) -> nat
    decreases s.len(),
{
    if s.len() == 0 {
        0
    } else {
        ascii_count(s.drop_last()) + (if s.last() <= '\u{7f}' {
            1nat
        } else {
            0nat
        })
    }
}

/// About how many tokens a text is: four ASCII characters to a token, any
/// other character a token of its own.
pub open spec fn approx_tokens(s: Seq<char>) -> nat {
    (ascii_count(s) / 4 + (s.len() - ascii_count(s))) as nat
}

proof fn lemma_ascii_count(s: Seq<char>)
    ensures
        ascii_count(s) <= s.len(),
    decreases s.len(),
{
    if s.len() > 0 {
        lemma_ascii_count(s.drop_last());
    }
}

/// About how many tokens a text is.
pub fn estimate(s: &str) -> (r: usize)
    ensures
        r == approx_tokens(s@),
{
    let cs = chars_of(s);
    let n = cs.len();
    let mut ascii: usize = 0;
    let mut i: usize = 0;
    assert(s@.take(0) =~= seq![]);
    while i < n
        invariant
            i <= n == cs@.len(),
            cs@ == s@,
            ascii == ascii_count(s@.take(i as int)),
            ascii <= i,
        decreases n - i,
    {
        assert(s@.take(i + 1).drop_last() =~= s@.take(i as int));
        assert(s@.take(i + 1).last() == s@[i as int]);
        if cs[i] <= '\u{7f}' {
            ascii += 1;
        }
        i += 1;
    }
    assert(s@.take(n as int) =~= s@);
    ascii / 4 + (n - ascii)
}

/// About how many tokens the request for a state is.
pub open spec fn request_tokens(state: JsonTree, questions: JsonTree) -> nat {
    approx_tokens(json_text(state)) + approx_tokens(json_text(questions))
}

/// About how many tokens the requests for the first `k` states are.
pub open spec fn total_tokens(states: Seq<JsonTree>, questions: JsonTree, k: nat) -> nat
    decreases k,
{
    if k == 0 {
        0
    } else {
        total_tokens(states, questions, (k - 1) as nat) + request_tokens(states[k - 1], questions)
    }
}

proof fn lemma_total_grows(states: Seq<JsonTree>, questions: JsonTree, i: nat, k: nat)
    requires
        i <= k,
    ensures
        total_tokens(states, questions, i) <= total_tokens(states, questions, k),
    decreases k,
{
    if i < k {
        lemma_total_grows(states, questions, i, (k - 1) as nat);
    }
}

/// What is printed: to the standard output and to the standard error.
#[derive(Debug)]
pub struct Printed {
    pub out: Vec<String>,
    pub err: Vec<String>,
}

/// The JSON object of one document in a dry run.
pub open spec fn dry_object(path: Seq<char>, tokens: nat, state: JsonTree) -> JsonTree {
    JsonTree::Obj(
        no_members().insert("path"@, JsonTree::Str(path)).insert("approx_tokens"@, JsonTree::UInt(tokens as u64)).insert("state"@, state),
    )
}

/// The JSON lines of the first `k` documents.
pub open spec fn dry_lines(docs: Seq<DocView>, states: Seq<JsonTree>, questions: JsonTree, k: nat) -> Seq<Seq<char>> {
    Seq::new(k, |i: int| json_text(dry_object(docs[i].path.shown, request_tokens(states[i], questions), states[i])))
}

/// What a dry run prints to the standard output: every request where JSON is
/// asked for, else the first state.
pub open spec fn dry_out(json: bool, docs: Seq<DocView>, states: Seq<JsonTree>, questions: JsonTree) -> Seq<Seq<char>> {
    if json {
        dry_lines(docs, states, questions, states.len())
    } else if states.len() > 0 {
        seq!["first state:\n"@ + json_pretty(states[0])]
    } else {
        seq![]
    }
}

/// What a dry run prints to the standard error.
pub open spec fn dry_err(docs: nat, requests: nat, total: nat, unreadable: Seq<Seq<char>>) -> Seq<Seq<char>> {
    seq![
        "dry run: "@ + decimal(docs) + " documents, "@ + decimal(requests) + " requests, ≈"@ + decimal(total)
            + " input tokens. Nothing was sent."@,
    ] + skipped_lines(unreadable)
}

/// The lines that name what was skipped.
pub open spec fn skipped_lines(messages: Seq<Seq<char>>) -> Seq<Seq<char>> {
    messages.map_values(|m: Seq<char>| "skipped: "@ + m)
}

/// The lines that name what was skipped.
pub fn skipped(messages: &Vec<String>) -> (r: Vec<String>)
    ensures
        strings(r@) == skipped_lines(strings(messages@)),
{
    let ghost want = skipped_lines(strings(messages@));
    let n = messages.len();
    let mut out: Vec<String> = Vec::new();
    let mut i: usize = 0;
    assert(strings(out@) =~= want.take(0));
    while i < n
        invariant
            i <= n == messages@.len(),
            want == skipped_lines(strings(messages@)),
            strings(out@) == want.take(i as int),
        decreases n - i,
    {
        let ghost before = strings(out@);
        let mut line = "skipped: ".to_owned();
        line.push_str(messages[i].as_str());
        assert(want[i as int] == line@);
        out.push(line);
        assert(strings(out@) =~= before.push(want[i as int]));
        assert(before.push(want[i as int]) =~= want.take(i + 1));
        i += 1;
    }
    assert(want.take(n as int) =~= want);
    out
}

fn dry_value(path: &str, tokens: usize, state: &serde_json::Value) -> (r: serde_json::Value)
    ensures
        json_tree(r) == dry_object(path@, tokens as nat, json_tree(*state)),
{
    let mut m = no_entries();
    put_entry(&mut m, "path".to_owned(), string_value(path));
    put_entry(&mut m, "approx_tokens".to_owned(), uint_value(tokens as u64));
    put_entry(&mut m, "state".to_owned(), copy_value(state));
    object_value(m)
}

/// What a dry run prints: every request is built and its tokens estimated,
/// nothing is sent. `None` where the estimate is too large to be counted.
pub fn dry_run(
    json: bool,
    docs: &Vec<Doc>,
    states: &Vec<serde_json::Value>,
    schema: &QuestionSchema,
    unreadable: &Vec<String>,
) -> (r: Option<Printed>)
    requires
        states@.len() == docs@.len(),
    ensures
        ({
            let ss = crate::json::json_trees(states@);
            let questions = schema_tree(schema@);
            let total = total_tokens(ss, questions, ss.len());
            match r {
                None => total > usize::MAX,
                Some(p) => {
                    &&& total <= usize::MAX
                    &&& strings(p.out@) == dry_out(json, views(docs@), ss, questions)
                    &&& strings(p.err@) == dry_err(docs@.len(), ss.len(), total, strings(unreadable@))
                },
            }
        }),
{
    let ghost ds = views(docs@);
    let ghost ss = crate::json::json_trees(states@);
    let questions = schema.to_api_json();
    let ghost qt = json_tree(questions);
    let base = estimate(value_text(&questions).as_str());
    let n = states.len();
    let mut out: Vec<String> = Vec::new();
    let mut total: usize = 0;
    let mut i: usize = 0;
    assert(strings(out@) =~= dry_lines(ds, ss, qt, 0));
    while i < n
        invariant
            i <= n == states@.len(),
            docs@.len() == n,
            ds == views(docs@),
            ss == crate::json::json_trees(states@),
            qt == schema_tree(schema@),
            base == approx_tokens(json_text(qt)),
            total == total_tokens(ss, qt, i as nat),
            json ==> strings(out@) == dry_lines(ds, ss, qt, i as nat),
            !json ==> out@.len() == 0,
        decreases n - i,
    {
        assert(ss[i as int] == json_tree(states@[i as int]));
        assert(ds[i as int] == docs@[i as int]@);
        proof {
            lemma_total_grows(ss, qt, (i + 1) as nat, n as nat);
        }
        let own = estimate(value_text(&states[i]).as_str());
        let tokens: usize = match own.checked_add(base) {
            Some(t) => t,
            None => {
                return None;
            },
        };
        total = match total.checked_add(tokens) {
            Some(t) => t,
            None => {
                return None;
            },
        };
        if json {
            let ghost before = strings(out@);
            let line = value_text(&dry_value(docs[i].path.shown.as_str(), tokens, &states[i]));
            out.push(line);
            assert(strings(out@) =~= before.push(line@));
            assert(before.push(line@) =~= dry_lines(ds, ss, qt, (i + 1) as nat));
        }
        i += 1;
    }
    if !json && n > 0 {
        let mut line = "first state:\n".to_owned();
        line.push_str(value_pretty(&states[0]).as_str());
        assert(ss[0] == json_tree(states@[0]));
        out.push(line);
        assert(strings(out@) =~= seq![line@]);
    } else if !json {
        assert(strings(out@) =~= seq![]);
    }
    let mut line = "dry run: ".to_owned();
    line.push_str(number(docs.len() as u128).as_str());
    line.push_str(" documents, ");
    line.push_str(number(n as u128).as_str());
    line.push_str(" requests, ≈");
    line.push_str(number(total as u128).as_str());
    line.push_str(" input tokens. Nothing was sent.");
    let mut err: Vec<String> = Vec::new();
    let ghost first = line@;
    err.push(line);
    assert(strings(err@) =~= seq![first]);
    let mut rest = skipped(unreadable);
    let ghost rs = strings(rest@);
    err.append(&mut rest);
    assert(strings(err@) =~= seq![first] + rs);
    Some(Printed { out, err })
}

// ---------------------------------------------------------------------------
// Laws
// ---------------------------------------------------------------------------

/// The table holds each row once, in order: behind the lines of the rows before
/// it stand, under rank `i + 1`, the lines of row `i` itself, and behind those
/// the lines of the rows after it. A table of no rows has no lines.
pub proof fn table_holds_every_row(rows: Seq<RowView>, texts: Seq<RowText>, show: Seq<Seq<char>>, k: nat, i: int)
    requires
        0 <= i < k <= rows.len(),
        k <= texts.len(),
    ensures
        table_lines(rows, texts, show, 0).len() == 0,
        ({
            let t = table_lines(rows, texts, show, k);
            let at = table_lines(rows, texts, show, i as nat).len();
            let own = row_lines((i + 1) as nat, rows[i], texts[i], show);
            &&& own.len() >= 2
            &&& at + own.len() == table_lines(rows, texts, show, (i + 1) as nat).len() <= t.len()
            &&& t.subrange(at as int, (at + own.len()) as int) == own
        }),
        i + 1 == k ==> table_lines(rows, texts, show, k).len() == table_lines(rows, texts, show, i as nat).len() + row_lines(
            k,
            rows[i],
            texts[i],
            show,
        ).len(),
    decreases k,
{
    let t = table_lines(rows, texts, show, k);
    let front = table_lines(rows, texts, show, (k - 1) as nat);
    let at = table_lines(rows, texts, show, i as nat).len() as int;
    let own = row_lines((i + 1) as nat, rows[i], texts[i], show);
    if i + 1 == k {
        assert(t.subrange(at, at + own.len()) =~= own);
    } else {
        table_holds_every_row(rows, texts, show, (k - 1) as nat, i);
        assert(t.subrange(at, at + own.len()) =~= front.subrange(at, at + own.len()));
    }
}

/// The first line of a row shows its rank, its probability, its role, its title
/// and, in brackets, its id, in this order; the second one its path.
pub proof fn row_shows_itself(rank: nat, r: RowView, t: RowText, show: Seq<Seq<char>>, role: Seq<char>)
    requires
        match r.role {
            Some((c, _)) => role == c + " ("@ + t.confidence@ + ")"@,
            None => role.len() == 0,
        },
    ensures
        ({
            let lines = row_lines(rank, r, t, show);
            &&& lines.len() >= 2
            &&& exists|room: Seq<char>, gap: Seq<char>|
                {
                    &&& lines[0] == #[trigger] (room + decimal(rank) + ". "@ + t.p@ + "  "@ + role + gap + " "@ + r.title + "  ["@ + r.id + "]"@)
                    &&& forall|i: int| 0 <= i < room.len() ==> #[trigger] room[i] == ' '
                    &&& forall|i: int| 0 <= i < gap.len() ==> #[trigger] gap[i] == ' '
                    &&& room.len() + decimal(rank).len() >= 3 && (room.len() > 0 ==> room.len() + decimal(rank).len() == 3)
                    &&& role.len() + gap.len() >= 20 && (gap.len() > 0 ==> role.len() + gap.len() == 20)
                }
            &&& lines[1] == "     "@ + r.path.shown
        }),
{
    assert(role =~= role_text(r.role, t.confidence@));
    let d = decimal(rank);
    let room = Seq::new(
        if d.len() < 3 {
            (3 - d.len()) as nat
        } else {
            0nat
        },
        |i: int| ' ',
    );
    let gap = Seq::new(
        if role.len() < 20 {
            (20 - role.len()) as nat
        } else {
            0nat
        },
        |i: int| ' ',
    );
    assert(padded(d, 3) =~= room + d);
    assert(padded_behind(role, 20) =~= role + gap);
    assert(row_lines(rank, r, t, show)[0] =~= room + d + ". "@ + t.p@ + "  "@ + role + gap + " "@ + r.title + "  ["@ + r.id + "]"@);
}

/// Behind the first two lines of a row come the fields that are to be printed,
/// in order, each that has a value on a line of its own with its name.
pub proof fn row_shows_its_fields(show: Seq<Seq<char>>, values: Seq<(Seq<char>, Seq<char>)>, k: nat, i: int)
    requires
        0 <= i < k <= show.len(),
        k <= values.len(),
    ensures
        field_lines(show, values, 0).len() == 0,
        ({
            let lines = field_lines(show, values, k);
            let at = field_lines(show, values, i as nat).len();
            let next = field_lines(show, values, (i + 1) as nat).len();
            &&& values[i].1.len() > 0 ==> next == at + 1 <= lines.len() && lines[at as int] == "     "@ + show[i] + ": "@ + values[i].1
            &&& values[i].1.len() == 0 ==> next == at <= lines.len()
        }),
    decreases k,
{
    if i + 1 < k {
        row_shows_its_fields(show, values, (k - 1) as nat, i);
    }
}

/// The lines of a row are its two first lines and those of its fields, and no
/// other.
pub proof fn row_has_no_other_lines(rank: nat, r: RowView, t: RowText, show: Seq<Seq<char>>)
    requires
        r.show.len() == show.len(),
    ensures
        row_lines(rank, r, t, show).skip(2) == field_lines(show, r.show, show.len()),
{
    assert(row_lines(rank, r, t, show).skip(2) =~= field_lines(show, r.show, show.len()));
}

/// The documents without text are named in order: document `i` exactly where
/// the state it is judged in holds no `text` in its `document`.
pub proof fn bare_documents_are_named(docs: Seq<DocView>, states: Seq<JsonTree>, k: nat, i: int)
    requires
        0 <= i < k <= docs.len(),
        k <= states.len(),
    ensures
        bare_paths(docs, states, 0).len() == 0,
        ({
            let bare = !(states[i] matches JsonTree::Obj(s) && s.contains_key("document"@) && (s["document"@] matches JsonTree::Obj(d)
                && d.contains_key("text"@)));
            let at = bare_paths(docs, states, i as nat).len();
            let next = bare_paths(docs, states, (i + 1) as nat).len();
            &&& bare ==> next == at + 1 <= bare_paths(docs, states, k).len() && bare_paths(docs, states, k)[at as int] == docs[i].path.shown
            &&& !bare ==> next == at <= bare_paths(docs, states, k).len()
        }),
    decreases k,
{
    if i + 1 < k {
        bare_documents_are_named(docs, states, (k - 1) as nat, i);
    }
}

/// The warning says how many documents have no text, of how many, names the
/// first five and says how many more there are. Without such documents there is
/// no warning.
pub proof fn warning_names_bare_documents(bare: Seq<Seq<char>>, docs: nat)
    ensures
        bare.len() == 0 ==> bare_warning(bare, docs).len() == 0,
        bare.len() > 0 ==> {
            let w = bare_warning(bare, docs);
            let named = if bare.len() < 5 {
                bare.len()
            } else {
                5
            };
            &&& w.len() == 1 + named + (if bare.len() > 5 {
                1nat
            } else {
                0nat
            })
            &&& w[0] == "warning: "@ + decimal(bare.len()) + " of "@ + decimal(docs)
                + " documents have no body text after --lead/--section/--strip and are judged on title and fields only:"@
            &&& forall|i: int| 0 <= i < named ==> #[trigger] w[i + 1] == "  "@ + bare[i]
            &&& bare.len() > 5 ==> w[6] == "  … and "@ + decimal((bare.len() - 5) as nat) + " more (see --dry-run --json)"@
        },
{
}

/// Tokens are estimated over the characters of a text, in whatever order: four
/// ASCII characters to a token, rounded down, every other character one.
pub proof fn estimate_counts_characters(a: Seq<char>, c: char, b: Seq<char>)
    ensures
        ascii_count(a + b) == ascii_count(a) + ascii_count(b),
        ascii_count(seq![c]) == (if (c as u32) < 128 {
            1nat
        } else {
            0nat
        }),
        approx_tokens(a) == ascii_count(a) / 4 + (a.len() - ascii_count(a)),
    decreases b.len(),
{
    let one = seq![c];
    assert(one.drop_last() =~= seq![]);
    assert(ascii_count(one.drop_last()) == 0);
    lemma_ascii_count(a);
    if b.len() == 0 {
        assert(a + b =~= a);
    } else {
        assert((a + b).drop_last() =~= a + b.drop_last());
        estimate_counts_characters(a, c, b.drop_last());
    }
}

/// The estimate of a dry run is the sum over all requests of what the state and
/// the questions come to.
pub proof fn estimate_is_over_all_requests(states: Seq<JsonTree>, questions: JsonTree, k: nat, i: int)
    requires
        0 <= i < k <= states.len(),
    ensures
        total_tokens(states, questions, 0) == 0,
        total_tokens(states, questions, (i + 1) as nat) == total_tokens(states, questions, i as nat) + approx_tokens(json_text(states[i]))
            + approx_tokens(json_text(questions)),
        total_tokens(states, questions, (i + 1) as nat) <= total_tokens(states, questions, k),
{
    lemma_total_grows(states, questions, (i + 1) as nat, k);
}

/// A dry run with JSON prints each request on a line of its own, in order: the
/// document's path, the estimate for the request and the state itself.
pub proof fn dry_run_shows_every_request(docs: Seq<DocView>, states: Seq<JsonTree>, questions: JsonTree, i: int)
    requires
        docs.len() == states.len(),
        0 <= i < states.len(),
    ensures
        dry_out(true, docs, states, questions).len() == states.len(),
        exists|m: Map<Seq<char>, JsonTree>|
            {
                &&& dry_out(true, docs, states, questions)[i] == #[trigger] json_text(JsonTree::Obj(m))
                &&& m.contains_pair("path"@, JsonTree::Str(docs[i].path.shown))
                &&& m.contains_pair(
                    "approx_tokens"@,
                    JsonTree::UInt((approx_tokens(json_text(states[i])) + approx_tokens(json_text(questions))) as u64),
                )
                &&& m.contains_pair("state"@, states[i])
                &&& m.len() == 3
            },
        dry_out(false, docs, states, questions) == seq!["first state:\n"@ + json_pretty(states[0])],
{
    reveal_strlit("path");
    reveal_strlit("approx_tokens");
    reveal_strlit("state");
    assert("path"@.len() == 4 && "approx_tokens"@.len() == 13 && "state"@.len() == 5);
    let o = dry_object(docs[i].path.shown, request_tokens(states[i], questions), states[i]);
    let m = o->Obj_0;
    assert(dry_out(true, docs, states, questions)[i] == json_text(JsonTree::Obj(m)));
    assert(m.dom() =~= set!["path"@, "approx_tokens"@, "state"@]);
    assert(m.len() == 3);
}

/// A dry run says how many documents and requests there are and what they come
/// to, and names every file that was skipped with its reason, in order.
pub proof fn dry_run_sums_up(docs: nat, requests: nat, total: nat, unreadable: Seq<Seq<char>>)
    ensures
        dry_err(docs, requests, total, unreadable).len() == 1 + unreadable.len(),
        dry_err(docs, requests, total, unreadable)[0] == "dry run: "@ + decimal(docs) + " documents, "@ + decimal(requests) + " requests, ≈"@
            + decimal(total) + " input tokens. Nothing was sent."@,
        forall|i: int| 0 <= i < unreadable.len() ==> #[trigger] dry_err(docs, requests, total, unreadable)[i + 1] == "skipped: "@ + unreadable[i],
{
}

/// Everything that was skipped is named, in order.
pub proof fn skipped_are_all_named(messages: Seq<Seq<char>>)
    ensures
        skipped_lines(messages).len() == messages.len(),
        forall|i: int| 0 <= i < messages.len() ==> #[trigger] skipped_lines(messages)[i] == "skipped: "@ + messages[i],
{
}

/// The estimate of a text is never more than one token per character.
pub proof fn estimate_is_bounded(s: Seq<char>)
    ensures
        approx_tokens(s) <= s.len(),
{
    lemma_ascii_count(s);
}

} // verus!
