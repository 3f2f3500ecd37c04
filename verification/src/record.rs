//! Recording every decision to JSONL (and optionally Parquet).
//!
//! A recording is the raw material for three things:
//!
//! 1. **Replay** — re-run a backtest or a test suite without paying for or
//!    waiting on a backend ([`crate::backend::replay`]).
//! 2. **Calibration** — join the recorded probabilities with what actually
//!    happened and measure how honest the backend was ([`crate::calibration`]).
//! 3. **Training data** — the same rows, with outcomes attached, are a
//!    labelled dataset for distilling a small local model.
use vstd::prelude::*;
use vstd::string::*;

use crate::answer::{AnswersView, RawAnswers};
use crate::hash::{hash_json, tree_hash};
use crate::json::{copy_value, json_text, json_tree, value_text, JsonTree};
use crate::schema::{opt_text, schema_hash, QuestionSchema, SpecView};
use crate::sorted_map::{Copied, SortedMap};
use crate::sorting::views;
use crate::text::{blank, chars_of, is_blank, strings};

verus! {

// ---------------------------------------------------------------------------
// Time
// ---------------------------------------------------------------------------

/// A point in time as RFC 3339 text, by its seconds and nanoseconds since the
/// start of 1970; nothing for one that the calendar does not reach.
pub uninterp spec fn rfc3339(secs: i64, nanos: u32) -> Option<Seq<char>>;

/// `chrono::DateTime::from_timestamp` and `to_rfc3339`: a point in time as text.
#[verifier::external_body]
fn rfc3339_text(secs: i64, nanos: u32) -> (r: Option<String>)
    ensures
        match r {
            Some(s) => rfc3339(secs, nanos) == Some(s@),
            None => rfc3339(secs, nanos) is None,
        },
{
    chrono::DateTime::from_timestamp(secs, nanos).map(|t| t.to_rfc3339())
}

/// `chrono::Utc::now` reads the clock; what it reads is within the calendar.
#[verifier::external_body]
fn clock() -> (r: (i64, u32))
    ensures
        rfc3339(r.0, r.1) is Some,
{
    let t = chrono::Utc::now();
    (t.timestamp(), t.timestamp_subsec_nanos())
}

/// A point in time.
#[derive(Debug, Clone, Copy, PartialEq, Eq)]
pub struct Timestamp {
    secs: i64,
    nanos: u32,
}

impl View for Timestamp {
    type V = (i64, u32);

    closed spec fn view(&self) -> (i64, u32) {
        (self.secs, self.nanos)
    }
}

impl Timestamp {
    #[verifier::type_invariant]
    pub closed spec fn wf(&self) -> bool {
        rfc3339(self.secs, self.nanos) is Some
    }

    /// The point this far after the start of 1970, if the calendar reaches it.
    pub fn new(secs: i64, nanos: u32) -> (r: Option<Timestamp>)
        ensures
            match r {
                Some(t) => rfc3339(secs, nanos) is Some && t@ == (secs, nanos),
                None => rfc3339(secs, nanos) is None,
            },
    {
        match rfc3339_text(secs, nanos) {
            Some(_) => Some(Timestamp { secs, nanos }),
            None => None,
        }
    }

    /// The present: whatever the clock reads, it is within the calendar.
    pub fn now() -> (r: Timestamp)
        ensures
            rfc3339(r@.0, r@.1) is Some,
    {
        let (secs, nanos) = clock();
        Timestamp { secs, nanos }
    }

    pub fn secs(&self) -> (r: i64)
        ensures
            r == self@.0,
    {
        self.secs
    }

    pub fn nanos(&self) -> (r: u32)
        ensures
            r == self@.1,
    {
        self.nanos
    }

    /// The RFC 3339 text of this point.
    pub fn to_rfc3339(&self) -> (r: String)
        ensures
            rfc3339(self@.0, self@.1) == Some(r@),
    {
        proof {
            use_type_invariant(self);
        }
        match rfc3339_text(self.secs, self.nanos) {
            Some(s) => s,
            None => String::new(),
        }
    }
}

// ---------------------------------------------------------------------------
// Records
// ---------------------------------------------------------------------------

/// One recorded decision.
pub struct Record {
    pub ts: Timestamp,
    pub backend: String,
    pub state_hash: String,
    pub schema_hash: String,
    pub state: serde_json::Value,
    pub schema: QuestionSchema,
    pub answers: RawAnswers,
    /// What actually happened, attached later with [`attach_outcomes`].
    /// Free-form: `{"is_urgent": true, "department": "billing"}`.
    pub outcome: Option<serde_json::Value>,
    /// Optional free-form tag (`"shadow"`, `"backtest-2026-09"`, …).
    pub tag: Option<String>,
}

/// What a record says.
#[verifier::ext_equal]
pub struct RecordView {
    pub ts: (i64, u32),
    pub backend: Seq<char>,
    pub state_hash: Seq<char>,
    pub schema_hash: Seq<char>,
    pub state: JsonTree,
    pub schema: Map<Seq<char>, SpecView>,
    pub answers: AnswersView,
    pub outcome: Option<JsonTree>,
    pub tag: Option<Seq<char>>,
}

pub open spec fn opt_json(v: Option<serde_json::Value>) -> Option<JsonTree> {
    match v {
        Some(x) => Some(json_tree(x)),
        None => None,
    }
}

impl View for Record {
    type V = RecordView;

    open spec fn view(&self) -> RecordView {
        RecordView {
            ts: self.ts@,
            backend: self.backend@,
            state_hash: self.state_hash@,
            schema_hash: self.schema_hash@,
            state: json_tree(self.state),
            schema: self.schema@,
            answers: self.answers@,
            outcome: opt_json(self.outcome),
            tag: opt_text(self.tag),
        }
    }
}

/// The record of an answer, before an outcome or a tag is attached.
pub open spec fn fresh_record(
    ts: (i64, u32),
    backend: Seq<char>,
    state: JsonTree,
    schema: Map<Seq<char>, SpecView>,
    answers: AnswersView,
) -> RecordView {
    RecordView {
        ts,
        backend,
        state_hash: tree_hash(state),
        schema_hash: schema_hash(schema),
        state,
        schema,
        answers,
        outcome: None,
        tag: None,
    }
}

impl Record {
    /// The record of an answer given at `ts`.
    pub fn at(ts: Timestamp, backend: &str, state: &serde_json::Value, schema: &QuestionSchema, answers: &RawAnswers) -> (r: Self)
        ensures
            r@ == fresh_record(ts@, backend@, json_tree(*state), schema@, answers@),
    {
        Record {
            ts,
            backend: backend.to_owned(),
            state_hash: hash_json(state),
            schema_hash: schema.hash(),
            state: copy_value(state),
            schema: schema.copied(),
            answers: answers.copied(),
            outcome: None,
            tag: None,
        }
    }

    /// The record of an answer given now.
    pub fn new(backend: &str, state: &serde_json::Value, schema: &QuestionSchema, answers: &RawAnswers) -> (r: Self)
        ensures
            r@ == fresh_record(r@.ts, backend@, json_tree(*state), schema@, answers@),
    {
        Record::at(Timestamp::now(), backend, state, schema, answers)
    }

    /// The record with a tag of its own.
    pub fn tagged(self, tag: &str) -> (r: Self)
        ensures
            r@ == (RecordView { tag: Some(tag@), ..self@ }),
    {
        let mut out = self;
        out.tag = Some(tag.to_owned());
        out
    }
}

/// A record as a recorder writes it: with the recorder's tag, unless it has
/// one of its own.
pub open spec fn stamped(r: RecordView, tag: Option<Seq<char>>) -> RecordView {
    match r.tag {
        Some(_) => r,
        None => RecordView { tag, ..r },
    }
}

/// The tag that a recorder gives to the records it writes.
pub fn stamp(record: Record, tag: &Option<String>) -> (r: Record)
    ensures
        r@ == stamped(record@, opt_text(*tag)),
{
    if record.tag.is_none() {
        let mut out = record;
        out.tag = match tag {
            Some(t) => Some(t.clone()),
            None => None,
        };
        out
    } else {
        record
    }
}

/// Whether a line of a recording is read at all: blank ones are passed over.
pub fn holds_record(line: &str) -> (r: bool)
    ensures
        r == !is_blank(line@),
{
    !blank(chars_of(line).as_slice())
}

// ---------------------------------------------------------------------------
// Outcomes
// ---------------------------------------------------------------------------

/// What each outcome says.
pub open spec fn outcome_trees(m: Map<Seq<char>, serde_json::Value>) -> Map<Seq<char>, JsonTree> {
    m.map_values(|v: serde_json::Value| json_tree(v))
}

/// A record with the outcome given for its state, if there is one.
pub open spec fn with_outcome(r: RecordView, outcomes: Map<Seq<char>, JsonTree>) -> RecordView {
    if outcomes.contains_key(r.state_hash) {
        RecordView { outcome: Some(outcomes[r.state_hash]), ..r }
    } else {
        r
    }
}

pub open spec fn with_outcomes(rs: Seq<RecordView>, outcomes: Map<Seq<char>, JsonTree>) -> Seq<RecordView> {
    rs.map_values(|r: RecordView| with_outcome(r, outcomes))
}

/// How many records an outcome is given for.
pub open spec fn matched(rs: Seq<RecordView>, outcomes: Map<Seq<char>, JsonTree>) -> nat
    decreases rs.len(),
{
    if rs.len() == 0 {
        0
    } else {
        matched(rs.drop_last(), outcomes) + (if outcomes.contains_key(rs.last().state_hash) {
            1nat
        } else {
            0nat
        })
    }
}

/// Attach outcomes to records by state hash.
///
/// `outcomes` maps `state_hash -> outcome JSON`. Records without a matching
/// hash are left untouched. Returns the number of records updated.
pub fn attach_outcomes(records: &mut Vec<Record>, outcomes: &SortedMap<String, serde_json::Value>) -> (r: usize)
    ensures
        views(final(records)@) == with_outcomes(views(old(records)@), outcome_trees(outcomes@)),
        r == matched(views(old(records)@), outcome_trees(outcomes@)),
{
    let ghost rs = views(records@);
    let ghost os = outcome_trees(outcomes@);
    let ghost want = with_outcomes(rs, os);
    let len = records.len();
    let mut n: usize = 0;
    let mut i: usize = 0;
    assert(rs.take(0) =~= seq![]);
    while i < len
        invariant
            i <= len == records@.len(),
            len == rs.len(),
            rs == views(old(records)@),
            os == outcome_trees(outcomes@),
            want == with_outcomes(rs, os),
            forall|j: int| 0 <= j < i ==> (#[trigger] records@[j])@ == want[j],
            forall|j: int| i <= j < len ==> (#[trigger] records@[j])@ == rs[j],
            n == matched(rs.take(i as int), os),
            n <= i,
        decreases len - i,
    {
        assert(rs.take(i + 1).drop_last() =~= rs.take(i as int));
        assert(rs.take(i + 1).last() == rs[i as int]);
        assert(records@[i as int]@ == rs[i as int]);
        match outcomes.get(&records[i].state_hash) {
            Some(o) => {
                let mut r = records.remove(i);
                r.outcome = Some(copy_value(o));
                assert(r@ =~= want[i as int]);
                records.insert(i, r);
                n += 1;
            },
            None => {},
        }
        i += 1;
    }
    assert(rs.take(len as int) =~= rs);
    assert(views(records@) =~= want);
    n
}

/// Attaching the same outcomes once more changes nothing.
pub proof fn attaching_is_idempotent(rs: Seq<RecordView>, outcomes: Map<Seq<char>, JsonTree>)
    ensures
        with_outcomes(with_outcomes(rs, outcomes), outcomes) == with_outcomes(rs, outcomes),
{
    assert(with_outcomes(with_outcomes(rs, outcomes), outcomes) =~= with_outcomes(rs, outcomes));
}

/// Attaching changes nothing but outcomes, and none of a record whose state
/// no outcome is given for. Order and number of the records stay.
pub proof fn attaching_touches_matches_only(rs: Seq<RecordView>, outcomes: Map<Seq<char>, JsonTree>)
    ensures
        with_outcomes(rs, outcomes).len() == rs.len(),
        forall|i: int|
            0 <= i < rs.len() ==> with_outcomes(rs, outcomes)[i] == (RecordView {
                outcome: (#[trigger] with_outcomes(rs, outcomes)[i]).outcome,
                ..rs[i]
            }),
        forall|i: int|
            0 <= i < rs.len() && !outcomes.contains_key(rs[i].state_hash) ==> #[trigger] with_outcomes(rs, outcomes)[i] == rs[i],
        matched(rs, outcomes) <= rs.len(),
{
    lemma_matched_bound(rs, outcomes);
}

proof fn lemma_matched_bound(rs: Seq<RecordView>, outcomes: Map<Seq<char>, JsonTree>)
    ensures
        matched(rs, outcomes) <= rs.len(),
    decreases rs.len(),
{
    if rs.len() > 0 {
        lemma_matched_bound(rs.drop_last(), outcomes);
    }
}

// ---------------------------------------------------------------------------
// Columns
// ---------------------------------------------------------------------------

/// The number of columns of an exported recording.
pub const COLUMNS: usize = 9;

/// A column of texts.
#[derive(Debug)]
pub struct Column {
    pub name: &'static str,
    pub nullable: bool,
    pub cells: Vec<Option<String>>,
}

/// The name of a column.
pub open spec fn column_title(k: int) -> Seq<char> {
    if k == 0 {
        "ts"@
    } else if k == 1 {
        "backend"@
    } else if k == 2 {
        "state_hash"@
    } else if k == 3 {
        "schema_hash"@
    } else if k == 4 {
        "state"@
    } else if k == 5 {
        "schema"@
    } else if k == 6 {
        "answers"@
    } else if k == 7 {
        "outcome"@
    } else {
        "tag"@
    }
}

/// What stands in a column for a record. Nested values are stored as JSON
/// texts; `schema` and `answers` are those of the record's own.
pub open spec fn cell(k: int, r: RecordView, schema: Seq<char>, answers: Seq<char>) -> Option<Seq<char>> {
    if k == 0 {
        rfc3339(r.ts.0, r.ts.1)
    } else if k == 1 {
        Some(r.backend)
    } else if k == 2 {
        Some(r.state_hash)
    } else if k == 3 {
        Some(r.schema_hash)
    } else if k == 4 {
        Some(json_text(r.state))
    } else if k == 5 {
        Some(schema)
    } else if k == 6 {
        Some(answers)
    } else if k == 7 {
        match r.outcome {
            Some(o) => Some(json_text(o)),
            None => None,
        }
    } else {
        r.tag
    }
}

pub open spec fn opt_texts(v: Seq<Option<String>>) -> Seq<Option<Seq<char>>> {
    v.map_values(|s: Option<String>| opt_text(s))
}

/// The cells of a column, one per record.
pub open spec fn column_cells(k: int, rs: Seq<RecordView>, schemas: Seq<Seq<char>>, answers: Seq<Seq<char>>) -> Seq<Option<Seq<char>>> {
    Seq::new(rs.len(), |i: int| cell(k, rs[i], schemas[i], answers[i]))
}

fn column_name(k: usize) -> (r: &'static str)
    ensures
        r@ == column_title(k as int),
{
    if k == 0 {
        "ts"
    } else if k == 1 {
        "backend"
    } else if k == 2 {
        "state_hash"
    } else if k == 3 {
        "schema_hash"
    } else if k == 4 {
        "state"
    } else if k == 5 {
        "schema"
    } else if k == 6 {
        "answers"
    } else if k == 7 {
        "outcome"
    } else {
        "tag"
    }
}

fn cell_of(k: usize, r: &Record, schema: &String, answers: &String) -> (c: Option<String>)
    ensures
        opt_text(c) == cell(k as int, r@, schema@, answers@),
{
    if k == 0 {
        Some(r.ts.to_rfc3339())
    } else if k == 1 {
        Some(r.backend.clone())
    } else if k == 2 {
        Some(r.state_hash.clone())
    } else if k == 3 {
        Some(r.schema_hash.clone())
    } else if k == 4 {
        Some(value_text(&r.state))
    } else if k == 5 {
        Some(schema.clone())
    } else if k == 6 {
        Some(answers.clone())
    } else if k == 7 {
        match &r.outcome {
            Some(o) => Some(value_text(o)),
            None => None,
        }
    } else {
        match &r.tag {
            Some(t) => Some(t.clone()),
            None => None,
        }
    }
}

/// The columns of an exported recording: one text per record in each, and only
/// `outcome` and `tag` may be missing.
pub fn export_columns(records: &Vec<Record>, schemas: &Vec<String>, answers: &Vec<String>) -> (r: Vec<Column>)
    requires
        schemas@.len() == records@.len(),
        answers@.len() == records@.len(),
    ensures
        r@.len() == COLUMNS,
        forall|k: int|
            0 <= k < COLUMNS ==> {
                &&& (#[trigger] r@[k]).name@ == column_title(k)
                &&& r@[k].nullable == (k >= 7)
                &&& opt_texts(r@[k].cells@) == column_cells(k, views(records@), strings(schemas@), strings(answers@))
            },
{
    let ghost rs = views(records@);
    let n = records.len();
    let mut out: Vec<Column> = Vec::new();
    let mut k: usize = 0;
    while k < COLUMNS
        invariant
            k <= COLUMNS,
            k == out@.len(),
            n == records@.len(),
            schemas@.len() == n,
            answers@.len() == n,
            rs == views(records@),
            forall|j: int|
                0 <= j < k ==> {
                    &&& (#[trigger] out@[j]).name@ == column_title(j)
                    &&& out@[j].nullable == (j >= 7)
                    &&& opt_texts(out@[j].cells@) == column_cells(j, rs, strings(schemas@), strings(answers@))
                },
        decreases COLUMNS - k,
    {
        let ghost want = column_cells(k as int, rs, strings(schemas@), strings(answers@));
        let mut cells: Vec<Option<String>> = Vec::new();
        let mut i: usize = 0;
        assert(opt_texts(cells@) =~= want.take(0));
        while i < n
            invariant
                i <= n == records@.len(),
                schemas@.len() == n,
                answers@.len() == n,
                rs == views(records@),
                want == column_cells(k as int, rs, strings(schemas@), strings(answers@)),
                opt_texts(cells@) == want.take(i as int),
            decreases n - i,
        {
            let ghost before = opt_texts(cells@);
            let c = cell_of(k, &records[i], &schemas[i], &answers[i]);
            assert(want[i as int] == opt_text(c));
            cells.push(c);
            assert(opt_texts(cells@) =~= before.push(want[i as int]));
            assert(before.push(want[i as int]) =~= want.take(i + 1));
            i += 1;
        }
        assert(want.take(n as int) =~= want);
        out.push(Column { name: column_name(k), nullable: k >= 7, cells });
        k += 1;
    }
    out
}

/// No cell of a column that may not be missing is missing.
pub proof fn required_cells_are_filled(k: int, r: RecordView, schema: Seq<char>, answers: Seq<char>)
    requires
        0 <= k < 7,
        rfc3339(r.ts.0, r.ts.1) is Some,
    ensures
        cell(k, r, schema, answers) is Some,
{
}

/// A record of an answer holds what was asked and answered, the hashes of
/// both, and neither outcome nor tag.
pub proof fn records_hold_what_was_asked(
    ts: (i64, u32),
    backend: Seq<char>,
    state: JsonTree,
    schema: Map<Seq<char>, SpecView>,
    answers: AnswersView,
)
    ensures
        ({
            let r = fresh_record(ts, backend, state, schema, answers);
            &&& r.ts == ts && r.backend == backend
            &&& r.state == state && r.state_hash == tree_hash(state)
            &&& r.schema == schema && r.schema_hash == schema_hash(schema)
            &&& r.answers == answers
            &&& r.outcome is None && r.tag is None
        }),
{
}

/// What a record says is all that it holds.
pub proof fn records_are_seen_whole(r: Record)
    ensures
        r@.ts == r.ts@ && r@.backend == r.backend@,
        r@.state == json_tree(r.state) && r@.state_hash == r.state_hash@,
        r@.schema == r.schema@ && r@.schema_hash == r.schema_hash@,
        r@.answers == r.answers@,
        match r.outcome {
            Some(o) => r@.outcome == Some(json_tree(o)),
            None => r@.outcome is None,
        },
        match r.tag {
            Some(t) => r@.tag == Some(t@),
            None => r@.tag is None,
        },
{
}

/// A recorder's tag goes to the records that have none of their own, and
/// changes nothing else.
pub proof fn own_tags_stay(r: RecordView, tag: Option<Seq<char>>)
    ensures
        r.tag is Some ==> stamped(r, tag) == r,
        r.tag is None ==> stamped(r, tag).tag == tag,
        stamped(r, tag) == (RecordView { tag: stamped(r, tag).tag, ..r }),
{
}

/// Each record whose state an outcome is given for takes that outcome, and
/// just those records are counted.
pub proof fn outcomes_go_to_their_states(a: Seq<RecordView>, r: RecordView, b: Seq<RecordView>, outcomes: Map<Seq<char>, JsonTree>)
    ensures
        outcomes.contains_key(r.state_hash) ==> with_outcomes(a + seq![r] + b, outcomes)[a.len() as int].outcome == Some(outcomes[r.state_hash]),
        matched(a + b, outcomes) == matched(a, outcomes) + matched(b, outcomes),
        matched(seq![r], outcomes) == (if outcomes.contains_key(r.state_hash) {
            1nat
        } else {
            0nat
        }),
    decreases b.len(),
{
    assert((a + seq![r] + b)[a.len() as int] == r);
    reveal_with_fuel(matched, 2);
    assert(seq![r].drop_last() =~= seq![]);
    if b.len() > 0 {
        assert((a + b).drop_last() =~= a + b.drop_last());
        assert((a + b).last() == b.last());
        outcomes_go_to_their_states(a, r, b.drop_last(), outcomes);
    } else {
        assert(a + b =~= a);
    }
}

/// An outcome is kept under the state that it was given for.
pub proof fn outcomes_keep_their_states(m: Map<Seq<char>, serde_json::Value>, k: Seq<char>)
    ensures
        outcome_trees(m).contains_key(k) == m.contains_key(k),
        m.contains_key(k) ==> outcome_trees(m)[k] == json_tree(m[k]),
{
}

/// An exported recording has nine columns; in each the cell of a record shows
/// the field that the column is named after, the nested ones as JSON.
pub proof fn columns_show_their_fields(rs: Seq<RecordView>, schemas: Seq<Seq<char>>, answers: Seq<Seq<char>>, i: int, k: int)
    requires
        0 <= i < rs.len(),
        schemas.len() == rs.len(),
        answers.len() == rs.len(),
    ensures
        COLUMNS == 9,
        column_cells(k, rs, schemas, answers).len() == rs.len(),
        ({
            let r = rs[i];
            let c = column_cells(k, rs, schemas, answers)[i];
            &&& k == 0 ==> column_title(k) == "ts"@ && c == rfc3339(r.ts.0, r.ts.1)
            &&& k == 1 ==> column_title(k) == "backend"@ && c == Some(r.backend)
            &&& k == 2 ==> column_title(k) == "state_hash"@ && c == Some(r.state_hash)
            &&& k == 3 ==> column_title(k) == "schema_hash"@ && c == Some(r.schema_hash)
            &&& k == 4 ==> column_title(k) == "state"@ && c == Some(json_text(r.state))
            &&& k == 5 ==> column_title(k) == "schema"@ && c == Some(schemas[i])
            &&& k == 6 ==> column_title(k) == "answers"@ && c == Some(answers[i])
            &&& k == 7 ==> column_title(k) == "outcome"@ && c == (match r.outcome {
                Some(o) => Some(json_text(o)),
                None => None,
            })
            &&& k == 8 ==> column_title(k) == "tag"@ && c == r.tag
        }),
{
}

} // verus!
