//! Run two backends side by side: return the primary's answer, record both.
//!
//! This is how you A/B a new model against the one in production without
//! touching business logic. Shadow failures never fail the primary call; they
//! are recorded as a `tag = "shadow-error"` line so you can count them.
use vstd::prelude::*;
use vstd::string::*;

use crate::answer::{no_answers, AnswersView, RawAnswers, RawView, Usage};
use crate::error::Error;
use crate::json::{json_tree, JsonTree};
use crate::record::{fresh_record, Record, RecordView, Timestamp};
use crate::schema::{QuestionSchema, SpecView};
use crate::sorting::views;

verus! {

/// Two backends side by side, by their names, and whether both are recorded.
#[derive(Debug)]
pub struct Shadow {
    pub primary: String,
    pub shadow: String,
    pub recording: bool,
}

/// The record of the primary's answer.
pub open spec fn primary_record(ts: (i64, u32), id: Seq<char>, state: JsonTree, schema: Map<Seq<char>, SpecView>, a: AnswersView) -> RecordView {
    RecordView { tag: Some("primary"@), ..fresh_record(ts, id, state, schema, a) }
}

/// The record of what the shadow said; where it failed, a record of no answers
/// that is tagged as an error.
pub open spec fn shadow_record(
    ts: (i64, u32),
    id: Seq<char>,
    state: JsonTree,
    schema: Map<Seq<char>, SpecView>,
    s: Result<RawAnswers, Error>,
) -> RecordView {
    match s {
        Ok(a) => RecordView { tag: Some("shadow"@), ..fresh_record(ts, id, state, schema, a@) },
        Err(_) => RecordView { tag: Some("shadow-error"@), ..fresh_record(ts, id, state, schema, no_answers()) },
    }
}

impl Shadow {
    pub fn new(primary: &str, shadow: &str) -> (r: Self)
        ensures
            r.primary@ == primary@,
            r.shadow@ == shadow@,
            !r.recording,
    {
        Shadow { primary: primary.to_owned(), shadow: shadow.to_owned(), recording: false }
    }

    /// Record both answers (tagged `primary` / `shadow`).
    pub fn with_recorder(self) -> (r: Self)
        ensures
            r == (Shadow { recording: true, ..self }),
    {
        Shadow { recording: true, ..self }
    }

    pub fn id(&self) -> (r: String)
        ensures
            r@ == "shadow("@ + self.primary@ + " | "@ + self.shadow@ + ")"@,
    {
        let mut id = "shadow(".to_owned();
        id.push_str(self.primary.as_str());
        id.push_str(" | ");
        id.push_str(self.shadow.as_str());
        id.push_str(")");
        id
    }

    /// What to return and what to record, given what both backends said. The
    /// records are made at `ts`.
    pub fn decide(
        &self,
        state: &serde_json::Value,
        schema: &QuestionSchema,
        p: Result<RawAnswers, Error>,
        s: Result<RawAnswers, Error>,
        ts: Timestamp,
    ) -> (r: Result<(RawAnswers, Vec<Record>), Error>)
        ensures
            match p {
                Err(e) => r matches Err(f) && f@ == e@,
                Ok(a) => r matches Ok((b, records)) && b@ == a@ && views(records@) == (if self.recording {
                    seq![
                        primary_record(ts@, self.primary@, json_tree(*state), schema@, a@),
                        shadow_record(ts@, self.shadow@, json_tree(*state), schema@, s),
                    ]
                } else {
                    seq![]
                }),
            },
    {
        let primary = match p {
            Ok(a) => a,
            Err(e) => {
                return Err(e);
            },
        };
        let mut records: Vec<Record> = Vec::new();
        if self.recording {
            let first = Record::at(ts, self.primary.as_str(), state, schema, &primary).tagged("primary");
            let second = match &s {
                Ok(a) => Record::at(ts, self.shadow.as_str(), state, schema, a).tagged("shadow"),
                Err(_) => Record::at(ts, self.shadow.as_str(), state, schema, &RawAnswers::default()).tagged("shadow-error"),
            };
            records.push(first);
            records.push(second);
            assert(views(records@) =~= seq![first@, second@]);
        } else {
            assert(views(records@) =~= seq![]);
        }
        Ok((primary, records))
    }
}

// ---------------------------------------------------------------------------
// Laws
// ---------------------------------------------------------------------------

/// Both records are of the same state, schema and time, each of its own
/// backend and tagged by its part. The primary's holds what the primary
/// answered, the shadow's what the shadow answered, and where the shadow
/// failed no answers.
pub proof fn both_are_recorded(
    ts: (i64, u32),
    id: Seq<char>,
    state: JsonTree,
    schema: Map<Seq<char>, SpecView>,
    a: RawAnswers,
    e: Error,
)
    ensures
        ({
            let p = primary_record(ts, id, state, schema, a@);
            let s = shadow_record(ts, id, state, schema, Ok(a));
            let f = shadow_record(ts, id, state, schema, Err(e));
            &&& p.tag == Some("primary"@) && s.tag == Some("shadow"@) && f.tag == Some("shadow-error"@)
            &&& p.answers == a@ && s.answers == a@
            &&& f.answers.answers == Map::<Seq<char>, RawView>::empty() && f.answers.model.len() == 0 && f.answers.usage == (Usage {
                input_tokens: 0,
                output_tokens: 0,
            })
            &&& p == (RecordView { tag: p.tag, ..fresh_record(ts, id, state, schema, p.answers) })
            &&& s == (RecordView { tag: s.tag, ..fresh_record(ts, id, state, schema, s.answers) })
            &&& f == (RecordView { tag: f.tag, ..fresh_record(ts, id, state, schema, f.answers) })
        }),
{
}

} // verus!
