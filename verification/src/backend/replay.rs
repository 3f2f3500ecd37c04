//! Replay answers from a recording — no network, no cost, fully reproducible.
use vstd::prelude::*;
use vstd::string::*;

use crate::answer::{AnswersView, RawAnswers};
use crate::error::{Error, ErrorView};
use crate::hash::{hash_json, tree_hash};
use crate::json::{json_tree, JsonTree};
use crate::record::{fresh_record, stamped, with_outcomes, Record, RecordView};
use crate::schema::{schema_hash, QuestionSchema, SpecView};
use crate::sorted_map::{viewed, Copied, SortedMap};
use crate::sorting::views;

verus! {

/// Looks up `(state_hash, schema_hash)` in a recording.
///
/// Use it to re-run a backtest against answers you already paid for, or to
/// make an integration test deterministic. Unknown states come out as
/// [`Error::NotRecorded`], unless a fallback backend answers them.
#[derive(Debug)]
pub struct Replay {
    table: SortedMap<(String, String), RawAnswers>,
    source: String,
}

/// What is recorded under a key.
pub open spec fn record_key(r: RecordView) -> (Seq<char>, Seq<char>) {
    (r.state_hash, r.schema_hash)
}

/// The answers of a recording by key: of several records with one key the
/// last counts.
pub open spec fn answers_of(rs: Seq<RecordView>) -> Map<(Seq<char>, Seq<char>), AnswersView>
    decreases rs.len(),
{
    if rs.len() == 0 {
        Map::empty()
    } else {
        answers_of(rs.drop_last()).insert(record_key(rs.last()), rs.last().answers)
    }
}

/// The key of a state and a schema.
pub open spec fn ask_key(state: JsonTree, schema: Map<Seq<char>, SpecView>) -> (Seq<char>, Seq<char>) {
    (tree_hash(state), schema_hash(schema))
}

/// What a recording has to say.
#[derive(Debug)]
pub enum Lookup {
    Hit(RawAnswers),
    Miss { state_hash: String, schema_hash: String },
}

impl Replay {
    /// The answers under each key.
    pub closed spec fn table(&self) -> Map<(Seq<char>, Seq<char>), AnswersView> {
        viewed(self.table@)
    }

    /// Where the recording came from.
    pub closed spec fn source(&self) -> Seq<char> {
        self.source@
    }

    /// Load the records of a JSONL recording. Later records win on duplicate keys.
    pub fn from_jsonl(records: Vec<Record>, source: &str) -> (r: Self)
        ensures
            r.table() == answers_of(views(records@)),
            r.source() == source@,
    {
        let ghost rs = views(records@);
        let mut table: SortedMap<(String, String), RawAnswers> = SortedMap::new();
        let n = records.len();
        let mut i: usize = 0;
        assert(rs.take(0) =~= seq![]);
        assert(viewed(table@) =~= Map::empty());
        while i < n
            invariant
                i <= n == records@.len(),
                rs == views(records@),
                viewed(table@) == answers_of(rs.take(i as int)),
            decreases n - i,
        {
            assert(rs.take(i + 1).drop_last() =~= rs.take(i as int));
            assert(rs.take(i + 1).last() == records@[i as int]@);
            let ghost before = table@;
            let key = (records[i].state_hash.clone(), records[i].schema_hash.clone());
            table.insert(key, records[i].answers.copied());
            assert(viewed(table@) =~= viewed(before).insert(record_key(rs[i as int]), rs[i as int].answers));
            i += 1;
        }
        assert(rs.take(n as int) =~= rs);
        Replay { table, source: source.to_owned() }
    }

    pub fn len(&self) -> (r: usize)
        ensures
            r == self.table().len(),
    {
        assert(self.table().dom() =~= self.table@.dom());
        self.table.len()
    }

    pub fn is_empty(&self) -> (r: bool)
        ensures
            r == (self.table().len() == 0),
    {
        self.len() == 0
    }

    pub fn id(&self) -> (r: String)
        ensures
            r@ == "replay:"@ + self.source(),
    {
        let mut id = "replay:".to_owned();
        id.push_str(self.source.as_str());
        id
    }

    /// What was recorded for `state` and `schema`.
    pub fn lookup(&self, state: &serde_json::Value, schema: &QuestionSchema) -> (r: Lookup)
        ensures
            ({
                let key = ask_key(json_tree(*state), schema@);
                match r {
                    Lookup::Hit(a) => self.table().contains_pair(key, a@),
                    Lookup::Miss { state_hash, schema_hash } => !self.table().contains_key(key) && (state_hash@, schema_hash@) == key,
                }
            }),
    {
        let key = (hash_json(state), schema.hash());
        match self.table.get(&key) {
            Some(a) => Lookup::Hit(a.copied()),
            None => Lookup::Miss { state_hash: key.0, schema_hash: key.1 },
        }
    }
}

/// What a replay answers: the recording where it has an answer, else what the
/// fallback said (`fallback` is what it said, where there is one).
pub open spec fn replayed(
    table: Map<(Seq<char>, Seq<char>), AnswersView>,
    key: (Seq<char>, Seq<char>),
    fallback: Option<Result<AnswersView, ErrorView>>,
) -> Result<AnswersView, ErrorView> {
    if table.contains_key(key) {
        Ok(table[key])
    } else {
        match fallback {
            Some(answer) => answer,
            None => Err(ErrorView::NotRecorded { state_hash: key.0, schema_hash: key.1 }),
        }
    }
}

/// What an outcome says.
pub open spec fn outcome_view(r: Result<RawAnswers, Error>) -> Result<AnswersView, ErrorView> {
    match r {
        Ok(a) => Ok(a@),
        Err(e) => Err(e@),
    }
}

impl Lookup {
    /// The answer, given what the fallback said where there is one and the
    /// recording is silent.
    pub fn settle(self, fallback: Option<Result<RawAnswers, Error>>) -> (r: Result<RawAnswers, Error>)
        ensures
            match self {
                Lookup::Hit(a) => outcome_view(r) == Ok::<AnswersView, ErrorView>(a@),
                Lookup::Miss { state_hash, schema_hash } => outcome_view(r) == (match fallback {
                    Some(x) => outcome_view(x),
                    None => Err(ErrorView::NotRecorded { state_hash: state_hash@, schema_hash: schema_hash@ }),
                }),
            },
    {
        match self {
            Lookup::Hit(a) => Ok(a),
            Lookup::Miss { state_hash, schema_hash } => match fallback {
                Some(x) => x,
                None => Err(Error::NotRecorded { state_hash, schema_hash }),
            },
        }
    }
}

impl Replay {
    /// Answer from the recording alone.
    pub fn decide(&self, state: &serde_json::Value, schema: &QuestionSchema) -> (r: Result<RawAnswers, Error>)
        ensures
            outcome_view(r) == replayed(self.table(), ask_key(json_tree(*state), schema@), None),
    {
        self.lookup(state, schema).settle(None)
    }
}

// ---------------------------------------------------------------------------
// Laws
// ---------------------------------------------------------------------------

/// What is recorded is what is replayed: an answer that was recorded for a
/// state and a schema, by a recorder with or without a tag, and for which no
/// later record stands, comes back.
pub proof fn recorded_answer_is_replayed(
    before: Seq<RecordView>,
    ts: (i64, u32),
    backend: Seq<char>,
    state: JsonTree,
    schema: Map<Seq<char>, SpecView>,
    answers: AnswersView,
    tag: Option<Seq<char>>,
    after: Seq<RecordView>,
    fallback: Option<Result<AnswersView, ErrorView>>,
)
    requires
        forall|i: int| 0 <= i < after.len() ==> record_key(#[trigger] after[i]) != ask_key(state, schema),
    ensures
        replayed(
            answers_of(before.push(stamped(fresh_record(ts, backend, state, schema, answers), tag)) + after),
            ask_key(state, schema),
            fallback,
        ) == Ok::<AnswersView, ErrorView>(answers),
    decreases after.len(),
{
    let r = stamped(fresh_record(ts, backend, state, schema, answers), tag);
    let rs = before.push(r) + after;
    if after.len() == 0 {
        assert(rs =~= before.push(r));
        assert(rs.drop_last() =~= before);
    } else {
        assert(rs.drop_last() =~= before.push(r) + after.drop_last());
        assert(record_key(after[after.len() - 1]) != ask_key(state, schema));
        recorded_answer_is_replayed(before, ts, backend, state, schema, answers, tag, after.drop_last(), fallback);
    }
}

/// A key that no record has is unknown: without a fallback the answer is
/// [`Error::NotRecorded`], with one it is the fallback's.
pub proof fn unknown_state_is_not_recorded(
    rs: Seq<RecordView>,
    key: (Seq<char>, Seq<char>),
    fallback: Option<Result<AnswersView, ErrorView>>,
)
    requires
        forall|i: int| 0 <= i < rs.len() ==> record_key(#[trigger] rs[i]) != key,
    ensures
        replayed(answers_of(rs), key, None) == Err::<AnswersView, ErrorView>(ErrorView::NotRecorded { state_hash: key.0, schema_hash: key.1 }),
        fallback matches Some(x) ==> replayed(answers_of(rs), key, fallback) == x,
{
    lemma_unknown(rs, key);
}

proof fn lemma_unknown(rs: Seq<RecordView>, key: (Seq<char>, Seq<char>))
    requires
        forall|i: int| 0 <= i < rs.len() ==> record_key(#[trigger] rs[i]) != key,
    ensures
        !answers_of(rs).contains_key(key),
    decreases rs.len(),
{
    if rs.len() > 0 {
        assert forall|i: int| 0 <= i < rs.len() - 1 implies record_key(#[trigger] rs.drop_last()[i]) != key by {
            assert(rs.drop_last()[i] == rs[i]);
        }
        assert(record_key(rs[rs.len() - 1]) != key);
        lemma_unknown(rs.drop_last(), key);
    }
}

/// Attaching outcomes to a recording leaves what it replays as it was.
pub proof fn outcomes_do_not_disturb_replay(rs: Seq<RecordView>, outcomes: Map<Seq<char>, JsonTree>)
    ensures
        answers_of(with_outcomes(rs, outcomes)) == answers_of(rs),
    decreases rs.len(),
{
    if rs.len() > 0 {
        assert(with_outcomes(rs, outcomes).drop_last() =~= with_outcomes(rs.drop_last(), outcomes));
        outcomes_do_not_disturb_replay(rs.drop_last(), outcomes);
    }
}

/// A recording is asked by both hashes, of the state and of the schema: the
/// last record with both is the one that answers, and where none has both the
/// recording is silent.
pub proof fn last_record_with_both_hashes_answers(
    before: Seq<RecordView>,
    r: RecordView,
    after: Seq<RecordView>,
    state: JsonTree,
    schema: Map<Seq<char>, SpecView>,
)
    requires
        forall|i: int|
            0 <= i < after.len() ==> !((#[trigger] after[i]).state_hash == tree_hash(state) && after[i].schema_hash == schema_hash(schema)),
    ensures
        r.state_hash == tree_hash(state) && r.schema_hash == schema_hash(schema) ==> {
            &&& replayed(answers_of(before + seq![r] + after), ask_key(state, schema), None) == Ok::<AnswersView, ErrorView>(r.answers)
        },
        replayed(answers_of(after), ask_key(state, schema), None) == Err::<AnswersView, ErrorView>(
            ErrorView::NotRecorded { state_hash: tree_hash(state), schema_hash: schema_hash(schema) },
        ),
    decreases after.len(),
{
    let key = ask_key(state, schema);
    assert forall|i: int| 0 <= i < after.len() implies record_key(#[trigger] after[i]) != key by {
        assert(!(after[i].state_hash == tree_hash(state) && after[i].schema_hash == schema_hash(schema)));
    }
    lemma_unknown(after, key);
    let rs = before + seq![r] + after;
    if after.len() == 0 {
        assert(rs.drop_last() =~= before);
        assert(rs.last() == r);
    } else {
        let last = after[after.len() - 1];
        assert(record_key(last) != key);
        assert(rs.drop_last() =~= before + seq![r] + after.drop_last());
        assert(rs.last() == last);
        assert forall|i: int| 0 <= i < after.drop_last().len() implies !((#[trigger] after.drop_last()[i]).state_hash == tree_hash(state)
            && after.drop_last()[i].schema_hash == schema_hash(schema)) by {
            assert(after.drop_last()[i] == after[i]);
        }
        last_record_with_both_hashes_answers(before, r, after.drop_last(), state, schema);
    }
}

/// An outcome is seen as it is: answers as answers, an error as that error.
pub proof fn outcomes_are_seen_as_they_are(a: RawAnswers, e: Error)
    ensures
        outcome_view(Ok(a)) == Ok::<AnswersView, ErrorView>(a@),
        outcome_view(Err(e)) == Err::<AnswersView, ErrorView>(e@),
{
}

} // verus!
