//! The front door: [`Engine`] wraps a backend with caching, batching and
//! recording.
use vstd::prelude::*;
use vstd::string::*;

use crate::answer::{AnswersView, RawAnswers};
use crate::backend::replay::ask_key;
use crate::error::Error;
use crate::hash::{hash_json, tree_hash};
use crate::json::{json_tree, JsonTree};
use crate::record::{fresh_record, Record, Timestamp};
use crate::schema::{schema_hash, QuestionSchema, SpecView};
use crate::sorted_map::{viewed, Copied, SortedMap};
use crate::text::equal;

verus! {

/// What an engine knows: the answers it keeps and, with a cache, the keys of
/// the questions that a backend is being asked, whether it records, and how
/// many requests may be in flight.
#[derive(Debug)]
pub struct Engine {
    cache: Option<SortedMap<(String, String), RawAnswers>>,
    asking: Vec<(String, String)>,
    recording: bool,
    concurrency: usize,
}

/// What is known of a question before a backend is asked.
#[derive(Debug)]
pub enum Begun {
    /// The answer is at hand; nothing is sent.
    Cached(RawAnswers),
    /// A backend has to be asked; the answer will be kept under this key.
    Ask { key: (String, String) },
    /// A backend is being asked just this; begin again when that has ended.
    Wait,
}

/// The state of an engine.
#[verifier::ext_equal]
pub struct EngineView {
    pub cache: Option<Map<(Seq<char>, Seq<char>), AnswersView>>,
    pub asking: Set<(Seq<char>, Seq<char>)>,
    pub recording: bool,
    pub concurrency: usize,
}

/// What a key says.
pub open spec fn key_view(key: (String, String)) -> (Seq<char>, Seq<char>) {
    (key.0@, key.1@)
}

/// What each key says.
pub open spec fn key_views(keys: Seq<(String, String)>) -> Seq<(Seq<char>, Seq<char>)> {
    keys.map_values(|k: (String, String)| key_view(k))
}

impl View for Engine {
    type V = EngineView;

    closed spec fn view(&self) -> EngineView {
        EngineView {
            cache: match self.cache {
                Some(c) => Some(viewed(c@)),
                None => None,
            },
            asking: key_views(self.asking@).to_set(),
            recording: self.recording,
            concurrency: self.concurrency,
        }
    }
}

/// The answer kept under a key.
pub open spec fn kept(e: EngineView, key: (Seq<char>, Seq<char>)) -> Option<AnswersView> {
    match e.cache {
        Some(c) => if c.contains_key(key) {
            Some(c[key])
        } else {
            None
        },
        None => None,
    }
}

/// What an engine says of a question before a backend is asked.
pub enum Beginning {
    Cached(AnswersView),
    Ask,
    Wait,
}

/// The answer that is kept comes first. With a cache, a question that a backend
/// is being asked has to wait; every other one is asked.
pub open spec fn beginning(e: EngineView, key: (Seq<char>, Seq<char>)) -> Beginning {
    match kept(e, key) {
        Some(a) => Beginning::Cached(a),
        None => if e.cache is Some && e.asking.contains(key) {
            Beginning::Wait
        } else {
            Beginning::Ask
        },
    }
}

/// The engine after a question was begun: with a cache, it knows which are
/// being asked.
pub open spec fn begun(e: EngineView, key: (Seq<char>, Seq<char>)) -> EngineView {
    if beginning(e, key) is Ask && e.cache is Some {
        EngineView { asking: e.asking.insert(key), ..e }
    } else {
        e
    }
}

/// The engine after asking a backend has ended, with an answer or without one.
pub open spec fn ended(e: EngineView, key: (Seq<char>, Seq<char>), said: Option<AnswersView>) -> EngineView {
    let rest = EngineView { asking: e.asking.remove(key), ..e };
    match said {
        Some(a) => keeping(rest, key, a),
        None => rest,
    }
}

/// The engine after a backend gave an answer: it is kept where there is a cache.
pub open spec fn keeping(e: EngineView, key: (Seq<char>, Seq<char>), a: AnswersView) -> EngineView {
    EngineView {
        cache: match e.cache {
            Some(c) => Some(c.insert(key, a)),
            None => None,
        },
        ..e
    }
}

impl Engine {
    pub fn new() -> (r: Self)
        ensures
            r@ == (EngineView { cache: None, asking: Set::empty(), recording: false, concurrency: 16 }),
    {
        let r = Engine { cache: None, asking: Vec::new(), recording: false, concurrency: 16 };
        assert(r@.asking =~= Set::empty());
        r
    }

    /// Record every answer.
    pub fn with_recorder(self) -> (r: Self)
        ensures
            r@ == (EngineView { recording: true, ..self@ }),
    {
        Engine { recording: true, ..self }
    }

    /// In-memory content cache keyed by `(state hash, schema hash)`. Identical
    /// states are never sent twice in one process.
    pub fn with_cache(self) -> (r: Self)
        ensures
            r@ == (EngineView { cache: Some(Map::empty()), ..self@ }),
    {
        let r = Engine { cache: Some(SortedMap::new()), ..self };
        assert(r@.cache->0 =~= Map::empty());
        r
    }

    /// Max in-flight requests for a batch (default 16, at least one).
    pub fn with_concurrency(self, n: usize) -> (r: Self)
        ensures
            r@ == (EngineView {
                concurrency: if n == 0 {
                    1
                } else {
                    n
                },
                ..self@
            }),
    {
        Engine {
            concurrency: if n == 0 {
                1
            } else {
                n
            },
            ..self
        }
    }

    /// How many requests may be in flight.
    pub fn concurrency(&self) -> (r: usize)
        ensures
            r == self@.concurrency,
    {
        self.concurrency
    }

    /// Look for an answer to `schema` about `state` before a backend is asked.
    /// Whoever is told to ask has to `finish`, or to `give_up` where asking
    /// came to nothing.
    pub fn begin(&mut self, state: &serde_json::Value, schema: &QuestionSchema) -> (r: Begun)
        ensures
            ({
                let key = ask_key(json_tree(*state), schema@);
                &&& match beginning(old(self)@, key) {
                    Beginning::Cached(a) => r matches Begun::Cached(b) && b@ == a,
                    Beginning::Ask => r matches Begun::Ask { key: k } && key_view(k) == key,
                    Beginning::Wait => r is Wait,
                }
                &&& final(self)@ == begun(old(self)@, key)
            }),
    {
        let key = (hash_json(state), schema.hash());
        match &self.cache {
            Some(c) => match c.get(&key) {
                Some(hit) => {
                    return Begun::Cached(hit.copied());
                },
                None => {},
            },
            None => {
                return Begun::Ask { key };
            },
        }
        if holds_key(&self.asking, &key) {
            return Begun::Wait;
        }
        let ghost before = key_views(self.asking@);
        self.asking.push((key.0.clone(), key.1.clone()));
        proof {
            assert(key_views(self.asking@) =~= before.push(key_view(key)));
            lemma_set_of_pushed(before, key_view(key));
        }
        Begun::Ask { key }
    }

    /// Asking the question under `key` has ended without an answer.
    pub fn give_up(&mut self, key: &(String, String))
        ensures
            final(self)@ == ended(old(self)@, key_view(*key), None),
    {
        let mut asking: Vec<(String, String)> = Vec::new();
        std::mem::swap(&mut asking, &mut self.asking);
        self.asking = without_key(asking, key);
    }

    /// Take in what the backend named `backend` said when it was asked: an
    /// answer is kept under `key` and, where the engine records, comes out as
    /// a record made at `ts`.
    pub fn finish(
        &mut self,
        key: (String, String),
        backend: &str,
        state: &serde_json::Value,
        schema: &QuestionSchema,
        said: Result<RawAnswers, Error>,
        ts: Timestamp,
    ) -> (r: Result<(RawAnswers, Option<Record>), Error>)
        ensures
            match said {
                Err(e) => (r matches Err(f) && f@ == e@) && final(self)@ == ended(old(self)@, key_view(key), None),
                Ok(a) => (r matches Ok((b, rec)) && b@ == a@ && (match rec {
                    Some(x) => old(self)@.recording && x@ == fresh_record(ts@, backend@, json_tree(*state), schema@, a@),
                    None => !old(self)@.recording,
                })) && final(self)@ == ended(old(self)@, key_view(key), Some(a@)),
            },
    {
        self.give_up(&key);
        let raw = match said {
            Ok(a) => a,
            Err(e) => {
                return Err(e);
            },
        };
        let mut cache: Option<SortedMap<(String, String), RawAnswers>> = None;
        std::mem::swap(&mut cache, &mut self.cache);
        match cache {
            Some(c) => {
                let mut table = c;
                let ghost before = table@;
                table.insert(key, raw.copied());
                assert(viewed(table@) =~= viewed(before).insert(key_view(key), raw@));
                self.cache = Some(table);
            },
            None => {},
        }
        let record = if self.recording {
            Some(Record::at(ts, backend, state, schema, &raw))
        } else {
            None
        };
        Ok((raw, record))
    }
}

fn same_key(a: &(String, String), b: &(String, String)) -> (r: bool)
    ensures
        r == (key_view(*a) == key_view(*b)),
{
    equal(a.0.as_str(), b.0.as_str()) && equal(a.1.as_str(), b.1.as_str())
}

fn holds_key(keys: &Vec<(String, String)>, key: &(String, String)) -> (r: bool)
    ensures
        r == key_views(keys@).to_set().contains(key_view(*key)),
{
    let ghost ks = key_views(keys@);
    let n = keys.len();
    let mut i: usize = 0;
    while i < n
        invariant
            i <= n == keys@.len(),
            ks == key_views(keys@),
            forall|j: int| 0 <= j < i ==> #[trigger] ks[j] != key_view(*key),
        decreases n - i,
    {
        if same_key(&keys[i], key) {
            assert(ks[i as int] == key_view(*key));
            return true;
        }
        i += 1;
    }
    false
}

/// The keys that say something else than `key`.
fn without_key(keys: Vec<(String, String)>, key: &(String, String)) -> (r: Vec<(String, String)>)
    ensures
        key_views(r@).to_set() == key_views(keys@).to_set().remove(key_view(*key)),
{
    let ghost ks = key_views(keys@);
    let ghost gone = key_view(*key);
    let n = keys.len();
    let mut out: Vec<(String, String)> = Vec::new();
    let mut i: usize = 0;
    assert(key_views(out@).to_set() =~= ks.take(0).to_set().remove(gone));
    while i < n
        invariant
            i <= n == keys@.len(),
            ks == key_views(keys@),
            gone == key_view(*key),
            key_views(out@).to_set() == ks.take(i as int).to_set().remove(gone),
        decreases n - i,
    {
        let ghost before = key_views(out@);
        let ghost k = ks[i as int];
        proof {
            assert(ks.take(i + 1) =~= ks.take(i as int).push(k));
            lemma_set_of_pushed(ks.take(i as int), k);
            lemma_set_of_pushed(before, k);
        }
        if !same_key(&keys[i], key) {
            out.push((keys[i].0.clone(), keys[i].1.clone()));
            assert(key_views(out@) =~= before.push(k));
            assert(before.to_set().insert(k) =~= ks.take(i as int).to_set().insert(k).remove(gone));
        } else {
            assert(before.to_set() =~= ks.take(i as int).to_set().insert(k).remove(gone));
        }
        i += 1;
    }
    assert(ks.take(n as int) =~= ks);
    out
}

proof fn lemma_set_of_pushed(s: Seq<(Seq<char>, Seq<char>)>, k: (Seq<char>, Seq<char>))
    ensures
        s.push(k).to_set() == s.to_set().insert(k),
{
    let t = s.push(k);
    assert forall|x: (Seq<char>, Seq<char>)| t.to_set().contains(x) == s.to_set().insert(k).contains(x) by {
        if s.contains(x) {
            let i = choose|i: int| 0 <= i < s.len() && s[i] == x;
            assert(t[i] == x);
        }
        assert(t[s.len() as int] == k);
    }
    assert(t.to_set() =~= s.to_set().insert(k));
}

// ---------------------------------------------------------------------------
// Laws
// ---------------------------------------------------------------------------

/// What may happen to an engine: a question is begun, or asking one ends with
/// an answer or without one.
pub enum Step {
    Begin((Seq<char>, Seq<char>)),
    End((Seq<char>, Seq<char>), Option<AnswersView>),
}

/// The engine after one step.
pub open spec fn stepped(e: EngineView, s: Step) -> EngineView {
    match s {
        Step::Begin(key) => begun(e, key),
        Step::End(key, said) => ended(e, key, said),
    }
}

/// The engine after steps, one after the other.
pub open spec fn after(e: EngineView, steps: Seq<Step>) -> EngineView
    decreases steps.len(),
{
    if steps.len() == 0 {
        e
    } else {
        stepped(after(e, steps.drop_last()), steps.last())
    }
}

/// Whether a step ends asking the question under `key`.
pub open spec fn ends(s: Step, key: (Seq<char>, Seq<char>)) -> bool {
    s matches Step::End(k, _) && k == key
}

/// With a cache, from where a question is to be asked to where asking it ends,
/// it is to be asked no second time, whatever is begun and ended meanwhile:
/// identical states are not sent twice even while the first is in flight.
pub proof fn asked_once_at_a_time(e: EngineView, key: (Seq<char>, Seq<char>), steps: Seq<Step>)
    requires
        e.cache is Some,
        beginning(e, key) is Ask,
        forall|i: int| 0 <= i < steps.len() ==> !ends(#[trigger] steps[i], key),
    ensures
        beginning(after(begun(e, key), steps), key) is Wait,
        after(begun(e, key), steps).cache is Some,
    decreases steps.len(),
{
    if steps.len() > 0 {
        asked_once_at_a_time(e, key, steps.drop_last());
        assert(!ends(steps[steps.len() - 1], key));
    }
}

/// With a cache, a state whose questions were answered is never sent again:
/// the answer is at hand, whatever is begun and ended afterwards.
pub proof fn answered_once_is_never_asked_again(
    e: EngineView,
    state: JsonTree,
    schema: Map<Seq<char>, SpecView>,
    a: AnswersView,
    steps: Seq<Step>,
)
    requires
        e.cache is Some,
    ensures
        ({
            let key = ask_key(state, schema);
            let answered = ended(e, key, Some(a));
            &&& beginning(answered, key) == Beginning::Cached(a)
            &&& after(answered, steps).cache is Some
            &&& beginning(after(answered, steps), key) is Cached
        }),
    decreases steps.len(),
{
    if steps.len() > 0 {
        answered_once_is_never_asked_again(e, state, schema, a, steps.drop_last());
    }
}

/// Where asking came to nothing, the question is to be asked the next time.
pub proof fn unanswered_is_asked_again(e: EngineView, key: (Seq<char>, Seq<char>))
    requires
        kept(e, key) is None,
    ensures
        beginning(ended(e, key, None), key) is Ask,
{
}

/// What ends for one question changes nothing about the others.
pub proof fn other_questions_stay(e: EngineView, key: (Seq<char>, Seq<char>), said: Option<AnswersView>, other: (Seq<char>, Seq<char>))
    requires
        key != other,
    ensures
        beginning(ended(e, key, said), other) == beginning(e, other),
{
}

/// Without a cache nothing is kept and nothing waits: every question is asked.
pub proof fn without_cache_all_are_asked(e: EngineView, steps: Seq<Step>, key: (Seq<char>, Seq<char>))
    requires
        e.cache is None,
    ensures
        after(e, steps).cache is None,
        beginning(after(e, steps), key) is Ask,
    decreases steps.len(),
{
    if steps.len() > 0 {
        without_cache_all_are_asked(e, steps.drop_last(), key);
    }
}

/// Beginning a question changes nothing but what is being asked, and ending one
/// nothing but that and what is kept; whether there is a cache, whether the
/// engine records and how many may be in flight stay.
pub proof fn steps_change_no_more_than_they_say(e: EngineView, key: (Seq<char>, Seq<char>), a: AnswersView)
    ensures
        begun(e, key).cache == e.cache,
        begun(e, key).asking == (if e.cache matches Some(c) && !c.contains_key(key) {
            e.asking.insert(key)
        } else {
            e.asking
        }),
        ended(e, key, None).cache == e.cache,
        ended(e, key, None).asking == e.asking.remove(key),
        ended(e, key, Some(a)).asking == e.asking.remove(key),
        match e.cache {
            Some(c) => ended(e, key, Some(a)).cache == Some(c.insert(key, a)),
            None => ended(e, key, Some(a)).cache is None,
        },
        forall|s: Step| (#[trigger] stepped(e, s)).recording == e.recording && stepped(e, s).concurrency == e.concurrency,
{
    assert(e.asking.contains(key) ==> e.asking.insert(key) =~= e.asking);
}

/// A question is answered from what is kept under its key, waits where a
/// backend is being asked it, and is asked otherwise.
pub proof fn questions_begin_by_what_is_known(e: EngineView, c: Map<(Seq<char>, Seq<char>), AnswersView>, key: (Seq<char>, Seq<char>))
    requires
        e.cache == Some(c),
    ensures
        c.contains_key(key) ==> beginning(e, key) == Beginning::Cached(c[key]),
        !c.contains_key(key) && e.asking.contains(key) ==> beginning(e, key) is Wait,
        !c.contains_key(key) && !e.asking.contains(key) ==> beginning(e, key) is Ask,
{
}

/// Keys are told apart by both hashes.
pub proof fn keys_are_both_hashes(keys: Seq<(String, String)>, i: int, state: JsonTree, schema: Map<Seq<char>, SpecView>)
    requires
        0 <= i < keys.len(),
    ensures
        key_views(keys).len() == keys.len(),
        key_views(keys)[i] == (keys[i].0@, keys[i].1@),
        ask_key(state, schema) == (tree_hash(state), schema_hash(schema)),
{
}

} // verus!
