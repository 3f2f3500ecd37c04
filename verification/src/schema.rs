//! Wire-level description of a set of questions.
//!
//! A [`QuestionSchema`] is what a backend receives. It has the shape of the
//! `questions` object of the official Jev API, so that a backend can send it
//! verbatim.
use vstd::prelude::*;
use vstd::string::*;

use crate::error::{Error, ErrorView};
use crate::hash::{hash_json, tree_hash};
use crate::json::{
    array_value, json_entries, json_tree, json_trees, no_entries, no_members, null_value, object_value, put_entry, string_value, JsonTree,
};
use crate::numeral::{decimal, decimal_of};
use crate::order::{strict_total, text_lt};
use crate::sorted_map::{rising, viewed, Copied, MapKey, SortedMap};
use crate::text::{string_of, strings};

verus! {

/// Maximum number of options a `choice` question may carry (API limit).
pub const MAX_CHOICE_OPTIONS: usize = 255;

/// Minimum number of levels of a `score` question (API limit).
pub const MIN_SCORE_LEVELS: usize = 2;

/// Maximum number of levels of a `score` question (API limit).
pub const MAX_SCORE_LEVELS: usize = 10;

/// One question, in the shape the API expects.
#[derive(Debug, Clone, PartialEq)]
pub enum QuestionSpec {
    /// A yes/no question. The answer is `P(yes)`.
    Noul {
        instructions: String,
        /// Optional explicit criteria for the `true` and `false` sides.
        criteria: Option<NoulCriteria>,
    },
    /// Pick one of up to 255 named options. The answer is a distribution
    /// over the option keys.
    Choice {
        instructions: String,
        /// `option_key -> optional description`, in the order given; the API
        /// accepts an object, which we build on send.
        criteria: Vec<(String, Option<String>)>,
    },
    /// An ordered scale with 2–10 described levels. The answer is a
    /// distribution over level indices plus the probability-weighted score.
    Score {
        instructions: String,
        /// Level descriptions, index 0 = lowest.
        criteria: Vec<String>,
    },
}

/// Explicit descriptions of what counts as `true` / `false` for a `noul`.
#[derive(Debug, Clone, PartialEq)]
pub struct NoulCriteria {
    pub yes: String,
    pub no: String,
}

/// What a question asks.
#[verifier::ext_equal]
pub enum SpecView {
    Noul { instructions: Seq<char>, criteria: Option<(Seq<char>, Seq<char>)> },
    Choice { instructions: Seq<char>, criteria: Seq<(Seq<char>, Option<Seq<char>>)> },
    Score { instructions: Seq<char>, criteria: Seq<Seq<char>> },
}

/// An optional text.
pub open spec fn opt_text(s: Option<String>) -> Option<Seq<char>> {
    match s {
        Some(t) => Some(t@),
        None => None,
    }
}

/// The options of a choice: each key with its description.
pub open spec fn options_view(v: Seq<(String, Option<String>)>) -> Seq<(Seq<char>, Option<Seq<char>>)> {
    v.map_values(|o: (String, Option<String>)| (o.0@, opt_text(o.1)))
}

impl View for QuestionSpec {
    type V = SpecView;

    open spec fn view(&self) -> SpecView {
        match self {
            QuestionSpec::Noul { instructions, criteria } => SpecView::Noul {
                instructions: instructions@,
                criteria: match criteria {
                    Some(c) => Some((c.yes@, c.no@)),
                    None => None,
                },
            },
            QuestionSpec::Choice { instructions, criteria } => SpecView::Choice {
                instructions: instructions@,
                criteria: options_view(criteria@),
            },
            QuestionSpec::Score { instructions, criteria } => SpecView::Score { instructions: instructions@, criteria: strings(criteria@) },
        }
    }
}

/// What is wrong with a question named `name`, by the limits of the API.
pub open spec fn spec_fault(name: Seq<char>, q: SpecView) -> Option<Seq<char>> {
    match q {
        SpecView::Noul { .. } => None,
        SpecView::Choice { criteria, .. } => if criteria.len() == 0 {
            Some("choice `"@ + name + "` has no options"@)
        } else if criteria.len() > MAX_CHOICE_OPTIONS {
            Some("choice `"@ + name + "` has "@ + decimal(criteria.len()) + " options, max is 255"@)
        } else {
            None
        },
        SpecView::Score { criteria, .. } => if MIN_SCORE_LEVELS <= criteria.len() <= MAX_SCORE_LEVELS {
            None
        } else {
            Some("score `"@ + name + "` has "@ + decimal(criteria.len()) + " levels, must be 2..=10"@)
        },
    }
}

/// An optional text as JSON: `null` where there is none.
pub open spec fn opt_tree(s: Option<Seq<char>>) -> JsonTree {
    match s {
        Some(t) => JsonTree::Str(t),
        None => JsonTree::Null,
    }
}

/// The options as a JSON object; of two with the same key the later stays.
pub open spec fn options_object(v: Seq<(Seq<char>, Option<Seq<char>>)>) -> Map<Seq<char>, JsonTree>
    decreases v.len(),
{
    if v.len() == 0 {
        no_members()
    } else {
        options_object(v.drop_last()).insert(v.last().0, opt_tree(v.last().1))
    }
}

/// Texts as a JSON array.
pub open spec fn text_array(v: Seq<Seq<char>>) -> JsonTree {
    JsonTree::Arr(v.map_values(|t: Seq<char>| JsonTree::Str(t)))
}

/// A question's type and instructions.
pub open spec fn question_head(kind: Seq<char>, instructions: Seq<char>) -> Map<Seq<char>, JsonTree> {
    no_members().insert("type"@, JsonTree::Str(kind)).insert("instructions"@, JsonTree::Str(instructions))
}

/// The JSON the API expects for a question.
pub open spec fn spec_tree(q: SpecView) -> JsonTree {
    match q {
        SpecView::Noul { instructions, criteria } => {
            let head = question_head("noul"@, instructions);
            JsonTree::Obj(
                match criteria {
                    Some((yes, no)) => head.insert(
                        "criteria"@,
                        JsonTree::Obj(no_members().insert("true"@, JsonTree::Str(yes)).insert("false"@, JsonTree::Str(no))),
                    ),
                    None => head,
                },
            )
        },
        SpecView::Choice { instructions, criteria } => JsonTree::Obj(
            question_head("choice"@, instructions).insert("criteria"@, JsonTree::Obj(options_object(criteria))),
        ),
        SpecView::Score { instructions, criteria } => JsonTree::Obj(
            question_head("score"@, instructions).insert("criteria"@, text_array(criteria)),
        ),
    }
}

/// An array of texts as a JSON value.
pub(crate) fn text_array_value(v: &Vec<String>) -> (r: serde_json::Value)
    ensures
        json_tree(r) == text_array(strings(v@)),
{
    let ghost want = strings(v@).map_values(|t: Seq<char>| JsonTree::Str(t));
    let n = v.len();
    let mut items: Vec<serde_json::Value> = Vec::new();
    let mut i: usize = 0;
    assert(json_trees(items@) =~= want.take(0));
    while i < n
        invariant
            i <= n == v@.len(),
            want == strings(v@).map_values(|t: Seq<char>| JsonTree::Str(t)),
            json_trees(items@) == want.take(i as int),
        decreases n - i,
    {
        let ghost before = json_trees(items@);
        let item = string_value(v[i].as_str());
        assert(want[i as int] == json_tree(item));
        items.push(item);
        assert(json_trees(items@) =~= before.push(want[i as int]));
        assert(before.push(want[i as int]) =~= want.take(i + 1));
        i += 1;
    }
    assert(want.take(n as int) =~= want);
    array_value(items)
}

fn head_entries(kind: &str, instructions: &str) -> (r: serde_json::Map<String, serde_json::Value>)
    ensures
        json_entries(r) == question_head(kind@, instructions@),
{
    let mut m = no_entries();
    put_entry(&mut m, "type".to_owned(), string_value(kind));
    put_entry(&mut m, "instructions".to_owned(), string_value(instructions));
    m
}

impl QuestionSpec {
    /// Validate API limits before sending.
    pub fn validate(&self, name: &str) -> (r: Result<(), Error>)
        ensures
            match spec_fault(name@, self@) {
                None => r is Ok,
                Some(m) => r matches Err(e) && e@ == ErrorView::InvalidSchema(m),
            },
    {
        match self {
            QuestionSpec::Noul { .. } => Ok(()),
            QuestionSpec::Choice { criteria, .. } => {
                if criteria.len() == 0 {
                    let mut m = "choice `".to_owned();
                    m.push_str(name);
                    m.push_str("` has no options");
                    return Err(Error::InvalidSchema(m));
                }
                if criteria.len() > MAX_CHOICE_OPTIONS {
                    let mut m = "choice `".to_owned();
                    m.push_str(name);
                    m.push_str("` has ");
                    m.push_str(string_of(decimal_of(criteria.len() as u128).as_slice()).as_str());
                    m.push_str(" options, max is 255");
                    return Err(Error::InvalidSchema(m));
                }
                Ok(())
            },
            QuestionSpec::Score { criteria, .. } => {
                if criteria.len() < MIN_SCORE_LEVELS || criteria.len() > MAX_SCORE_LEVELS {
                    let mut m = "score `".to_owned();
                    m.push_str(name);
                    m.push_str("` has ");
                    m.push_str(string_of(decimal_of(criteria.len() as u128).as_slice()).as_str());
                    m.push_str(" levels, must be 2..=10");
                    return Err(Error::InvalidSchema(m));
                }
                Ok(())
            },
        }
    }

    /// The JSON the API expects for this question (choice criteria become an
    /// object keyed by option).
    pub fn to_api_json(&self) -> (r: serde_json::Value)
        ensures
            json_tree(r) == spec_tree(self@),
    {
        match self {
            QuestionSpec::Noul { instructions, criteria } => {
                let mut m = head_entries("noul", instructions.as_str());
                match criteria {
                    Some(c) => {
                        let mut sides = no_entries();
                        put_entry(&mut sides, "true".to_owned(), string_value(c.yes.as_str()));
                        put_entry(&mut sides, "false".to_owned(), string_value(c.no.as_str()));
                        put_entry(&mut m, "criteria".to_owned(), object_value(sides));
                    },
                    None => {},
                }
                object_value(m)
            },
            QuestionSpec::Choice { instructions, criteria } => {
                let ghost os = options_view(criteria@);
                let mut opts = no_entries();
                let n = criteria.len();
                let mut i: usize = 0;
                assert(os.take(0) =~= seq![]);
                while i < n
                    invariant
                        i <= n == criteria@.len(),
                        os == options_view(criteria@),
                        json_entries(opts) == options_object(os.take(i as int)),
                    decreases n - i,
                {
                    assert(os.take(i + 1).drop_last() =~= os.take(i as int));
                    assert(os.take(i + 1).last() == os[i as int]);
                    let description = match &criteria[i].1 {
                        Some(d) => string_value(d.as_str()),
                        None => null_value(),
                    };
                    put_entry(&mut opts, criteria[i].0.clone(), description);
                    i += 1;
                }
                assert(os.take(n as int) =~= os);
                let mut m = head_entries("choice", instructions.as_str());
                put_entry(&mut m, "criteria".to_owned(), object_value(opts));
                object_value(m)
            },
            QuestionSpec::Score { instructions, criteria } => {
                let mut m = head_entries("score", instructions.as_str());
                put_entry(&mut m, "criteria".to_owned(), text_array_value(criteria));
                object_value(m)
            },
        }
    }
}

fn copy_strings(v: &Vec<String>) -> (r: Vec<String>)
    ensures
        strings(r@) == strings(v@),
{
    let n = v.len();
    let mut out: Vec<String> = Vec::new();
    let mut i: usize = 0;
    while i < n
        invariant
            i <= n == v@.len(),
            out@ == v@.take(i as int),
        decreases n - i,
    {
        out.push(v[i].clone());
        assert(out@ =~= v@.take(i + 1));
        i += 1;
    }
    assert(v@.take(n as int) =~= v@);
    out
}

/// The same options once more.
pub(crate) fn copy_options(v: &Vec<(String, Option<String>)>) -> (r: Vec<(String, Option<String>)>)
    ensures
        options_view(r@) == options_view(v@),
{
    let n = v.len();
    let mut out: Vec<(String, Option<String>)> = Vec::new();
    let mut i: usize = 0;
    while i < n
        invariant
            i <= n == v@.len(),
            out@ == v@.take(i as int),
        decreases n - i,
    {
        let d = match &v[i].1 {
            Some(t) => Some(t.clone()),
            None => None,
        };
        out.push((v[i].0.clone(), d));
        assert(out@ =~= v@.take(i + 1));
        i += 1;
    }
    assert(v@.take(n as int) =~= v@);
    out
}

impl Copied for QuestionSpec {
    fn copied(&self) -> (r: Self) {
        match self {
            QuestionSpec::Noul { instructions, criteria } => QuestionSpec::Noul {
                instructions: instructions.clone(),
                criteria: match criteria {
                    Some(c) => Some(NoulCriteria { yes: c.yes.clone(), no: c.no.clone() }),
                    None => None,
                },
            },
            QuestionSpec::Choice { instructions, criteria } => QuestionSpec::Choice {
                instructions: instructions.clone(),
                criteria: copy_options(criteria),
            },
            QuestionSpec::Score { instructions, criteria } => QuestionSpec::Score {
                instructions: instructions.clone(),
                criteria: copy_strings(criteria),
            },
        }
    }
}

/// An ordered set of named questions asked against one state.
///
/// Questions are evaluated *in parallel* by the backend, so asking ten costs
/// about the same as asking one.
#[derive(Debug, PartialEq)]
pub struct QuestionSchema {
    /// `question_name -> spec`, in name order, which keeps the schema hash
    /// (used for caching and replay) deterministic.
    pub questions: SortedMap<String, QuestionSpec>,
}

impl View for QuestionSchema {
    type V = Map<Seq<char>, SpecView>;

    /// What is asked under each name.
    open spec fn view(&self) -> Map<Seq<char>, SpecView> {
        viewed(self.questions@)
    }
}

/// The first question, by name, that breaks a limit.
pub open spec fn first_fault(m: Map<Seq<char>, SpecView>, name: Seq<char>) -> bool {
    &&& m.contains_key(name)
    &&& spec_fault(name, m[name]) is Some
    &&& forall|k: Seq<char>| #[trigger] m.contains_key(k) && spec_fault(k, m[k]) is Some ==> k == name || text_lt()(name, k)
}

/// A schema that can be sent: it asks something, and each question keeps the limits.
pub open spec fn schema_valid(m: Map<Seq<char>, SpecView>) -> bool {
    &&& m.len() > 0
    &&& forall|k: Seq<char>| #[trigger] m.contains_key(k) ==> spec_fault(k, m[k]) is None
}

/// `e` is the error for a schema that cannot be sent: it says that nothing is
/// asked, or what is wrong with the first question that breaks a limit.
pub open spec fn schema_refused(m: Map<Seq<char>, SpecView>, e: ErrorView) -> bool {
    if m.len() == 0 {
        e == ErrorView::InvalidSchema("schema has no questions"@)
    } else {
        exists|name: Seq<char>| #[trigger] first_fault(m, name) && e == ErrorView::InvalidSchema(spec_fault(name, m[name])->0)
    }
}

/// The `questions` object as the API expects it.
pub open spec fn schema_tree(m: Map<Seq<char>, SpecView>) -> JsonTree {
    JsonTree::Obj(m.map_values(|q: SpecView| spec_tree(q)))
}

/// The content hash of a schema.
pub open spec fn schema_hash(m: Map<Seq<char>, SpecView>) -> Seq<char> {
    tree_hash(schema_tree(m))
}

impl Default for QuestionSchema {
    fn default() -> (r: Self)
        ensures
            r@ == Map::<Seq<char>, SpecView>::empty(),
    {
        let r = QuestionSchema { questions: SortedMap::new() };
        assert(r@ =~= Map::<Seq<char>, SpecView>::empty());
        r
    }
}

impl QuestionSchema {
    pub fn new() -> (r: Self)
        ensures
            r@ == Map::<Seq<char>, SpecView>::empty(),
    {
        Self::default()
    }

    /// Builder-style insert.
    pub fn with(self, name: &str, spec: QuestionSpec) -> (r: Self)
        ensures
            r@ == self@.insert(name@, spec@),
    {
        let mut out = self;
        out.insert(name, spec);
        out
    }

    pub fn insert(&mut self, name: &str, spec: QuestionSpec)
        ensures
            final(self)@ == old(self)@.insert(name@, spec@),
    {
        self.questions.insert(name.to_owned(), spec);
        assert(self@ =~= old(self)@.insert(name@, spec@));
    }

    pub fn len(&self) -> (r: usize)
        ensures
            r == self@.len(),
    {
        proof {
            assert(self@.dom() =~= self.questions@.dom());
        }
        self.questions.len()
    }

    pub fn is_empty(&self) -> (r: bool)
        ensures
            r == (self@.len() == 0),
    {
        self.len() == 0
    }

    /// Validate every question against API limits.
    pub fn validate(&self) -> (r: Result<(), Error>)
        ensures
            match r {
                Ok(_) => schema_valid(self@),
                Err(e) => schema_refused(self@, e@),
            },
    {
        if self.is_empty() {
            return Err(Error::InvalidSchema("schema has no questions".to_owned()));
        }
        proof {
            use_type_invariant(&self.questions);
            self.questions.items_and_map();
            <String as MapKey>::ids_are_ordered();
        }
        let ghost items = self.questions.items();
        let n = self.questions.len();
        let mut i: usize = 0;
        while i < n
            invariant
                i <= n == items.len(),
                self@.len() > 0,
                items == self.questions.items(),
                strict_total(text_lt()),
                rising(items, text_lt()),
                forall|j: int| 0 <= j < items.len() ==> self.questions@.contains_pair(#[trigger] items[j].0, items[j].1),
                forall|k: Seq<char>| #[trigger] self.questions@.contains_key(k) ==> exists|j: int| 0 <= j < items.len() && #[trigger] items[j].0 == k,
                forall|j: int| 0 <= j < i ==> spec_fault(#[trigger] items[j].0, items[j].1@) is None,
            decreases n - i,
        {
            let name = self.questions.key_at(i);
            let q = self.questions.value_at(i);
            assert(self.questions@.contains_pair(items[i as int].0, items[i as int].1));
            match q.validate(name.as_str()) {
                Ok(_) => {},
                Err(e) => {
                    proof {
                        let bad = items[i as int].0;
                        assert(self@.contains_key(bad) && self@[bad] == q@);
                        assert forall|k: Seq<char>| #[trigger] self@.contains_key(k) && spec_fault(k, self@[k]) is Some implies k == bad
                            || text_lt()(bad, k) by {
                            assert(self.questions@.contains_key(k));
                            let j = choose|j: int| 0 <= j < items.len() && #[trigger] items[j].0 == k;
                            assert(self.questions@.contains_pair(items[j].0, items[j].1));
                            if j > i {
                                assert(text_lt()(items[i as int].0, items[j].0));
                            }
                        }
                        assert(first_fault(self@, bad));
                    }
                    return Err(e);
                },
            }
            i += 1;
        }
        proof {
            assert forall|k: Seq<char>| #[trigger] self@.contains_key(k) implies spec_fault(k, self@[k]) is None by {
                assert(self.questions@.contains_key(k));
                let j = choose|j: int| 0 <= j < items.len() && #[trigger] items[j].0 == k;
                assert(self.questions@.contains_pair(items[j].0, items[j].1));
            }
        }
        Ok(())
    }

    /// The `questions` object as the API expects it.
    pub fn to_api_json(&self) -> (r: serde_json::Value)
        ensures
            json_tree(r) == schema_tree(self@),
    {
        proof {
            use_type_invariant(&self.questions);
            self.questions.items_and_map();
        }
        let ghost items = self.questions.items();
        let ghost want = self@.map_values(|q: SpecView| spec_tree(q));
        let mut m = no_entries();
        let n = self.questions.len();
        let mut i: usize = 0;
        while i < n
            invariant
                i <= n == items.len(),
                items == self.questions.items(),
                want == self@.map_values(|q: SpecView| spec_tree(q)),
                forall|j: int| 0 <= j < items.len() ==> self.questions@.contains_pair(#[trigger] items[j].0, items[j].1),
                forall|k: Seq<char>| #[trigger] json_entries(m).contains_key(k) ==> want.contains_key(k) && json_entries(m)[k] == want[k],
                forall|j: int| 0 <= j < i ==> json_entries(m).contains_key(#[trigger] items[j].0),
            decreases n - i,
        {
            assert(self.questions@.contains_pair(items[i as int].0, items[i as int].1));
            assert(self@.contains_key(items[i as int].0));
            put_entry(&mut m, self.questions.key_at(i).clone(), self.questions.value_at(i).to_api_json());
            i += 1;
        }
        proof {
            assert forall|k: Seq<char>| #[trigger] want.contains_key(k) implies json_entries(m).contains_key(k) by {
                assert(self.questions@.contains_key(k));
                let j = choose|j: int| 0 <= j < items.len() && #[trigger] items[j].0 == k;
                assert(json_entries(m).contains_key(items[j].0));
            }
            assert(json_entries(m) =~= want);
        }
        object_value(m)
    }

    /// Stable content hash of the schema (hex SHA-256 of canonical JSON).
    pub fn hash(&self) -> (r: String)
        ensures
            r@ == schema_hash(self@),
            r@.len() == 64,
    {
        hash_json(&self.to_api_json())
    }
}

impl Copied for QuestionSchema {
    fn copied(&self) -> (r: Self) {
        let r = QuestionSchema { questions: self.questions.copied() };
        r
    }
}

// ---------------------------------------------------------------------------
// Laws
// ---------------------------------------------------------------------------

/// The order in which questions are put in does not matter: neither for what
/// is sent nor for the hash.
pub proof fn insertion_order_is_irrelevant(m: Map<Seq<char>, SpecView>, a: Seq<char>, x: SpecView, b: Seq<char>, y: SpecView)
    requires
        a != b,
    ensures
        schema_tree(m.insert(a, x).insert(b, y)) == schema_tree(m.insert(b, y).insert(a, x)),
        schema_hash(m.insert(a, x).insert(b, y)) == schema_hash(m.insert(b, y).insert(a, x)),
{
    assert(m.insert(a, x).insert(b, y) =~= m.insert(b, y).insert(a, x));
}

/// A schema is never both valid and refused.
pub proof fn refused_is_not_valid(m: Map<Seq<char>, SpecView>, e: ErrorView)
    requires
        schema_refused(m, e),
    ensures
        !schema_valid(m),
{
    if m.len() > 0 {
        let name = choose|name: Seq<char>| #[trigger] first_fault(m, name) && e == ErrorView::InvalidSchema(spec_fault(name, m[name])->0);
        assert(m.contains_key(name));
    }
}

/// A question put in under a name already taken stands in place of the one
/// that was there.
pub proof fn later_question_replaces(m: Map<Seq<char>, SpecView>, a: Seq<char>, x: SpecView, y: SpecView)
    ensures
        m.insert(a, x).insert(a, y) == m.insert(a, y),
{
    assert(m.insert(a, x).insert(a, y) =~= m.insert(a, y));
}

/// Adding a question that keeps the limits to a valid schema leaves it valid.
pub proof fn valid_question_keeps_schema_valid(m: Map<Seq<char>, SpecView>, a: Seq<char>, x: SpecView)
    requires
        m.dom().finite(),
        schema_valid(m),
        spec_fault(a, x) is None,
    ensures
        schema_valid(m.insert(a, x)),
{
    assert forall|k: Seq<char>| #[trigger] m.insert(a, x).contains_key(k) implies spec_fault(k, m.insert(a, x)[k]) is None by {
        if k != a {
            assert(m.contains_key(k));
        }
    }
    if !m.contains_key(a) {
        assert(m.insert(a, x).dom() =~= m.dom().insert(a));
    } else {
        assert(m.insert(a, x).dom() =~= m.dom());
    }
}

/// What a question asks is all that it holds: its instructions, both sides of
/// a yes or no, every option with its description, every level; each at its
/// place.
pub proof fn questions_are_seen_whole(
    instructions: String,
    sides: Option<NoulCriteria>,
    options: Vec<(String, Option<String>)>,
    levels: Vec<String>,
)
    ensures
        (QuestionSpec::Noul { instructions, criteria: sides })@ matches SpecView::Noul { instructions: i, criteria } && i == instructions@
            && (match sides {
            Some(s) => criteria == Some((s.yes@, s.no@)),
            None => criteria is None,
        }),
        (QuestionSpec::Choice { instructions, criteria: options })@ matches SpecView::Choice { instructions: i, criteria } && i == instructions@
            && criteria.len() == options@.len() && forall|j: int|
            0 <= j < options@.len() ==> (#[trigger] criteria[j]).0 == options@[j].0@ && (match options@[j].1 {
                Some(d) => criteria[j].1 == Some(d@),
                None => criteria[j].1 is None,
            }),
        (QuestionSpec::Score { instructions, criteria: levels })@ matches SpecView::Score { instructions: i, criteria } && i == instructions@
            && criteria.len() == levels@.len() && forall|j: int| 0 <= j < levels@.len() ==> #[trigger] criteria[j] == levels@[j]@,
{
}

/// A question keeps the limits of the API: 1 to 255 options, 2 to 10 levels,
/// a yes or no always. The message names the question and how many it has.
pub proof fn limits_are_kept(
    name: Seq<char>,
    instructions: Seq<char>,
    sides: Option<(Seq<char>, Seq<char>)>,
    options: Seq<(Seq<char>, Option<Seq<char>>)>,
    levels: Seq<Seq<char>>,
)
    ensures
        spec_fault(name, SpecView::Noul { instructions, criteria: sides }) is None,
        spec_fault(name, SpecView::Choice { instructions, criteria: options }) is None <==> 1 <= options.len() <= 255,
        options.len() == 0 ==> spec_fault(name, SpecView::Choice { instructions, criteria: options }) == Some(
            "choice `"@ + name + "` has no options"@,
        ),
        options.len() > 255 ==> spec_fault(name, SpecView::Choice { instructions, criteria: options }) == Some(
            "choice `"@ + name + "` has "@ + decimal(options.len()) + " options, max is 255"@,
        ),
        spec_fault(name, SpecView::Score { instructions, criteria: levels }) is None <==> 2 <= levels.len() <= 10,
        !(2 <= levels.len() <= 10) ==> spec_fault(name, SpecView::Score { instructions, criteria: levels }) == Some(
            "score `"@ + name + "` has "@ + decimal(levels.len()) + " levels, must be 2..=10"@,
        ),
        MAX_CHOICE_OPTIONS == 255 && MIN_SCORE_LEVELS == 2 && MAX_SCORE_LEVELS == 10,
{
}

/// A schema can be sent if it asks something and every question of it keeps
/// the limits. One that cannot be sent says that it is empty, or what is wrong
/// with the question whose name comes first among those that break a limit.
pub proof fn schemas_are_held_to_the_limits(m: Map<Seq<char>, SpecView>, name: Seq<char>, e: ErrorView)
    ensures
        schema_valid(m) <==> m.len() > 0 && forall|k: Seq<char>| #[trigger] m.contains_key(k) ==> spec_fault(k, m[k]) is None,
        m.len() == 0 ==> (schema_refused(m, e) <==> e == ErrorView::InvalidSchema("schema has no questions"@)),
        m.len() > 0 && m.contains_key(name) && spec_fault(name, m[name]) is Some && (forall|k: Seq<char>|
            #[trigger] m.contains_key(k) && k != name && spec_fault(k, m[k]) is Some ==> text_lt()(name, k)) && schema_refused(m, e)
            ==> e == ErrorView::InvalidSchema(spec_fault(name, m[name])->0),
{
    if m.len() > 0 && m.contains_key(name) && spec_fault(name, m[name]) is Some && (forall|k: Seq<char>|
        #[trigger] m.contains_key(k) && k != name && spec_fault(k, m[k]) is Some ==> text_lt()(name, k)) && schema_refused(m, e) {
        let other = choose|other: Seq<char>| #[trigger] first_fault(m, other) && e == ErrorView::InvalidSchema(spec_fault(other, m[other])->0);
        <String as MapKey>::ids_are_ordered();
        if other != name {
            assert(m.contains_key(other));
            assert(text_lt()(name, other));
            assert(text_lt()(other, name));
        }
    }
}

/// A question is sent as an object of its type, its instructions and its
/// criteria, and of nothing else: the two sides of a yes or no where they are
/// described, an object of every option with its description, of two alike the
/// later, or the list of levels in order.
pub proof fn questions_are_sent_whole(
    instructions: Seq<char>,
    yes: Seq<char>,
    no: Seq<char>,
    options: Seq<(Seq<char>, Option<Seq<char>>)>,
    levels: Seq<Seq<char>>,
    more: Seq<(Seq<char>, Option<Seq<char>>)>,
    key: Seq<char>,
    description: Option<Seq<char>>,
)
    ensures
        spec_tree(SpecView::Noul { instructions, criteria: None }) == JsonTree::Obj(
            map!["type"@ => JsonTree::Str("noul"@), "instructions"@ => JsonTree::Str(instructions)],
        ),
        spec_tree(SpecView::Noul { instructions, criteria: Some((yes, no)) }) == JsonTree::Obj(
            map!["type"@ => JsonTree::Str("noul"@), "instructions"@ => JsonTree::Str(instructions), "criteria"@ => JsonTree::Obj(
                    map!["true"@ => JsonTree::Str(yes), "false"@ => JsonTree::Str(no)],
                )],
        ),
        spec_tree(SpecView::Choice { instructions, criteria: options }) == JsonTree::Obj(
            map!["type"@ => JsonTree::Str("choice"@), "instructions"@ => JsonTree::Str(instructions), "criteria"@ => JsonTree::Obj(
                    options_object(options),
                )],
        ),
        spec_tree(SpecView::Score { instructions, criteria: levels }) == JsonTree::Obj(
            map!["type"@ => JsonTree::Str("score"@), "instructions"@ => JsonTree::Str(instructions), "criteria"@ => JsonTree::Arr(
                    Seq::new(levels.len(), |i: int| JsonTree::Str(levels[i])),
                )],
        ),
        options_object(options + more) == options_object(options).union_prefer_right(options_object(more)),
        options_object(seq![(key, Some(yes))]) == map![key => JsonTree::Str(yes)],
        options_object(seq![(key, None)]) == map![key => JsonTree::Null],
{
    lemma_options_object(options, more);
    reveal_with_fuel(options_object, 2);
    assert(seq![(key, Some(yes))].drop_last() =~= seq![]);
    assert(seq![(key, None::<Seq<char>>)].drop_last() =~= seq![]);
    assert(text_array(levels)->Arr_0 =~= Seq::new(levels.len(), |i: int| JsonTree::Str(levels[i])));
    assert(question_head("noul"@, instructions) =~= map!["type"@ => JsonTree::Str("noul"@), "instructions"@ => JsonTree::Str(instructions)]);
}

proof fn lemma_options_object(a: Seq<(Seq<char>, Option<Seq<char>>)>, b: Seq<(Seq<char>, Option<Seq<char>>)>)
    ensures
        options_object(a + b) == options_object(a).union_prefer_right(options_object(b)),
    decreases b.len(),
{
    if b.len() == 0 {
        assert(a + b =~= a);
        assert(options_object(b) =~= Map::<Seq<char>, JsonTree>::empty());
        assert(options_object(a).union_prefer_right(options_object(b)) =~= options_object(a));
    } else {
        assert((a + b).drop_last() =~= a + b.drop_last());
        assert((a + b).last() == b.last());
        lemma_options_object(a, b.drop_last());
        assert(options_object(a + b) =~= options_object(a).union_prefer_right(options_object(b)));
    }
}

/// A schema is sent as an object with each question under its name, and its
/// hash is that of what is sent.
pub proof fn schemas_are_sent_whole(m: Map<Seq<char>, SpecView>, name: Seq<char>)
    ensures
        schema_tree(m) matches JsonTree::Obj(o) && o.contains_key(name) == m.contains_key(name) && (m.contains_key(name) ==> o[name]
            == spec_tree(m[name])),
        schema_hash(m) == tree_hash(schema_tree(m)),
{
}

} // verus!
