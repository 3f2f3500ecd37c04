//! Deterministic backend for tests and offline development.
use vstd::prelude::*;
use vstd::string::*;

use crate::answer::{levels_filled, wire_entries, RawAnswer, RawAnswers, RawView, Usage};
use crate::backend::answers::{number_labels, number_levels, numbered, numbered_levels_decode};
use crate::binary64::{half, Binary64, HALF_BITS};
use crate::error::Error;
use crate::schema::{options_view, schema_refused, schema_valid, QuestionSchema, QuestionSpec, SpecView};
use crate::sorted_map::{viewed, SortedMap};
use crate::text::strings;
use crate::traits::{lemma_first_is_with_key, with_key, AsChoice};

verus! {

/// What an even distribution over the options of a question comes to: the
/// share of each option, one over their number, and the level in the middle
/// of the scale, half of one less than their number.
#[derive(Debug, Clone, Copy, PartialEq, Eq, Structural)]
pub struct Even {
    pub share: Binary64,
    pub middle: Binary64,
}

/// A backend that answers from a rule, or with a uniform distribution when
/// the rule is silent.
#[derive(Debug, Clone)]
pub struct Mock {
    pub id: String,
}

/// Every option with the same share.
pub open spec fn evenly(options: Seq<(Seq<char>, Option<Seq<char>>)>, share: Binary64) -> Map<Seq<char>, Binary64>
    decreases options.len(),
{
    if options.len() == 0 {
        Map::empty()
    } else {
        evenly(options.drop_last(), share).insert(options.last().0, share)
    }
}

/// The uniform answer to a question.
pub open spec fn uniform_view(q: SpecView, even: Even) -> RawView {
    match q {
        SpecView::Noul { .. } => RawView::Noul { noul: half(), confidence: None },
        SpecView::Choice { criteria, .. } => RawView::Choice {
            choice: criteria[0].0,
            probabilities: evenly(criteria, even.share),
            confidence: even.share,
        },
        SpecView::Score { criteria, .. } => RawView::Score {
            score: even.middle,
            legend: numbered(criteria),
            probabilities: numbered(Seq::new(criteria.len(), |i: int| even.share)),
            confidence: even.share,
        },
    }
}

/// The answer of the rule where it has one, else the uniform one.
pub open spec fn mock_view(given: Option<RawAnswer>, q: SpecView, even: Even) -> RawView {
    match given {
        Some(a) => a@,
        None => uniform_view(q, even),
    }
}

impl Mock {
    /// Uniform probabilities for every question — enough to exercise
    /// schemas, decoding and control flow.
    pub fn uniform() -> (r: Self)
        ensures
            r.id@ == "mock:uniform"@,
    {
        Mock { id: "mock:uniform".to_owned() }
    }

    /// Answers from a rule. Questions the rule does not answer fall back to
    /// uniform.
    pub fn with_rule() -> (r: Self)
        ensures
            r.id@ == "mock:rule"@,
    {
        Mock { id: "mock:rule".to_owned() }
    }

    pub fn with_id(self, id: &str) -> (r: Self)
        ensures
            r.id@ == id@,
    {
        Mock { id: id.to_owned() }
    }

    /// Uniform answer for a spec. Public so custom rules can fall back to it.
    pub fn uniform_answer(spec: &QuestionSpec, even: Even) -> (r: RawAnswer)
        requires
            spec@ matches SpecView::Choice { criteria, .. } ==> criteria.len() > 0,
        ensures
            r@ == uniform_view(spec@, even),
    {
        match spec {
            QuestionSpec::Noul { .. } => RawAnswer::Noul { noul: Binary64 { bits: HALF_BITS }, confidence: None },
            QuestionSpec::Choice { criteria, .. } => {
                let ghost os = options_view(criteria@);
                let n = criteria.len();
                let mut probabilities: SortedMap<String, Binary64> = SortedMap::new();
                let mut i: usize = 0;
                assert(os.take(0) =~= seq![]);
                while i < n
                    invariant
                        i <= n == criteria@.len(),
                        os == options_view(criteria@),
                        probabilities@ == evenly(os.take(i as int), even.share),
                    decreases n - i,
                {
                    assert(os.take(i + 1).drop_last() =~= os.take(i as int));
                    assert(os.take(i + 1).last() == os[i as int]);
                    probabilities.insert(criteria[i].0.clone(), even.share);
                    i += 1;
                }
                assert(os.take(n as int) =~= os);
                assert(viewed(probabilities@) =~= probabilities@);
                RawAnswer::Choice { choice: criteria[0].0.clone(), probabilities, confidence: even.share }
            },
            QuestionSpec::Score { criteria, .. } => {
                let n = criteria.len();
                let mut shares: Vec<Binary64> = Vec::new();
                let mut i: usize = 0;
                while i < n
                    invariant
                        i <= n,
                        shares@ == Seq::new(i as nat, |j: int| even.share),
                    decreases n - i,
                {
                    shares.push(even.share);
                    assert(shares@ =~= Seq::new((i + 1) as nat, |j: int| even.share));
                    i += 1;
                }
                assert(shares@ =~= Seq::new(strings(criteria@).len(), |j: int| even.share));
                let probabilities = number_levels(&shares);
                assert(viewed(probabilities@) =~= probabilities@);
                RawAnswer::Score { score: even.middle, legend: number_labels(criteria), probabilities, confidence: even.share }
            },
        }
    }

    /// Answer every question of `schema`. `given` holds what the rule said to
    /// each question, in name order, and `even` what an even distribution
    /// over its options comes to.
    pub fn decide(&self, schema: &QuestionSchema, given: Vec<Option<RawAnswer>>, even: &Vec<Even>) -> (r: Result<RawAnswers, Error>)
        requires
            given@.len() == schema.questions.items().len(),
            even@.len() == schema.questions.items().len(),
        ensures
            match r {
                Err(e) => schema_refused(schema@, e@),
                Ok(a) => {
                    &&& schema_valid(schema@)
                    &&& a.model@ == self.id@
                    &&& a.usage == (Usage { input_tokens: 0, output_tokens: 0 })
                    &&& a@.answers.dom() == schema@.dom()
                    &&& forall|i: int|
                        0 <= i < schema.questions.items().len() ==> a@.answers[(#[trigger] schema.questions.items()[i]).0] == mock_view(
                            given@[i],
                            schema.questions.items()[i].1@,
                            even@[i],
                        )
                },
            },
    {
        match schema.validate() {
            Ok(_) => {},
            Err(e) => {
                return Err(e);
            },
        }
        proof {
            use_type_invariant(&schema.questions);
            schema.questions.items_and_map();
        }
        let ghost items = schema.questions.items();
        let ghost all = given@;
        let n = schema.questions.len();
        let mut given = given;
        let mut answers: SortedMap<String, RawAnswer> = SortedMap::new();
        let mut i: usize = 0;
        while i < n
            invariant
                i <= n == items.len(),
                items == schema.questions.items(),
                schema_valid(schema@),
                all.len() == n,
                given@ == all.skip(i as int),
                even@.len() == n,
                forall|j: int| 0 <= j < items.len() ==> schema.questions@.contains_pair(#[trigger] items[j].0, items[j].1),
                forall|x: int, y: int| 0 <= x < y < items.len() ==> #[trigger] items[x].0 != #[trigger] items[y].0,
                forall|k: Seq<char>| #[trigger] answers@.contains_key(k) ==> exists|j: int| 0 <= j < i && #[trigger] items[j].0 == k,
                forall|j: int|
                    0 <= j < i ==> answers@.contains_key((#[trigger] items[j]).0) && answers@[items[j].0]@ == mock_view(
                        all[j],
                        items[j].1@,
                        even@[j],
                    ),
            decreases n - i,
        {
            let spec = schema.questions.value_at(i);
            assert(schema.questions@.contains_pair(items[i as int].0, items[i as int].1));
            assert(schema@.contains_key(items[i as int].0) && schema@[items[i as int].0] == spec@);
            assert(all.skip(i as int)[0] == all[i as int]);
            let a = match given.remove(0) {
                Some(a) => a,
                None => Self::uniform_answer(spec, even[i]),
            };
            assert(given@ =~= all.skip(i + 1));
            let ghost before = answers@;
            answers.insert(schema.questions.key_at(i).clone(), a);
            assert forall|k: Seq<char>| #[trigger] answers@.contains_key(k) implies exists|j: int| 0 <= j < i + 1 && #[trigger] items[j].0 == k by {
                if before.contains_key(k) {
                    let j = choose|j: int| 0 <= j < i && #[trigger] items[j].0 == k;
                    assert(items[j].0 == k);
                } else {
                    assert(items[i as int].0 == k);
                }
            }
            i += 1;
        }
        let r = RawAnswers { answers, model: self.id.clone(), usage: Usage::default() };
        proof {
            assert forall|k: Seq<char>| r@.answers.dom().contains(k) == schema@.dom().contains(k) by {
                if r.answers@.contains_key(k) {
                    let j = choose|j: int| 0 <= j < n && #[trigger] items[j].0 == k;
                    assert(schema.questions@.contains_pair(items[j].0, items[j].1));
                }
                if schema.questions@.contains_key(k) {
                    let j = choose|j: int| 0 <= j < items.len() && #[trigger] items[j].0 == k;
                    assert(r.answers@.contains_key(items[j].0));
                }
            }
            assert(r@.answers.dom() =~= schema@.dom());
        }
        Ok(r)
    }
}

// ---------------------------------------------------------------------------
// Laws
// ---------------------------------------------------------------------------

proof fn lemma_evenly(options: Seq<(Seq<char>, Option<Seq<char>>)>, share: Binary64, i: int)
    requires
        0 <= i < options.len(),
    ensures
        evenly(options, share).contains_pair(options[i].0, share),
    decreases options.len(),
{
    if i < options.len() - 1 {
        assert(options.drop_last()[i] == options[i]);
        lemma_evenly(options.drop_last(), share, i);
    }
}

/// The uniform answer to a choice decodes: it chooses the first variant and
/// gives each variant the same share.
pub proof fn uniform_choice_decodes<E: AsChoice>(share: Binary64)
    requires
        E::variants().len() > 0,
    ensures
        ({
            let options = E::variants().map_values(|v: E| (v.wire_key(), v.wire_description()));
            &&& with_key(E::variants(), options[0].0) == Some(E::variants()[0])
            &&& forall|i: int|
                0 <= i < E::variants().len() ==> #[trigger] wire_entries::<E>(evenly(options, share))[i] == (E::variants()[i], share)
        }),
{
    let options = E::variants().map_values(|v: E| (v.wire_key(), v.wire_description()));
    lemma_first_is_with_key(E::variants(), options[0].0, 0);
    assert forall|i: int| 0 <= i < E::variants().len() implies #[trigger] wire_entries::<E>(evenly(options, share))[i] == (
        E::variants()[i],
        share,
    ) by {
        lemma_evenly(options, share, i);
    }
}

/// The uniform answer to a score decodes: each of the `n` levels gets the same share.
pub proof fn uniform_score_decodes(probabilities: SortedMap<String, Binary64>, n: nat, share: Binary64)
    requires
        n <= usize::MAX,
        probabilities.wf(),
        probabilities@ == numbered(Seq::new(n, |i: int| share)),
    ensures
        levels_filled(probabilities.items(), n) == Ok::<Seq<Binary64>, Seq<char>>(Seq::new(n, |i: int| share)),
{
    numbered_levels_decode(probabilities, Seq::new(n, |i: int| share));
}

/// An even distribution gives each option the share, and nothing else any.
pub proof fn even_is_over_the_options(options: Seq<(Seq<char>, Option<Seq<char>>)>, share: Binary64, key: Seq<char>)
    ensures
        evenly(options, share).contains_key(key) <==> exists|i: int| 0 <= i < options.len() && (#[trigger] options[i]).0 == key,
        evenly(options, share).contains_key(key) ==> evenly(options, share)[key] == share,
    decreases options.len(),
{
    if options.len() > 0 {
        even_is_over_the_options(options.drop_last(), share, key);
        assert(forall|i: int| 0 <= i < options.len() - 1 ==> #[trigger] options.drop_last()[i] == options[i]);
        if exists|i: int| 0 <= i < options.len() && (#[trigger] options[i]).0 == key {
            let i = choose|i: int| 0 <= i < options.len() && (#[trigger] options[i]).0 == key;
            lemma_evenly(options, share, i);
        }
        if evenly(options.drop_last(), share).contains_key(key) {
            let i = choose|i: int| 0 <= i < options.drop_last().len() && (#[trigger] options.drop_last()[i]).0 == key;
            assert(options[i].0 == key);
        } else if options.last().0 == key {
            assert(options[options.len() - 1].0 == key);
        }
    }
}

/// A rule's answer goes before the uniform one. The uniform answer is a half
/// for a yes or no; for a choice its first option, each at the even share; for
/// a score the middle, each level at the even share under its number.
pub proof fn silent_rules_answer_uniformly(
    a: RawAnswer,
    q: SpecView,
    even: Even,
    instructions: Seq<char>,
    sides: Option<(Seq<char>, Seq<char>)>,
    options: Seq<(Seq<char>, Option<Seq<char>>)>,
    levels: Seq<Seq<char>>,
)
    ensures
        mock_view(Some(a), q, even) == a@,
        mock_view(None, SpecView::Noul { instructions, criteria: sides }, even) == (RawView::Noul {
            noul: Binary64 { bits: 0x3FE0_0000_0000_0000 },
            confidence: None,
        }),
        mock_view(None, SpecView::Choice { instructions, criteria: options }, even) matches RawView::Choice {
            choice,
            probabilities,
            confidence,
        } && choice == options[0].0 && confidence == even.share && probabilities == evenly(options, even.share),
        mock_view(None, SpecView::Score { instructions, criteria: levels }, even) matches RawView::Score {
            score,
            legend,
            probabilities,
            confidence,
        } && score == even.middle && confidence == even.share && legend == numbered(levels) && probabilities == numbered(
            Seq::new(levels.len(), |i: int| even.share),
        ),
{
}

} // verus!
