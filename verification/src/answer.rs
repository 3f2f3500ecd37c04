//! Raw (wire) answers and the typed answers you actually work with.
//!
//! * [`RawAnswer`] / [`RawAnswers`] mirror the API response.
//! * [`Noul`], [`Choice`], [`Score`] are the typed views a struct that is
//!   [`crate::traits::AsQuestions`] is filled with. They carry the full
//!   probability distribution, not just the arg-max, so downstream code can
//!   make cost-aware decisions.
use vstd::prelude::*;
use vstd::std_specs::cmp::PartialEqSpec;
use vstd::string::*;

use crate::binary64::{constants, greatest, greatest_of, infinity, zero, Binary64, INFINITY_BITS};
use crate::error::{Error, ErrorView};
use crate::numeral::{decimal, decimal_of, parse, parse_usize};
use crate::schema::SpecView;
use crate::sorted_map::{viewed, Copied, SortedMap};
use crate::sorting::{alike, arranged, arranged_is_sorted, arranged_is_stable, in_order, lemma_placed_at, weak_order};
use crate::text::{chars_of, string_of, strings};
use crate::traits::{parse_key, parsed_key_matches, with_key, AsChoice};

verus! {

// ---------------------------------------------------------------------------
// Wire level
// ---------------------------------------------------------------------------

/// One answer as returned by a backend, before typing.
#[derive(Debug, PartialEq)]
pub enum RawAnswer {
    Noul {
        /// `P(yes)`.
        noul: Binary64,
        /// Not documented for `noul` by the API; kept optional for custom backends.
        confidence: Option<Binary64>,
    },
    Choice {
        /// Arg-max option key.
        choice: String,
        /// `option_key -> probability`.
        probabilities: SortedMap<String, Binary64>,
        confidence: Binary64,
    },
    Score {
        /// Probability-weighted level index; may land between levels.
        score: Binary64,
        /// `"0" -> "Calm"`, … as returned by the API.
        legend: SortedMap<String, String>,
        /// `"0" -> probability`, …
        probabilities: SortedMap<String, Binary64>,
        confidence: Binary64,
    },
}

/// All answers for one request, keyed by question name.
#[derive(Debug, PartialEq)]
pub struct RawAnswers {
    pub answers: SortedMap<String, RawAnswer>,
    /// Model identifier reported by the backend (e.g. `jev-1.13.0`).
    pub model: String,
    /// Token usage if the backend reports it.
    pub usage: Usage,
}

#[derive(Debug, Clone, Copy, PartialEq, Eq, Structural)]
pub struct Usage {
    pub input_tokens: u64,
    pub output_tokens: u64,
}

/// What an answer says.
#[verifier::ext_equal]
pub enum RawView {
    Noul { noul: Binary64, confidence: Option<Binary64> },
    Choice { choice: Seq<char>, probabilities: Map<Seq<char>, Binary64>, confidence: Binary64 },
    Score { score: Binary64, legend: Map<Seq<char>, Seq<char>>, probabilities: Map<Seq<char>, Binary64>, confidence: Binary64 },
}

impl View for RawAnswer {
    type V = RawView;

    open spec fn view(&self) -> RawView {
        match self {
            RawAnswer::Noul { noul, confidence } => RawView::Noul { noul: *noul, confidence: *confidence },
            RawAnswer::Choice { choice, probabilities, confidence } => RawView::Choice {
                choice: choice@,
                probabilities: viewed(probabilities@),
                confidence: *confidence,
            },
            RawAnswer::Score { score, legend, probabilities, confidence } => RawView::Score {
                score: *score,
                legend: viewed(legend@),
                probabilities: viewed(probabilities@),
                confidence: *confidence,
            },
        }
    }
}

impl Copied for RawAnswer {
    fn copied(&self) -> (r: Self) {
        match self {
            RawAnswer::Noul { noul, confidence } => RawAnswer::Noul { noul: *noul, confidence: *confidence },
            RawAnswer::Choice { choice, probabilities, confidence } => RawAnswer::Choice {
                choice: choice.clone(),
                probabilities: probabilities.copied(),
                confidence: *confidence,
            },
            RawAnswer::Score { score, legend, probabilities, confidence } => RawAnswer::Score {
                score: *score,
                legend: legend.copied(),
                probabilities: probabilities.copied(),
                confidence: *confidence,
            },
        }
    }
}

/// What a set of answers says.
#[verifier::ext_equal]
pub struct AnswersView {
    pub answers: Map<Seq<char>, RawView>,
    pub model: Seq<char>,
    pub usage: Usage,
}

impl View for RawAnswers {
    type V = AnswersView;

    open spec fn view(&self) -> AnswersView {
        AnswersView { answers: viewed(self.answers@), model: self.model@, usage: self.usage }
    }
}

impl Copied for RawAnswers {
    fn copied(&self) -> (r: Self) {
        RawAnswers { answers: self.answers.copied(), model: self.model.clone(), usage: self.usage }
    }
}

/// No answers.
pub open spec fn no_answers() -> AnswersView {
    AnswersView { answers: Map::empty(), model: seq![], usage: Usage { input_tokens: 0, output_tokens: 0 } }
}

impl Default for Usage {
    fn default() -> (r: Self)
        ensures
            r == (Usage { input_tokens: 0, output_tokens: 0 }),
    {
        Usage { input_tokens: 0, output_tokens: 0 }
    }
}

impl Default for RawAnswers {
    fn default() -> (r: Self)
        ensures
            r@ == no_answers(),
    {
        let r = RawAnswers { answers: SortedMap::new(), model: String::new(), usage: Usage::default() };
        assert(r@ =~= no_answers());
        r
    }
}

impl RawAnswers {
    pub fn get(&self, name: &str) -> (r: Result<&RawAnswer, Error>)
        ensures
            match r {
                Ok(a) => self.answers@.contains_pair(name@, *a),
                Err(e) => !self.answers@.contains_key(name@) && e@ == ErrorView::MissingAnswer(name@),
            },
    {
        let key: String = name.to_owned();
        match self.answers.get(&key) {
            Some(a) => Ok(a),
            None => Err(Error::MissingAnswer(key)),
        }
    }
}

/// The kind of an answer as text.
pub open spec fn kind_text(a: RawAnswer) -> Seq<char> {
    match a {
        RawAnswer::Noul { .. } => "noul"@,
        RawAnswer::Choice { .. } => "choice"@,
        RawAnswer::Score { .. } => "score"@,
    }
}

fn kind_of(a: &RawAnswer) -> (r: &'static str)
    ensures
        r@ == kind_text(*a),
{
    match a {
        RawAnswer::Noul { .. } => "noul",
        RawAnswer::Choice { .. } => "choice",
        RawAnswer::Score { .. } => "score",
    }
}

/// The error for an answer of another kind than `wanted`.
pub open spec fn wrong_kind(name: Seq<char>, wanted: Seq<char>, a: RawAnswer) -> ErrorView {
    ErrorView::SchemaMismatch { question: name, reason: "expected "@ + wanted + ", got "@ + kind_text(a) }
}

fn wrong_kind_error(name: &str, wanted: &str, a: &RawAnswer) -> (r: Error)
    ensures
        r@ == wrong_kind(name@, wanted@, *a),
{
    let mut reason = "expected ".to_owned();
    reason.push_str(wanted);
    reason.push_str(", got ");
    reason.push_str(kind_of(a));
    Error::SchemaMismatch { question: name.to_owned(), reason }
}

// ---------------------------------------------------------------------------
// Fields
// ---------------------------------------------------------------------------

/// What a field that is filled from an answer says. Options go by their keys.
#[verifier::ext_equal]
pub enum FieldView {
    Noul { p: Binary64 },
    Choice { chosen: Seq<char>, probabilities: Seq<(Seq<char>, Binary64)>, confidence: Binary64 },
    Score { value: Binary64, probabilities: Seq<Binary64>, legend: Seq<Seq<char>>, confidence: Binary64 },
}

/// An answer read as a noul.
pub open spec fn decoded_noul(name: Seq<char>, a: RawAnswer) -> Result<FieldView, ErrorView> {
    match a {
        RawAnswer::Noul { noul, .. } => Ok(FieldView::Noul { p: noul.clamped() }),
        _ => Err(wrong_kind(name, "noul"@, a)),
    }
}

/// Whether one of the options has a key.
pub open spec fn has_option(options: Seq<(Seq<char>, Option<Seq<char>>)>, key: Seq<char>) -> bool {
    exists|i: int| 0 <= i < options.len() && (#[trigger] options[i]).0 == key
}

/// The probability under a key, else zero.
pub open spec fn key_probability(probabilities: Map<Seq<char>, Binary64>, key: Seq<char>) -> Binary64 {
    if probabilities.contains_key(key) {
        probabilities[key]
    } else {
        zero()
    }
}

/// An answer read as a choice among options: the one it chose has to be among them.
pub open spec fn decoded_choice(name: Seq<char>, options: Seq<(Seq<char>, Option<Seq<char>>)>, a: RawAnswer) -> Result<FieldView, ErrorView> {
    match a {
        RawAnswer::Choice { choice, probabilities, confidence } => if has_option(options, choice@) {
            Ok(
                FieldView::Choice {
                    chosen: choice@,
                    probabilities: Seq::new(options.len(), |i: int| (options[i].0, key_probability(probabilities@, options[i].0))),
                    confidence,
                },
            )
        } else {
            Err(ErrorView::SchemaMismatch { question: name, reason: "unknown option `"@ + choice@ + "`"@ })
        },
        _ => Err(wrong_kind(name, "choice"@, a)),
    }
}

/// An answer read as a score on a scale of levels.
pub open spec fn decoded_score(name: Seq<char>, levels: Seq<Seq<char>>, a: RawAnswer) -> Result<FieldView, ErrorView> {
    match a {
        RawAnswer::Score { score, legend, probabilities, confidence } => match levels_filled(probabilities.items(), levels.len()) {
            Ok(ps) => Ok(FieldView::Score { value: score, probabilities: ps, legend: legend_of(legend@, levels), confidence }),
            Err(reason) => Err(ErrorView::SchemaMismatch { question: name, reason }),
        },
        _ => Err(wrong_kind(name, "score"@, a)),
    }
}

/// The answer to a question, read as the kind that was asked.
pub open spec fn decoded(name: Seq<char>, q: SpecView, a: RawAnswer) -> Result<FieldView, ErrorView> {
    match q {
        SpecView::Noul { .. } => decoded_noul(name, a),
        SpecView::Choice { criteria, .. } => decoded_choice(name, criteria, a),
        SpecView::Score { criteria, .. } => decoded_score(name, criteria, a),
    }
}

// ---------------------------------------------------------------------------
// Noul
// ---------------------------------------------------------------------------

/// A calibrated yes/no answer: `P(yes)`.
#[derive(Debug, Clone, Copy, PartialEq, Eq, Structural)]
pub struct Noul {
    /// Probability that the answer is *yes*.
    pub p: Binary64,
}

impl Noul {
    /// What it says as a field.
    pub open spec fn field(self) -> FieldView {
        FieldView::Noul { p: self.p }
    }

    pub fn new(p: Binary64) -> (r: Self)
        ensures
            r.p == p.clamped(),
    {
        Noul { p: p.clamp01() }
    }

    /// Plain threshold.
    pub fn is_likely(&self, threshold: Binary64) -> (r: bool)
        ensures
            r == threshold.at_most(self.p),
    {
        self.p.ge(threshold)
    }

    /// Cost-aware decision: `true` (act as if *yes*) when the expected cost of
    /// acting, `(1 - p)` times the cost of a false positive, is lower than the
    /// expected cost of not acting, `p` times the cost of a false negative.
    pub fn decide(expected_cost_act: Binary64, expected_cost_skip: Binary64) -> (r: bool)
        ensures
            r == expected_cost_act.below(expected_cost_skip),
    {
        expected_cost_act.lt(expected_cost_skip)
    }

    /// Draw a boolean from the distribution, given a number drawn evenly from
    /// zero (included) to one (not included).
    pub fn sample(&self, u: Binary64) -> (r: bool)
        ensures
            r == u.below(self.p),
    {
        u.lt(self.p)
    }

    pub fn from_raw(name: &str, raw: &RawAnswer) -> (r: Result<Self, Error>)
        ensures
            match decoded_noul(name@, *raw) {
                Ok(f) => r matches Ok(n) && n.field() == f,
                Err(e) => r matches Err(x) && x@ == e,
            },
    {
        match raw {
            RawAnswer::Noul { noul, .. } => Ok(Self::new(*noul)),
            other => Err(wrong_kind_error(name, "noul", other)),
        }
    }
}

// ---------------------------------------------------------------------------
// Choice
// ---------------------------------------------------------------------------

/// A calibrated distribution over the variants of an enum that is [`AsChoice`].
#[derive(Debug, Clone, PartialEq)]
pub struct Choice<E: AsChoice> {
    /// Arg-max variant as reported by the backend.
    pub chosen: E,
    /// Probability of every variant, in the enum's declaration order.
    pub probabilities: Vec<(E, Binary64)>,
    /// Backend-reported confidence in the arg-max.
    pub confidence: Binary64,
}

/// The probability in the first entry whose variant equals `variant`, else zero.
pub open spec fn probability_of<E: AsChoice>(entries: Seq<(E, Binary64)>, variant: E) -> Binary64
    decreases entries.len(),
{
    if entries.len() == 0 {
        zero()
    } else if entries[0].0.eq_spec(&variant) {
        entries[0].1
    } else {
        probability_of(entries.drop_first(), variant)
    }
}

/// The entry with the greater probability comes first.
pub open spec fn heavier<E>() -> spec_fn((E, Binary64), (E, Binary64)) -> bool {
    |a: (E, Binary64), b: (E, Binary64)| b.1.units() < a.1.units()
}

/// No probability is a NaN.
pub open spec fn no_nan<E>(entries: Seq<(E, Binary64)>) -> bool {
    forall|i: int| 0 <= i < entries.len() ==> !(#[trigger] entries[i]).1.is_nan()
}

/// The variant of the first entry whose probability exceeds what is left of
/// the draw when that entry is reached.
pub open spec fn drawn<E>(entries: Seq<(E, Binary64)>, left: Seq<Binary64>, chosen: E) -> E
    decreases entries.len(),
{
    if entries.len() == 0 || left.len() == 0 {
        chosen
    } else if left[0].below(entries[0].1) {
        entries[0].0
    } else {
        drawn(entries.drop_first(), left.drop_first(), chosen)
    }
}

/// The action with the least expected cost among the first `k`, and that cost:
/// of several the first, and `chosen` where none costs less than infinity.
pub open spec fn cheapest<E>(actions: Seq<E>, costs: Seq<Binary64>, chosen: E, k: nat) -> (E, Binary64)
    decreases k,
{
    if k == 0 {
        (chosen, infinity())
    } else {
        let best = cheapest(actions, costs, chosen, (k - 1) as nat);
        if costs[k - 1].below(best.1) {
            (actions[k - 1], costs[k - 1])
        } else {
            best
        }
    }
}

/// The probability under a variant's key, else zero.
pub open spec fn wire_probability<E: AsChoice>(probabilities: Map<Seq<char>, Binary64>, v: E) -> Binary64 {
    if probabilities.contains_key(v.wire_key()) {
        probabilities[v.wire_key()]
    } else {
        zero()
    }
}

/// Every variant with its probability, in declaration order.
pub open spec fn wire_entries<E: AsChoice>(probabilities: Map<Seq<char>, Binary64>) -> Seq<(E, Binary64)> {
    E::variants().map_values(|v: E| (v, wire_probability(probabilities, v)))
}

/// The options of a choice over an enum: the key and the description of each
/// variant, in declaration order.
pub open spec fn options_of<E: AsChoice>() -> Seq<(Seq<char>, Option<Seq<char>>)> {
    E::variants().map_values(|v: E| (v.wire_key(), v.wire_description()))
}

/// What parses among variants is an option of them.
proof fn lemma_parses_to_option<E: AsChoice>(key: Seq<char>)
    ensures
        with_key(E::variants(), key) is Some == has_option(options_of::<E>(), key),
        with_key(E::variants(), key) matches Some(v) ==> v.wire_key() == key,
{
    let options = options_of::<E>();
    parsed_key_matches(E::variants(), key);
    match with_key(E::variants(), key) {
        Some(v) => {
            let i = choose|i: int| 0 <= i < E::variants().len() && E::variants()[i] == v;
            assert(options[i].0 == key);
        },
        None => {
            assert forall|i: int| 0 <= i < options.len() implies (#[trigger] options[i]).0 != key by {
                assert(E::variants()[i].wire_key() != key);
            }
        },
    }
}

impl<E: AsChoice> Choice<E> {
    /// What it says as a field.
    pub open spec fn field(self) -> FieldView {
        FieldView::Choice {
            chosen: self.chosen.wire_key(),
            probabilities: self.probabilities@.map_values(|e: (E, Binary64)| (e.0.wire_key(), e.1)),
            confidence: self.confidence,
        }
    }

    /// The most likely variant.
    pub fn argmax(&self) -> (r: E)
        ensures
            r == self.chosen,
    {
        self.chosen
    }

    /// Probability of a specific variant.
    pub fn p(&self, variant: E) -> (r: Binary64)
        ensures
            E::obeys_eq_spec() ==> r == probability_of(self.probabilities@, variant),
            r == zero() || exists|i: int| 0 <= i < self.probabilities@.len() && (#[trigger] self.probabilities@[i]).1 == r,
    {
        let ghost all = self.probabilities@;
        let n = self.probabilities.len();
        let mut i: usize = 0;
        assert(all.skip(0) =~= all);
        while i < n
            invariant
                i <= n == all.len(),
                all == self.probabilities@,
                E::obeys_eq_spec() ==> probability_of(all, variant) == probability_of(all.skip(i as int), variant),
            decreases n - i,
        {
            assert(all.skip(i as int)[0] == all[i as int]);
            let entry = self.probabilities[i];
            if entry.0 == variant {
                return entry.1;
            }
            assert(all.skip(i as int).drop_first() =~= all.skip(i + 1));
            i += 1;
        }
        assert(all.skip(n as int).len() == 0);
        Binary64 { bits: 0 }
    }

    /// Variants sorted by descending probability; equally likely ones keep
    /// their order.
    pub fn ranked(&self) -> (r: Vec<(E, Binary64)>)
        requires
            no_nan(self.probabilities@),
        ensures
            r@ == arranged(self.probabilities@, heavier::<E>()),
    {
        let ghost all = self.probabilities@;
        let n = self.probabilities.len();
        let mut out: Vec<(E, Binary64)> = Vec::new();
        let mut i: usize = 0;
        assert(all.take(0) =~= seq![]);
        assert(out@ =~= seq![]);
        while i < n
            invariant
                i <= n == all.len(),
                all == self.probabilities@,
                no_nan(all),
                no_nan(out@),
                out@ == arranged(all.take(i as int), heavier::<E>()),
            decreases n - i,
        {
            let x = self.probabilities[i];
            assert(!all[i as int].1.is_nan());
            let mut k: usize = out.len();
            while k > 0 && out[k - 1].1.lt(x.1)
                invariant
                    k <= out@.len(),
                    no_nan(out@),
                    !x.1.is_nan(),
                    forall|j: int| k <= j < out@.len() ==> heavier::<E>()(x, #[trigger] out@[j]),
                decreases k,
            {
                k -= 1;
            }
            proof {
                lemma_placed_at(out@, x, k as int, heavier::<E>());
                assert(all.take(i + 1).drop_last() =~= all.take(i as int));
            }
            let ghost before = out@;
            out.insert(k, x);
            assert(no_nan(out@)) by {
                assert forall|j: int| 0 <= j < out@.len() implies !(#[trigger] out@[j]).1.is_nan() by {
                    if j < k {
                        assert(out@[j] == before[j]);
                    } else if j > k {
                        assert(out@[j] == before[j - 1]);
                    }
                }
            }
            i += 1;
        }
        assert(all.take(n as int) =~= all);
        out
    }

    /// Draw a variant from the distribution. Useful for stochastic agents in
    /// simulations: the same state yields naturally varied behaviour.
    ///
    /// `left` holds, for each entry, what is left of the number drawn from
    /// zero to one when the probabilities before that entry are taken off.
    pub fn sample(&self, left: &Vec<Binary64>) -> (r: E)
        ensures
            r == drawn(self.probabilities@, left@, self.chosen),
    {
        let ghost all = self.probabilities@;
        let n = if self.probabilities.len() < left.len() {
            self.probabilities.len()
        } else {
            left.len()
        };
        let mut i: usize = 0;
        assert(all.skip(0) =~= all);
        assert(left@.skip(0) =~= left@);
        while i < n
            invariant
                i <= n <= all.len(),
                n <= left@.len(),
                n == all.len() || n == left@.len(),
                all == self.probabilities@,
                drawn(all, left@, self.chosen) == drawn(all.skip(i as int), left@.skip(i as int), self.chosen),
            decreases n - i,
        {
            assert(all.skip(i as int)[0] == all[i as int]);
            assert(left@.skip(i as int)[0] == left@[i as int]);
            let entry = self.probabilities[i];
            if left[i].lt(entry.1) {
                return entry.0;
            }
            assert(all.skip(i as int).drop_first() =~= all.skip(i + 1));
            assert(left@.skip(i as int).drop_first() =~= left@.skip(i + 1));
            i += 1;
        }
        self.chosen
    }

    /// Pick the *action* that minimises expected cost under this belief.
    ///
    /// `expected` holds the expected cost of each action, in the order of the
    /// enum's variants. This turns a probability vector into a decision
    /// without hand-picking thresholds.
    pub fn decide(&self, expected: &Vec<Binary64>) -> (r: E)
        requires
            expected@.len() == E::variants().len(),
        ensures
            r == cheapest(E::variants(), expected@, self.chosen, E::variants().len()).0,
    {
        let actions = E::all();
        let n = actions.len();
        let mut best = self.chosen;
        let mut best_cost = Binary64 { bits: INFINITY_BITS };
        let mut i: usize = 0;
        while i < n
            invariant
                i <= n == actions@.len(),
                actions@ == E::variants(),
                expected@.len() == n,
                (best, best_cost) == cheapest(actions@, expected@, self.chosen, i as nat),
            decreases n - i,
        {
            if expected[i].lt(best_cost) {
                best_cost = expected[i];
                best = actions[i];
            }
            i += 1;
        }
        best
    }

    pub fn from_raw(name: &str, raw: &RawAnswer) -> (r: Result<Self, Error>)
        ensures
            match *raw {
                RawAnswer::Choice { choice, probabilities, confidence } => match with_key(E::variants(), choice@) {
                    Some(v) => r matches Ok(c) && c.chosen == v && c.probabilities@ == wire_entries::<E>(probabilities@) && c.confidence
                        == confidence,
                    None => r matches Err(e) && e@ == (ErrorView::SchemaMismatch {
                        question: name@,
                        reason: "unknown option `"@ + choice@ + "`"@,
                    }),
                },
                _ => r matches Err(e) && e@ == wrong_kind(name@, "choice"@, *raw),
            },
            match decoded_choice(name@, options_of::<E>(), *raw) {
                Ok(f) => r matches Ok(c) && c.field() == f,
                Err(e) => r matches Err(x) && x@ == e,
            },
    {
        match raw {
            RawAnswer::Choice { choice, probabilities, confidence } => {
                proof {
                    lemma_parses_to_option::<E>(choice@);
                }
                let chosen = match parse_key::<E>(choice.as_str()) {
                    Some(v) => v,
                    None => {
                        let mut reason = "unknown option `".to_owned();
                        reason.push_str(choice.as_str());
                        reason.push_str("`");
                        return Err(Error::SchemaMismatch { question: name.to_owned(), reason });
                    },
                };
                let ghost want = wire_entries::<E>(probabilities@);
                let all = E::all();
                let n = all.len();
                let mut probs: Vec<(E, Binary64)> = Vec::new();
                let mut i: usize = 0;
                assert(probs@ =~= want.take(0));
                while i < n
                    invariant
                        i <= n == all@.len(),
                        all@ == E::variants(),
                        want == wire_entries::<E>(probabilities@),
                        probs@ == want.take(i as int),
                    decreases n - i,
                {
                    let v = all[i];
                    let key: String = v.key().to_owned();
                    let p = match probabilities.get(&key) {
                        Some(p) => *p,
                        None => Binary64 { bits: 0 },
                    };
                    assert(want[i as int] == (v, p));
                    probs.push((v, p));
                    assert(probs@ =~= want.take(i + 1));
                    i += 1;
                }
                assert(want.take(n as int) =~= want);
                let r = Choice { chosen, probabilities: probs, confidence: *confidence };
                assert(r.field() =~= decoded_choice(name@, options_of::<E>(), *raw)->Ok_0);
                Ok(r)
            },
            other => Err(wrong_kind_error(name, "choice", other)),
        }
    }
}

// ---------------------------------------------------------------------------
// Score
// ---------------------------------------------------------------------------

/// A calibrated distribution over an ordered scale of 2–10 levels.
#[derive(Debug, Clone, PartialEq)]
pub struct Score {
    /// Probability-weighted level index (`Σ i·pᵢ`). May fall between levels.
    pub value: Binary64,
    /// Probability of each level, index 0 = lowest.
    pub probabilities: Vec<Binary64>,
    /// Level descriptions as sent in the schema / echoed by the backend.
    pub legend: Vec<String>,
    pub confidence: Binary64,
}

/// The probabilities of `n` levels, filled in from entries under level
/// numbers in the order given, or what is wrong with the first entry that
/// names no level.
pub open spec fn levels_filled(entries: Seq<(Seq<char>, Binary64)>, n: nat) -> Result<Seq<Binary64>, Seq<char>>
    decreases entries.len(),
{
    if entries.len() == 0 {
        Ok(Seq::new(n, |i: int| zero()))
    } else {
        match levels_filled(entries.drop_last(), n) {
            Err(reason) => Err(reason),
            Ok(levels) => match parse(entries.last().0) {
                None => Err("non-integer level key `"@ + entries.last().0 + "`"@),
                Some(i) => if i >= n {
                    Err("level "@ + decimal(i as nat) + " out of range (schema has "@ + decimal(n) + ")"@)
                } else {
                    Ok(levels.update(i as int, entries.last().1))
                },
            },
        }
    }
}

/// Filling in levels keeps their number.
pub proof fn lemma_levels_filled_len(entries: Seq<(Seq<char>, Binary64)>, n: nat)
    ensures
        levels_filled(entries, n) matches Ok(levels) ==> levels.len() == n,
    decreases entries.len(),
{
    if entries.len() > 0 {
        lemma_levels_filled_len(entries.drop_last(), n);
    }
}

proof fn lemma_levels_fault_stays(entries: Seq<(Seq<char>, Binary64)>, n: nat, k: int)
    requires
        0 <= k <= entries.len(),
        levels_filled(entries.take(k), n) is Err,
    ensures
        levels_filled(entries, n) == levels_filled(entries.take(k), n),
    decreases entries.len(),
{
    if k < entries.len() {
        assert(entries.drop_last().take(k) =~= entries.take(k));
        lemma_levels_fault_stays(entries.drop_last(), n, k);
    } else {
        assert(entries.take(k) =~= entries);
    }
}

/// The descriptions of the levels: the echoed one where there is one under
/// the level's number, else the one that was sent.
pub open spec fn legend_of(legend: Map<Seq<char>, String>, levels: Seq<Seq<char>>) -> Seq<Seq<char>> {
    Seq::new(
        levels.len(),
        |i: int|
            if legend.contains_key(decimal(i as nat)) {
                legend[decimal(i as nat)]@
            } else {
                levels[i]
            },
    )
}

impl Score {
    /// What it says as a field.
    pub open spec fn field(self) -> FieldView {
        FieldView::Score {
            value: self.value,
            probabilities: self.probabilities@,
            legend: strings(self.legend@),
            confidence: self.confidence,
        }
    }

    /// Most likely level index.
    pub fn argmax(&self) -> (r: usize)
        ensures
            r == greatest(self.probabilities@, self.probabilities@.len()),
    {
        greatest_of(&self.probabilities)
    }

    /// Description of the most likely level.
    pub fn argmax_label(&self) -> (r: &str)
        ensures
            ({
                let i = greatest(self.probabilities@, self.probabilities@.len());
                r@ == if i < self.legend@.len() {
                    self.legend@[i]@
                } else {
                    ""@
                }
            }),
    {
        let i = self.argmax();
        if i < self.legend.len() {
            self.legend[i].as_str()
        } else {
            ""
        }
    }

    pub fn from_raw(name: &str, raw: &RawAnswer, levels: &Vec<String>) -> (r: Result<Self, Error>)
        ensures
            match decoded_score(name@, strings(levels@), *raw) {
                Ok(f) => r matches Ok(s) && s.field() == f,
                Err(e) => r matches Err(x) && x@ == e,
            },
    {
        match raw {
            RawAnswer::Score { score, legend, probabilities, confidence } => {
                let n = levels.len();
                let probs = match fill_levels(name, probabilities, n) {
                    Ok(ps) => ps,
                    Err(e) => {
                        return Err(e);
                    },
                };
                let ghost want = legend_of(legend@, strings(levels@));
                let mut labels: Vec<String> = Vec::new();
                let mut i: usize = 0;
                assert(strings(labels@) =~= want.take(0));
                while i < n
                    invariant
                        i <= n == levels@.len(),
                        want == legend_of(legend@, strings(levels@)),
                        strings(labels@) == want.take(i as int),
                    decreases n - i,
                {
                    let ghost before = strings(labels@);
                    let key: String = string_of(decimal_of(i as u128).as_slice());
                    let label = match legend.get(&key) {
                        Some(l) => l.clone(),
                        None => levels[i].clone(),
                    };
                    assert(want[i as int] == label@);
                    labels.push(label);
                    assert(strings(labels@) =~= before.push(want[i as int]));
                    assert(before.push(want[i as int]) =~= want.take(i + 1));
                    i += 1;
                }
                assert(want.take(n as int) =~= want);
                Ok(Score { value: *score, probabilities: probs, legend: labels, confidence: *confidence })
            },
            other => Err(wrong_kind_error(name, "score", other)),
        }
    }
}

fn fill_levels(name: &str, probabilities: &SortedMap<String, Binary64>, n: usize) -> (r: Result<Vec<Binary64>, Error>)
    ensures
        match levels_filled(probabilities.items(), n as nat) {
            Ok(ps) => r matches Ok(v) && v@ == ps,
            Err(reason) => r matches Err(e) && e@ == (ErrorView::SchemaMismatch { question: name@, reason }),
        },
{
    let ghost items = probabilities.items();
    let mut probs: Vec<Binary64> = Vec::new();
    let mut j: usize = 0;
    while j < n
        invariant
            j <= n,
            probs@ == Seq::new(j as nat, |i: int| zero()),
        decreases n - j,
    {
        probs.push(Binary64 { bits: 0 });
        assert(probs@ =~= Seq::new((j + 1) as nat, |i: int| zero()));
        j += 1;
    }
    let k = probabilities.len();
    let mut i: usize = 0;
    assert(items.take(0) =~= seq![]);
    while i < k
        invariant
            i <= k == items.len(),
            items == probabilities.items(),
            levels_filled(items.take(i as int), n as nat) == Ok::<Seq<Binary64>, Seq<char>>(probs@),
        decreases k - i,
    {
        assert(items.take(i + 1).drop_last() =~= items.take(i as int));
        assert(items.take(i + 1).last() == items[i as int]);
        proof {
            lemma_levels_filled_len(items.take(i as int), n as nat);
        }
        let key = probabilities.key_at(i);
        let p = *probabilities.value_at(i);
        match parse_usize(chars_of(key.as_str()).as_slice()) {
            None => {
                let mut reason = "non-integer level key `".to_owned();
                reason.push_str(key.as_str());
                reason.push_str("`");
                proof {
                    lemma_levels_fault_stays(items, n as nat, i + 1);
                }
                return Err(Error::SchemaMismatch { question: name.to_owned(), reason });
            },
            Some(level) => {
                if level >= n {
                    let mut reason = "level ".to_owned();
                    reason.push_str(string_of(decimal_of(level as u128).as_slice()).as_str());
                    reason.push_str(" out of range (schema has ");
                    reason.push_str(string_of(decimal_of(n as u128).as_slice()).as_str());
                    reason.push_str(")");
                    proof {
                        lemma_levels_fault_stays(items, n as nat, i + 1);
                    }
                    return Err(Error::SchemaMismatch { question: name.to_owned(), reason });
                }
                probs.set(level, p);
            },
        }
        i += 1;
    }
    assert(items.take(k as int) =~= items);
    Ok(probs)
}

// ---------------------------------------------------------------------------
// Laws
// ---------------------------------------------------------------------------

/// The ranking holds every entry, as often as it occurs, and no entry stands
/// behind a less likely one.
pub proof fn ranking_is_sorted<E>(entries: Seq<(E, Binary64)>)
    ensures
        arranged(entries, heavier::<E>()).len() == entries.len(),
        arranged(entries, heavier::<E>()).to_multiset() == entries.to_multiset(),
        in_order(arranged(entries, heavier::<E>()), heavier::<E>()),
{
    assert(weak_order(heavier::<E>()));
    arranged_is_sorted(entries, heavier::<E>());
}

/// A decoded distribution has every variant once, in declaration order.
pub proof fn entries_follow_declaration<E: AsChoice>(probabilities: Map<Seq<char>, Binary64>)
    ensures
        wire_entries::<E>(probabilities).len() == E::variants().len(),
        forall|i: int| 0 <= i < E::variants().len() ==> (#[trigger] wire_entries::<E>(probabilities)[i]).0 == E::variants()[i],
{
}

/// The decision is an action of least cost: where some action costs less than
/// infinity, it is the first of those that no action costs less than, and its
/// own cost is less than infinity. Where none does, the chosen variant stays.
pub proof fn decision_is_cheapest<E>(actions: Seq<E>, costs: Seq<Binary64>, chosen: E)
    requires
        actions.len() == costs.len(),
    ensures
        (exists|i: int| 0 <= i < costs.len() && (#[trigger] costs[i]).below(infinity())) ==> exists|i: int|
            0 <= i < costs.len() && #[trigger] actions[i] == cheapest(actions, costs, chosen, costs.len()).0 && costs[i].below(infinity()) && (
            forall|j: int| 0 <= j < costs.len() ==> !(#[trigger] costs[j]).below(costs[i])) && (forall|j: int|
                0 <= j < i ==> !(#[trigger] costs[j]).at_most(costs[i])),
        (forall|i: int| 0 <= i < costs.len() ==> !(#[trigger] costs[i]).below(infinity())) ==> cheapest(
            actions,
            costs,
            chosen,
            costs.len(),
        ).0 == chosen,
{
    constants();
    lemma_cheapest(actions, costs, chosen, costs.len());
    if exists|i: int| 0 <= i < costs.len() && (#[trigger] costs[i]).below(infinity()) {
        let w = choose|i: int| 0 <= i < costs.len() && (#[trigger] costs[i]).below(infinity());
        let i = choose|i: int|
            0 <= i < costs.len() && (#[trigger] actions[i], costs[i]) == cheapest(actions, costs, chosen, costs.len()) && costs[i].below(
                infinity(),
            ) && forall|j: int| 0 <= j < i ==> !(#[trigger] costs[j]).at_most(costs[i]);
        assert(actions[i] == cheapest(actions, costs, chosen, costs.len()).0);
    }
}

proof fn lemma_cheapest<E>(actions: Seq<E>, costs: Seq<Binary64>, chosen: E, k: nat)
    requires
        k <= costs.len(),
        k <= actions.len(),
    ensures
        forall|i: int| 0 <= i < k ==> !(#[trigger] costs[i]).below(cheapest(actions, costs, chosen, k).1),
        (exists|i: int| 0 <= i < k && (#[trigger] costs[i]).below(infinity())) ==> exists|i: int|
            0 <= i < k && (#[trigger] actions[i], costs[i]) == cheapest(actions, costs, chosen, k) && costs[i].below(infinity()) && forall|j: int|
                0 <= j < i ==> !(#[trigger] costs[j]).at_most(costs[i]),
        (forall|i: int| 0 <= i < k ==> !(#[trigger] costs[i]).below(infinity())) ==> cheapest(actions, costs, chosen, k) == (chosen, infinity()),
    decreases k,
{
    constants();
    if k > 0 {
        let m = (k - 1) as nat;
        lemma_cheapest(actions, costs, chosen, m);
        let best = cheapest(actions, costs, chosen, m);
        if costs[k - 1].below(best.1) {
            assert(costs[k - 1].below(infinity())) by {
                if exists|i: int| 0 <= i < m && (#[trigger] costs[i]).below(infinity()) {
                    let i = choose|i: int|
                        0 <= i < m && (#[trigger] actions[i], costs[i]) == best && costs[i].below(infinity()) && forall|j: int|
                            0 <= j < i ==> !(#[trigger] costs[j]).at_most(costs[i]);
                    assert(costs[i].below(infinity()));
                }
            }
            assert((actions[k - 1], costs[k - 1]) == cheapest(actions, costs, chosen, k));
            assert forall|j: int| 0 <= j < k - 1 implies !(#[trigger] costs[j]).at_most(costs[k - 1]) by {
                assert(!costs[j].below(best.1));
            }
        } else if exists|i: int| 0 <= i < m && (#[trigger] costs[i]).below(infinity()) {
            let i = choose|i: int|
                0 <= i < m && (#[trigger] actions[i], costs[i]) == best && costs[i].below(infinity()) && forall|j: int|
                    0 <= j < i ==> !(#[trigger] costs[j]).at_most(costs[i]);
            assert((actions[i], costs[i]) == cheapest(actions, costs, chosen, k));
        } else {
            assert(best == (chosen, infinity()));
            assert forall|i: int| 0 <= i < k implies !(#[trigger] costs[i]).below(infinity()) by {}
        }
    }
}

/// A draw ends in a variant of the distribution or in the chosen one.
pub proof fn draw_is_a_variant<E>(entries: Seq<(E, Binary64)>, left: Seq<Binary64>, chosen: E)
    ensures
        drawn(entries, left, chosen) == chosen || exists|i: int| 0 <= i < entries.len() && (#[trigger] entries[i]).0 == drawn(entries, left, chosen),
    decreases entries.len(),
{
    if entries.len() > 0 && left.len() > 0 {
        if left[0].below(entries[0].1) {
            assert(entries[0].0 == drawn(entries, left, chosen));
        } else {
            let rest = entries.drop_first();
            draw_is_a_variant(rest, left.drop_first(), chosen);
            if drawn(entries, left, chosen) != chosen {
                let i = choose|i: int| 0 <= i < rest.len() && (#[trigger] rest[i]).0 == drawn(rest, left.drop_first(), chosen);
                assert(entries[i + 1].0 == drawn(entries, left, chosen));
            }
        }
    }
}

/// A decoded score has one probability and one description per level.
pub proof fn score_has_every_level(entries: Seq<(Seq<char>, Binary64)>, legend: Map<Seq<char>, String>, levels: Seq<Seq<char>>)
    ensures
        levels_filled(entries, levels.len()) matches Ok(ps) ==> ps.len() == levels.len(),
        legend_of(legend, levels).len() == levels.len(),
        legend == Map::<Seq<char>, String>::empty() ==> legend_of(legend, levels) == levels,
{
    lemma_levels_filled_len(entries, levels.len());
    if legend == Map::<Seq<char>, String>::empty() {
        assert(legend_of(legend, levels) =~= levels);
    }
}

/// Ranked variants stand by falling probability: none stands behind a less
/// likely one. The ranking holds every entry, as often as it occurs, and
/// entries that are equally likely keep their order.
pub proof fn ranking_is_descending<E>(entries: Seq<(E, Binary64)>, p: Binary64)
    requires
        no_nan(entries),
    ensures
        ({
            let ranked = arranged(entries, heavier::<E>());
            &&& ranked.to_multiset() == entries.to_multiset()
            &&& forall|i: int, j: int| 0 <= i < j < ranked.len() ==> !(#[trigger] ranked[i]).1.below((#[trigger] ranked[j]).1)
            &&& ranked.filter(|e: (E, Binary64)| e.1.units() == p.units()) == entries.filter(|e: (E, Binary64)| e.1.units() == p.units())
        }),
{
    broadcast use vstd::seq_lib::group_to_multiset_ensures;

    let before = heavier::<E>();
    let ranked = arranged(entries, before);
    assert(weak_order(before));
    arranged_is_sorted(entries, before);
    assert forall|i: int, j: int| 0 <= i < j < ranked.len() implies !(#[trigger] ranked[i]).1.below((#[trigger] ranked[j]).1) by {
        assert(!before(ranked[j], ranked[i]));
    }
    let same = |e: (E, Binary64)| e.1.units() == p.units();
    if exists|i: int| 0 <= i < entries.len() && (#[trigger] entries[i]).1.units() == p.units() {
        let i = choose|i: int| 0 <= i < entries.len() && (#[trigger] entries[i]).1.units() == p.units();
        arranged_is_stable(entries, entries[i], before);
        assert(alike(entries[i], before) =~= same);
    } else {
        lemma_none_filtered(entries, same);
        assert forall|j: int| 0 <= j < ranked.len() implies !same(#[trigger] ranked[j]) by {
            assert(ranked.to_multiset().count(ranked[j]) > 0);
            assert(entries.contains(ranked[j]));
        }
        lemma_none_filtered(ranked, same);
    }
}

proof fn lemma_none_filtered<T>(s: Seq<T>, p: spec_fn(T) -> bool)
    requires
        forall|i: int| 0 <= i < s.len() ==> !p(#[trigger] s[i]),
    ensures
        s.filter(p) == Seq::<T>::empty(),
    decreases s.len(),
{
    reveal(Seq::filter);
    if s.len() > 0 {
        lemma_none_filtered(s.drop_last(), p);
    }
}

/// A draw stops at the first entry whose probability exceeds what is left of
/// the number drawn; where it stops at none, the chosen variant comes out.
pub proof fn draw_stops_at_first<E>(entries: Seq<(E, Binary64)>, left: Seq<Binary64>, chosen: E, i: int)
    requires
        left.len() == entries.len(),
        0 <= i <= entries.len(),
        forall|j: int| 0 <= j < i ==> !(#[trigger] left[j]).below(entries[j].1),
        i < entries.len() ==> left[i].below(entries[i].1),
    ensures
        drawn(entries, left, chosen) == (if i < entries.len() {
            entries[i].0
        } else {
            chosen
        }),
    decreases entries.len(),
{
    if i > 0 {
        let es = entries.drop_first();
        let ls = left.drop_first();
        assert(!left[0].below(entries[0].1));
        assert forall|j: int| 0 <= j < i - 1 implies !(#[trigger] ls[j]).below(es[j].1) by {
            assert(!left[j + 1].below(entries[j + 1].1));
        }
        draw_stops_at_first(es, ls, chosen, i - 1);
    }
}

/// The probability of a variant is that of the first entry that equals it;
/// where none does, it is zero.
pub proof fn probability_is_of_first<E: AsChoice>(entries: Seq<(E, Binary64)>, variant: E, i: int)
    requires
        0 <= i <= entries.len(),
        forall|j: int| 0 <= j < i ==> !(#[trigger] entries[j]).0.eq_spec(&variant),
        i < entries.len() ==> entries[i].0.eq_spec(&variant),
    ensures
        probability_of(entries, variant) == (if i < entries.len() {
            entries[i].1
        } else {
            Binary64 { bits: 0 }
        }),
    decreases entries.len(),
{
    if i > 0 {
        let rest = entries.drop_first();
        assert(!entries[0].0.eq_spec(&variant));
        assert forall|j: int| 0 <= j < i - 1 implies !(#[trigger] rest[j]).0.eq_spec(&variant) by {
            assert(!entries[j + 1].0.eq_spec(&variant));
        }
        probability_is_of_first(rest, variant, i - 1);
    }
}

/// A decoded distribution gives each variant what stands under its own key, and
/// zero where nothing does.
pub proof fn entries_hold_own_probability<E: AsChoice>(probabilities: Map<Seq<char>, Binary64>, i: int)
    requires
        0 <= i < E::variants().len(),
    ensures
        wire_entries::<E>(probabilities)[i].0 == E::variants()[i],
        probabilities.contains_key(E::variants()[i].wire_key()) ==> wire_entries::<E>(probabilities)[i].1 == probabilities[E::variants()[i].wire_key()],
        !probabilities.contains_key(E::variants()[i].wire_key()) ==> wire_entries::<E>(probabilities)[i].1 == (Binary64 { bits: 0 }),
{
}

/// Whether an entry names one of `n` levels.
pub open spec fn names_level(entry: (Seq<char>, Binary64), n: nat) -> bool {
    parse(entry.0) matches Some(l) && l < n
}

/// Levels are filled in by number: where every entry names a level, each level
/// has the value of the last entry that names it, and a level that none names
/// has zero.
pub proof fn levels_go_by_number(entries: Seq<(Seq<char>, Binary64)>, n: nat, l: usize, i: int)
    requires
        forall|j: int| 0 <= j < entries.len() ==> names_level(#[trigger] entries[j], n),
        l < n,
        -1 <= i < entries.len(),
        i >= 0 ==> parse(entries[i].0) == Some(l),
        forall|j: int| i < j < entries.len() ==> parse((#[trigger] entries[j]).0) != Some(l),
    ensures
        levels_filled(entries, n) matches Ok(levels) && levels.len() == n && levels[l as int] == (if i >= 0 {
            entries[i].1
        } else {
            Binary64 { bits: 0 }
        }),
    decreases entries.len(),
{
    if entries.len() > 0 {
        let rest = entries.drop_last();
        let last = entries.len() - 1;
        assert(names_level(entries[last], n));
        assert forall|j: int| 0 <= j < rest.len() implies names_level(#[trigger] rest[j], n) by {
            assert(names_level(entries[j], n));
        }
        if i == last {
            lemma_levels_fill(rest, n);
            lemma_levels_filled_len(rest, n);
        } else {
            assert(parse(entries[last].0) != Some(l));
            assert forall|j: int| i < j < rest.len() implies parse((#[trigger] rest[j]).0) != Some(l) by {
                assert(parse(entries[j].0) != Some(l));
            }
            levels_go_by_number(rest, n, l, i);
        }
    }
}

proof fn lemma_levels_fill(entries: Seq<(Seq<char>, Binary64)>, n: nat)
    requires
        forall|j: int| 0 <= j < entries.len() ==> names_level(#[trigger] entries[j], n),
    ensures
        levels_filled(entries, n) is Ok,
    decreases entries.len(),
{
    if entries.len() > 0 {
        let rest = entries.drop_last();
        assert(names_level(entries[entries.len() - 1], n));
        assert forall|j: int| 0 <= j < rest.len() implies names_level(#[trigger] rest[j], n) by {
            assert(names_level(entries[j], n));
        }
        lemma_levels_fill(rest, n);
    }
}

/// The first entry that names no level is told: as no number, or as a number
/// out of range.
pub proof fn first_bad_level_is_told(entries: Seq<(Seq<char>, Binary64)>, n: nat, i: int)
    requires
        0 <= i < entries.len(),
        !names_level(entries[i], n),
        forall|j: int| 0 <= j < i ==> names_level(#[trigger] entries[j], n),
    ensures
        levels_filled(entries, n) == Err::<Seq<Binary64>, Seq<char>>(
            match parse(entries[i].0) {
                None => "non-integer level key `"@ + entries[i].0 + "`"@,
                Some(l) => "level "@ + decimal(l as nat) + " out of range (schema has "@ + decimal(n) + ")"@,
            },
        ),
    decreases entries.len(),
{
    let rest = entries.drop_last();
    if i < entries.len() - 1 {
        assert(rest[i] == entries[i]);
        assert forall|j: int| 0 <= j < i implies names_level(#[trigger] rest[j], n) by {
            assert(names_level(entries[j], n));
        }
        first_bad_level_is_told(rest, n, i);
    } else {
        assert forall|j: int| 0 <= j < rest.len() implies names_level(#[trigger] rest[j], n) by {
            assert(names_level(entries[j], n));
        }
        lemma_levels_fill(rest, n);
    }
}

/// A level is described by what the backend echoed under its number, else by
/// what was sent for it.
pub proof fn legend_goes_by_number(legend: Map<Seq<char>, String>, levels: Seq<Seq<char>>, i: int)
    requires
        0 <= i < levels.len(),
    ensures
        legend_of(legend, levels).len() == levels.len(),
        legend.contains_key(decimal(i as nat)) ==> legend_of(legend, levels)[i] == legend[decimal(i as nat)]@,
        !legend.contains_key(decimal(i as nat)) ==> legend_of(legend, levels)[i] == levels[i],
{
}

/// An answer is read as the kind that was asked for, and as no other: what it
/// says is handed on as it is, a probability of yes brought into zero to one.
pub proof fn decoding_hands_on(name: Seq<char>, q: SpecView, a: RawAnswer)
    ensures
        match (q, a) {
            (SpecView::Noul { .. }, RawAnswer::Noul { noul, .. }) => decoded(name, q, a) == Ok::<FieldView, ErrorView>(
                FieldView::Noul { p: noul.clamped() },
            ),
            (SpecView::Choice { criteria, .. }, RawAnswer::Choice { choice, probabilities, confidence }) => match decoded(name, q, a) {
                Ok(f) => f matches FieldView::Choice { chosen, probabilities: ps, confidence: c } && {
                    &&& chosen == choice@
                    &&& c == confidence
                    &&& exists|i: int| 0 <= i < criteria.len() && (#[trigger] criteria[i]).0 == chosen
                    &&& ps.len() == criteria.len()
                    &&& forall|i: int| 0 <= i < ps.len() ==> (#[trigger] ps[i]).0 == criteria[i].0
                    &&& forall|i: int|
                        0 <= i < ps.len() && probabilities@.contains_key(criteria[i].0) ==> (#[trigger] ps[i]).1 == probabilities@[criteria[i].0]
                    &&& forall|i: int|
                        0 <= i < ps.len() && !probabilities@.contains_key(criteria[i].0) ==> (#[trigger] ps[i]).1 == (Binary64 { bits: 0 })
                },
                Err(e) => (forall|i: int| 0 <= i < criteria.len() ==> (#[trigger] criteria[i]).0 != choice@) && e == (ErrorView::SchemaMismatch {
                    question: name,
                    reason: "unknown option `"@ + choice@ + "`"@,
                }),
            },
            (SpecView::Score { criteria, .. }, RawAnswer::Score { score, legend, probabilities, confidence }) => match decoded(name, q, a) {
                Ok(f) => f matches FieldView::Score { value, probabilities: ps, legend: words, confidence: c } && {
                    &&& value == score
                    &&& c == confidence
                    &&& levels_filled(probabilities.items(), criteria.len()) == Ok::<Seq<Binary64>, Seq<char>>(ps)
                    &&& words == legend_of(legend@, criteria)
                },
                Err(e) => levels_filled(probabilities.items(), criteria.len()) matches Err(reason) && e == (ErrorView::SchemaMismatch {
                    question: name,
                    reason,
                }),
            },
            _ => decoded(name, q, a) matches Err(e) && e == (ErrorView::SchemaMismatch {
                question: name,
                reason: "expected "@ + (match q {
                    SpecView::Noul { .. } => "noul"@,
                    SpecView::Choice { .. } => "choice"@,
                    SpecView::Score { .. } => "score"@,
                }) + ", got "@ + (match a {
                    RawAnswer::Noul { .. } => "noul"@,
                    RawAnswer::Choice { .. } => "choice"@,
                    RawAnswer::Score { .. } => "score"@,
                }),
            }),
        },
{
}

/// What answers say is all that they hold.
pub proof fn answers_are_seen_whole(a: RawAnswers, raw: RawAnswer)
    ensures
        a@.model == a.model@,
        a@.usage == a.usage,
        forall|k: Seq<char>|
            (#[trigger] a@.answers.contains_key(k)) == a.answers@.contains_key(k) && (a.answers@.contains_key(k) ==> a@.answers[k]
                == a.answers@[k]@),
        match raw {
            RawAnswer::Noul { noul, confidence } => raw@ == (RawView::Noul { noul, confidence }),
            RawAnswer::Choice { choice, probabilities, confidence } => raw@ matches RawView::Choice {
                choice: c,
                probabilities: ps,
                confidence: f,
            } && c == choice@ && ps == probabilities@ && f == confidence,
            RawAnswer::Score { score, legend, probabilities, confidence } => raw@ matches RawView::Score {
                score: s,
                legend: l,
                probabilities: ps,
                confidence: f,
            } && s == score && ps == probabilities@ && f == confidence && l.dom() == legend@.dom() && forall|k: Seq<char>|
                #[trigger] l.contains_key(k) ==> l[k] == legend@[k]@,
        },
{
    match raw {
        RawAnswer::Noul { .. } => {},
        RawAnswer::Choice { probabilities, .. } => {
            assert(viewed(probabilities@) =~= probabilities@);
        },
        RawAnswer::Score { legend, probabilities, .. } => {
            assert(viewed(probabilities@) =~= probabilities@);
            assert(viewed(legend@).dom() =~= legend@.dom());
        },
    }
}

/// What a field says is all that it holds: the probabilities in place, those
/// of a choice under the keys of their variants, and the levels in place.
pub proof fn fields_are_seen_whole<E: AsChoice>(n: Noul, c: Choice<E>, s: Score, i: int)
    ensures
        n.field() == (FieldView::Noul { p: n.p }),
        c.field() matches FieldView::Choice { chosen, probabilities, confidence } && chosen == c.chosen.wire_key() && confidence == c.confidence
            && probabilities.len() == c.probabilities@.len() && (0 <= i < c.probabilities@.len() ==> probabilities[i] == (
            c.probabilities@[i].0.wire_key(),
            c.probabilities@[i].1,
        )),
        s.field() matches FieldView::Score { value, probabilities, legend, confidence } && value == s.value && probabilities
            == s.probabilities@ && confidence == s.confidence && legend.len() == s.legend@.len() && (0 <= i < s.legend@.len() ==> legend[i]
            == s.legend@[i]@),
        options_of::<E>().len() == E::variants().len(),
        0 <= i < E::variants().len() ==> options_of::<E>()[i] == (E::variants()[i].wire_key(), E::variants()[i].wire_description()),
{
}

/// Each kind of field reads an answer as the question of that kind does.
pub proof fn fields_read_as_their_kind(
    name: Seq<char>,
    instructions: Seq<char>,
    sides: Option<(Seq<char>, Seq<char>)>,
    options: Seq<(Seq<char>, Option<Seq<char>>)>,
    levels: Seq<Seq<char>>,
    a: RawAnswer,
)
    ensures
        decoded(name, SpecView::Noul { instructions, criteria: sides }, a) == decoded_noul(name, a),
        decoded(name, SpecView::Choice { instructions, criteria: options }, a) == decoded_choice(name, options, a),
        decoded(name, SpecView::Score { instructions, criteria: levels }, a) == decoded_score(name, levels, a),
{
}

} // verus!
