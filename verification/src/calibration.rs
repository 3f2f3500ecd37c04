//! Measure how honest a backend's probabilities are.
//!
//! `(predicted probability, what happened)` pairs are read off a recording and
//! counted here; Brier score, log loss and expected calibration error are sums
//! over those pairs. Works for `noul` directly; for `choice` / `score` the
//! pairs are one-vs-rest over all options.
use vstd::prelude::*;
use vstd::string::*;

use crate::answer::RawAnswer;
use crate::binary64::{constants, half, one, zero, Binary64, HALF_BITS};
use crate::json::{as_text, as_truth, as_uint, get_member, json_tree, member, JsonTree};
use crate::numeral::{decimal, decimal_of};
use crate::record::Record;
use crate::sorted_map::SortedMap;
use crate::text::{equal, pad, padded, string_of};

verus! {

// ---------------------------------------------------------------------------
// Pairs
// ---------------------------------------------------------------------------

/// What happened in a recorded case, as far as `question` is concerned.
pub open spec fn outcome_of(r: Record, question: Seq<char>) -> Option<JsonTree> {
    match r.outcome {
        Some(o) => member(json_tree(o), question),
        None => None,
    }
}

/// One pair per option: its probability, and whether it is the one named `key`.
pub open spec fn one_vs_rest(items: Seq<(Seq<char>, Binary64)>, key: Seq<char>) -> Seq<(Binary64, bool)> {
    items.map_values(|e: (Seq<char>, Binary64)| (e.1, e.0 == key))
}

/// The pairs that an answer and what happened make: what happened has to be
/// a boolean for `noul`, the realised option key for `choice`, the realised
/// level for `score`.
pub open spec fn answer_pairs(a: RawAnswer, outcome: JsonTree) -> Seq<(Binary64, bool)> {
    match a {
        RawAnswer::Noul { noul, .. } => match outcome {
            JsonTree::Bool(y) => seq![(noul, y)],
            _ => seq![],
        },
        RawAnswer::Choice { probabilities, .. } => match outcome {
            JsonTree::Str(key) => one_vs_rest(probabilities.items(), key),
            _ => seq![],
        },
        RawAnswer::Score { probabilities, .. } => match outcome {
            JsonTree::UInt(level) => one_vs_rest(probabilities.items(), decimal(level as nat)),
            _ => seq![],
        },
    }
}

/// The pairs of one record: none where it has no outcome or no answer for the
/// question.
pub open spec fn record_pairs(r: Record, question: Seq<char>) -> Seq<(Binary64, bool)> {
    match outcome_of(r, question) {
        Some(o) => if r.answers.answers@.contains_key(question) {
            answer_pairs(r.answers.answers@[question], o)
        } else {
            seq![]
        },
        None => seq![],
    }
}

/// The pairs of a recording, record by record.
pub open spec fn recorded_pairs(rs: Seq<Record>, question: Seq<char>) -> Seq<(Binary64, bool)>
    decreases rs.len(),
{
    if rs.len() == 0 {
        seq![]
    } else {
        recorded_pairs(rs.drop_last(), question) + record_pairs(rs.last(), question)
    }
}

fn push_options(out: &mut Vec<(Binary64, bool)>, probabilities: &SortedMap<String, Binary64>, key: &str)
    ensures
        final(out)@ == old(out)@ + one_vs_rest(probabilities.items(), key@),
{
    let ghost items = probabilities.items();
    let ghost want = one_vs_rest(items, key@);
    let ghost was = out@;
    let n = probabilities.len();
    let mut i: usize = 0;
    assert(out@ =~= was + want.take(0));
    while i < n
        invariant
            i <= n == items.len(),
            items == probabilities.items(),
            want == one_vs_rest(items, key@),
            out@ == was + want.take(i as int),
        decreases n - i,
    {
        let hit = equal(probabilities.key_at(i).as_str(), key);
        out.push((*probabilities.value_at(i), hit));
        assert(out@ =~= was + want.take(i + 1));
        i += 1;
    }
    assert(want.take(n as int) =~= want);
}

fn push_pairs(out: &mut Vec<(Binary64, bool)>, a: &RawAnswer, outcome: &serde_json::Value)
    ensures
        final(out)@ == old(out)@ + answer_pairs(*a, json_tree(*outcome)),
{
    let ghost was = out@;
    match a {
        RawAnswer::Noul { noul, .. } => match as_truth(outcome) {
            Some(y) => {
                out.push((*noul, y));
                assert(out@ =~= was + seq![(*noul, y)]);
            },
            None => {
                assert(out@ =~= was + seq![]);
            },
        },
        RawAnswer::Choice { probabilities, .. } => match as_text(outcome) {
            Some(key) => {
                push_options(out, probabilities, key);
            },
            None => {
                assert(out@ =~= was + seq![]);
            },
        },
        RawAnswer::Score { probabilities, .. } => match as_uint(outcome) {
            Some(level) => {
                push_options(out, probabilities, string_of(decimal_of(level as u128).as_slice()).as_str());
            },
            None => {
                assert(out@ =~= was + seq![]);
            },
        },
    }
}

// ---------------------------------------------------------------------------
// Counts
// ---------------------------------------------------------------------------

/// The bin of a pair: the last one takes in what lies beyond it.
pub open spec fn bin_of(place: usize, n_bins: usize) -> usize {
    if place < n_bins {
        place
    } else {
        (n_bins - 1) as usize
    }
}

/// Whether a threshold of a half calls the outcome right.
pub open spec fn called_right(pair: (Binary64, bool)) -> bool {
    half().at_most(pair.0) == pair.1
}

/// One where something holds, else nothing.
pub open spec fn one_if(b: bool) -> nat {
    if b {
        1
    } else {
        0
    }
}

/// The number of pairs in a bin.
pub open spec fn in_bin(pairs: Seq<(Binary64, bool)>, places: Seq<usize>, n_bins: usize, b: int) -> nat
    decreases pairs.len(),
{
    if pairs.len() == 0 {
        0
    } else {
        in_bin(pairs.drop_last(), places, n_bins, b) + one_if(bin_of(places[pairs.len() - 1], n_bins) == b)
    }
}

/// The number of pairs in a bin whose outcome is positive.
pub open spec fn hits_in_bin(pairs: Seq<(Binary64, bool)>, places: Seq<usize>, n_bins: usize, b: int) -> nat
    decreases pairs.len(),
{
    if pairs.len() == 0 {
        0
    } else {
        hits_in_bin(pairs.drop_last(), places, n_bins, b) + one_if(bin_of(places[pairs.len() - 1], n_bins) == b && pairs.last().1)
    }
}

/// The number of pairs that a threshold of a half calls right.
pub open spec fn right_calls(pairs: Seq<(Binary64, bool)>) -> nat
    decreases pairs.len(),
{
    if pairs.len() == 0 {
        0
    } else {
        right_calls(pairs.drop_last()) + one_if(called_right(pairs.last()))
    }
}

/// The number of pairs whose outcome is positive.
pub open spec fn positives(pairs: Seq<(Binary64, bool)>) -> nat
    decreases pairs.len(),
{
    if pairs.len() == 0 {
        0
    } else {
        positives(pairs.drop_last()) + one_if(pairs.last().1)
    }
}

/// The same pairs with every probability brought into zero to one.
pub open spec fn clamped_pairs(pairs: Seq<(Binary64, bool)>) -> Seq<(Binary64, bool)> {
    pairs.map_values(|p: (Binary64, bool)| (p.0.clamped(), p.1))
}

/// What is counted of a set of predictions.
#[derive(Debug, PartialEq, Eq)]
pub struct Tally {
    pub n: usize,
    /// Predictions that a threshold of a half calls right.
    pub correct: usize,
    /// Positive outcomes.
    pub positives: usize,
    /// Per bin: how many predictions fall into it.
    pub counts: Vec<usize>,
    /// Per bin: how many of them turned out positive.
    pub hits: Vec<usize>,
    /// The bin of each prediction.
    pub bins: Vec<usize>,
}

/// A probability, and what happened, brought into zero to one.
pub fn clamp_pairs(pairs: &Vec<(Binary64, bool)>) -> (r: Vec<(Binary64, bool)>)
    ensures
        r@ == clamped_pairs(pairs@),
{
    let ghost want = clamped_pairs(pairs@);
    let n = pairs.len();
    let mut out: Vec<(Binary64, bool)> = Vec::new();
    let mut i: usize = 0;
    while i < n
        invariant
            i <= n == pairs@.len(),
            want == clamped_pairs(pairs@),
            out@ == want.take(i as int),
        decreases n - i,
    {
        let p = pairs[i];
        out.push((p.0.clamp01(), p.1));
        assert(out@ =~= want.take(i + 1));
        i += 1;
    }
    assert(want.take(n as int) =~= want);
    out
}

impl Tally {
    /// Count `pairs` into `n_bins` bins (at least one). `places` holds, for
    /// each pair, its probability times the number of bins, rounded down.
    pub fn from_pairs(pairs: &Vec<(Binary64, bool)>, places: &Vec<usize>, n_bins: usize) -> (r: Self)
        requires
            places@.len() == pairs@.len(),
        ensures
            ({
                let k: usize = if n_bins == 0 {
                    1
                } else {
                    n_bins
                };
                &&& r.n == pairs@.len()
                &&& r.correct == right_calls(pairs@)
                &&& r.positives == positives(pairs@)
                &&& r.counts@.len() == k
                &&& r.hits@.len() == k
                &&& forall|b: int| 0 <= b < k ==> #[trigger] r.counts@[b] == in_bin(pairs@, places@, k, b)
                &&& forall|b: int| 0 <= b < k ==> #[trigger] r.hits@[b] == hits_in_bin(pairs@, places@, k, b)
                &&& r.bins@ == Seq::new(pairs@.len(), |i: int| bin_of(places@[i], k))
            }),
    {
        let k: usize = if n_bins == 0 {
            1
        } else {
            n_bins
        };
        let n = pairs.len();
        let mut counts: Vec<usize> = Vec::new();
        let mut hits: Vec<usize> = Vec::new();
        let mut b: usize = 0;
        while b < k
            invariant
                b <= k,
                counts@.len() == b,
                hits@.len() == b,
                forall|j: int| 0 <= j < b ==> #[trigger] counts@[j] == 0,
                forall|j: int| 0 <= j < b ==> #[trigger] hits@[j] == 0,
            decreases k - b,
        {
            counts.push(0);
            hits.push(0);
            b += 1;
        }
        let mut correct: usize = 0;
        let mut pos: usize = 0;
        let mut bins: Vec<usize> = Vec::new();
        let ghost all = pairs@;
        let ghost ps = places@;
        let mut i: usize = 0;
        assert(all.take(0) =~= seq![]);
        while i < n
            invariant
                i <= n == all.len(),
                all == pairs@,
                ps == places@,
                ps.len() == n,
                k > 0,
                counts@.len() == k,
                hits@.len() == k,
                correct == right_calls(all.take(i as int)),
                pos == positives(all.take(i as int)),
                correct <= i,
                pos <= i,
                forall|b: int| 0 <= b < k ==> #[trigger] counts@[b] == in_bin(all.take(i as int), ps, k, b) && counts@[b] <= i,
                forall|b: int| 0 <= b < k ==> #[trigger] hits@[b] == hits_in_bin(all.take(i as int), ps, k, b) && hits@[b] <= i,
                bins@ == Seq::new(i as nat, |j: int| bin_of(ps[j], k)),
            decreases n - i,
        {
            let (p, y) = pairs[i];
            let bin = if places[i] < k {
                places[i]
            } else {
                k - 1
            };
            assert(all.take(i + 1).drop_last() =~= all.take(i as int));
            assert(all.take(i + 1).last() == (p, y));
            assert(counts@[bin as int] <= i && hits@[bin as int] <= i);
            if p.ge(Binary64 { bits: HALF_BITS }) == y {
                correct += 1;
            }
            let c: usize = counts[bin];
            counts.set(bin, c + 1);
            if y {
                pos += 1;
                let h: usize = hits[bin];
                hits.set(bin, h + 1);
            }
            bins.push(bin);
            assert(bins@ =~= Seq::new((i + 1) as nat, |j: int| bin_of(ps[j], k)));
            i += 1;
        }
        assert(all.take(n as int) =~= all);
        Tally { n, correct, positives: pos, counts, hits, bins }
    }
}

// ---------------------------------------------------------------------------
// The report
// ---------------------------------------------------------------------------

/// One reliability bin.
#[derive(Debug, Clone, Copy, PartialEq, Eq, Structural)]
pub struct Bin {
    pub lo: Binary64,
    pub hi: Binary64,
    pub count: usize,
    /// Mean predicted probability in the bin.
    pub mean_p: Binary64,
    /// Empirical frequency of the positive outcome in the bin.
    pub frac_pos: Binary64,
}

/// Summary statistics of a set of probabilistic predictions.
#[derive(Debug, Clone, PartialEq)]
pub struct CalibrationReport {
    pub n: usize,
    /// Mean squared error between probability and outcome. 0 = perfect,
    /// 0.25 = always saying 0.5.
    pub brier: Binary64,
    /// Mean negative log-likelihood (natural log). Lower is better.
    pub log_loss: Binary64,
    /// Expected calibration error: count-weighted mean |mean_p − frac_pos|.
    pub ece: Binary64,
    /// Accuracy at a 0.5 threshold.
    pub accuracy: Binary64,
    /// Base rate of positives.
    pub base_rate: Binary64,
    pub bins: Vec<Bin>,
}

/// The numbers of a report's first line as text.
#[derive(Debug)]
pub struct Headline {
    pub brier: String,
    pub log_loss: String,
    pub ece: String,
    pub accuracy: String,
    pub base_rate: String,
}

/// The numbers of a bin as text, and the length of its bar.
#[derive(Debug)]
pub struct BinText {
    pub lo: String,
    pub hi: String,
    pub mean_p: String,
    pub frac_pos: String,
    pub gap: String,
    pub bar: usize,
}

/// A bar of at most twenty characters.
pub open spec fn bar_text(n: usize) -> Seq<char> {
    Seq::new(
        if n < 20 {
            n as nat
        } else {
            20nat
        },
        |i: int| '#',
    )
}

/// The line of a bin.
pub open spec fn bin_line(count: usize, t: BinText) -> Seq<char> {
    if count == 0 {
        "  ["@ + t.lo@ + ","@ + t.hi@ + ")      0        -          -       -\n"@
    } else {
        "  ["@ + t.lo@ + ","@ + t.hi@ + ") "@ + padded(decimal(count as nat), 6) + "   "@ + t.mean_p@ + "    "@ + t.frac_pos@ + "   "@
            + t.gap@ + "  "@ + bar_text(t.bar) + "\n"@
    }
}

pub open spec fn bin_lines(bins: Seq<Bin>, shown: Seq<BinText>) -> Seq<char>
    decreases bins.len(),
{
    if bins.len() == 0 {
        seq![]
    } else {
        bin_lines(bins.drop_last(), shown) + bin_line(bins.last().count, shown[bins.len() - 1])
    }
}

/// A report as text.
pub open spec fn report_text(r: CalibrationReport, h: Headline, shown: Seq<BinText>) -> Seq<char> {
    "n="@ + decimal(r.n as nat) + "  brier="@ + h.brier@ + "  log_loss="@ + h.log_loss@ + "  ece="@ + h.ece@ + "  acc@0.5="@ + h.accuracy@
        + "  base_rate="@ + h.base_rate@ + "\n"@ + "  bin          count   mean_p   frac_pos   |gap|\n"@ + bin_lines(r.bins@, shown)
}

fn bar(n: usize) -> (r: String)
    ensures
        r@ == bar_text(n),
{
    let len: usize = if n < 20 {
        n
    } else {
        20
    };
    let mut out = String::new();
    let mut i: usize = 0;
    while i < len
        invariant
            i <= len,
            out@ == Seq::new(i as nat, |j: int| '#'),
        decreases len - i,
    {
        out.push('#');
        assert(out@ =~= Seq::new((i + 1) as nat, |j: int| '#'));
        i += 1;
    }
    assert(out@ =~= bar_text(n));
    out
}

fn push_bin(out: &mut String, count: usize, t: &BinText)
    ensures
        final(out)@ == old(out)@ + bin_line(count, *t),
{
    let ghost was = out@;
    out.push_str("  [");
    out.push_str(t.lo.as_str());
    out.push_str(",");
    out.push_str(t.hi.as_str());
    if count == 0 {
        out.push_str(")      0        -          -       -\n");
    } else {
        out.push_str(") ");
        out.push_str(pad(string_of(decimal_of(count as u128).as_slice()).as_str(), 6).as_str());
        out.push_str("   ");
        out.push_str(t.mean_p.as_str());
        out.push_str("    ");
        out.push_str(t.frac_pos.as_str());
        out.push_str("   ");
        out.push_str(t.gap.as_str());
        out.push_str("  ");
        out.push_str(bar(t.bar).as_str());
        out.push_str("\n");
    }
    assert(out@ =~= was + bin_line(count, *t));
}

impl CalibrationReport {
    /// The pairs of a recording for one question.
    ///
    /// `outcome[question]` must be present in a record and be:
    /// * a bool for `noul`;
    /// * the realised option key (string) for `choice`;
    /// * the realised level index (integer) for `score`.
    ///
    /// For `choice`/`score` the pair is `(P(realised option), true)` plus
    /// `(P(other option), false)` for every other option, i.e. one-vs-rest
    /// over all options — the standard multiclass reliability view.
    pub fn from_records(records: &Vec<Record>, question: &str) -> (r: Vec<(Binary64, bool)>)
        ensures
            r@ == recorded_pairs(records@, question@),
    {
        let mut pairs: Vec<(Binary64, bool)> = Vec::new();
        let n = records.len();
        let mut i: usize = 0;
        assert(records@.take(0) =~= seq![]);
        while i < n
            invariant
                i <= n == records@.len(),
                pairs@ == recorded_pairs(records@.take(i as int), question@),
            decreases n - i,
        {
            assert(records@.take(i + 1).drop_last() =~= records@.take(i as int));
            assert(records@.take(i + 1).last() == records@[i as int]);
            let ghost was = pairs@;
            let r = &records[i];
            let happened = match &r.outcome {
                Some(o) => get_member(o, question),
                None => None,
            };
            assert(was + seq![] =~= was);
            match happened {
                Some(o) => {
                    let name: String = question.to_owned();
                    match r.answers.answers.get(&name) {
                        Some(a) => {
                            push_pairs(&mut pairs, a, o);
                        },
                        None => {},
                    }
                },
                None => {},
            }
            i += 1;
        }
        assert(records@.take(n as int) =~= records@);
        pairs
    }

    /// A compact text rendering — reliability table plus headline numbers.
    pub fn render(&self, head: &Headline, shown: &Vec<BinText>) -> (r: String)
        requires
            shown@.len() == self.bins@.len(),
        ensures
            r@ == report_text(*self, *head, shown@),
    {
        let mut s = "n=".to_owned();
        s.push_str(string_of(decimal_of(self.n as u128).as_slice()).as_str());
        s.push_str("  brier=");
        s.push_str(head.brier.as_str());
        s.push_str("  log_loss=");
        s.push_str(head.log_loss.as_str());
        s.push_str("  ece=");
        s.push_str(head.ece.as_str());
        s.push_str("  acc@0.5=");
        s.push_str(head.accuracy.as_str());
        s.push_str("  base_rate=");
        s.push_str(head.base_rate.as_str());
        s.push_str("\n");
        s.push_str("  bin          count   mean_p   frac_pos   |gap|\n");
        let ghost top = s@;
        let n = self.bins.len();
        let mut i: usize = 0;
        assert(self.bins@.take(0) =~= seq![]);
        assert(s@ =~= top + bin_lines(self.bins@.take(0), shown@));
        while i < n
            invariant
                i <= n == self.bins@.len(),
                shown@.len() == n,
                s@ == top + bin_lines(self.bins@.take(i as int), shown@),
            decreases n - i,
        {
            assert(self.bins@.take(i + 1).drop_last() =~= self.bins@.take(i as int));
            assert(self.bins@.take(i + 1).last() == self.bins@[i as int]);
            let ghost lines = bin_lines(self.bins@.take(i as int), shown@);
            push_bin(&mut s, self.bins[i].count, &shown[i]);
            assert(s@ =~= top + (lines + bin_line(self.bins@[i as int].count, shown@[i as int])));
            i += 1;
        }
        assert(self.bins@.take(n as int) =~= self.bins@);
        s
    }
}

// ---------------------------------------------------------------------------
// Laws
// ---------------------------------------------------------------------------

/// The sum of the first `k` counts.
pub open spec fn total(f: spec_fn(int) -> nat, k: nat) -> nat
    decreases k,
{
    if k == 0 {
        0
    } else {
        total(f, (k - 1) as nat) + f(k - 1)
    }
}

proof fn lemma_total_shift(f: spec_fn(int) -> nat, g: spec_fn(int) -> nat, at: int, by: nat, k: nat)
    requires
        forall|b: int| 0 <= b < k ==> #[trigger] f(b) == g(b) + (if b == at {
            by
        } else {
            0nat
        }),
    ensures
        total(f, k) == total(g, k) + (if 0 <= at < k {
            by
        } else {
            0nat
        }),
    decreases k,
{
    if k > 0 {
        lemma_total_shift(f, g, at, by, (k - 1) as nat);
        assert(f(k - 1) == g(k - 1) + (if k - 1 == at {
            by
        } else {
            0nat
        }));
    }
}

proof fn lemma_total_zero(f: spec_fn(int) -> nat, k: nat)
    requires
        forall|b: int| #[trigger] f(b) == 0,
    ensures
        total(f, k) == 0,
    decreases k,
{
    if k > 0 {
        lemma_total_zero(f, (k - 1) as nat);
        assert(f(k - 1) == 0);
    }
}

/// Every prediction falls into exactly one bin: the counts of all bins add up
/// to the number of predictions, and the positive ones to the number of
/// positive outcomes.
pub proof fn bins_add_up(pairs: Seq<(Binary64, bool)>, places: Seq<usize>, n_bins: usize)
    requires
        n_bins > 0,
    ensures
        total(|b: int| in_bin(pairs, places, n_bins, b), n_bins as nat) == pairs.len(),
        total(|b: int| hits_in_bin(pairs, places, n_bins, b), n_bins as nat) == positives(pairs),
    decreases pairs.len(),
{
    let counts = |b: int| in_bin(pairs, places, n_bins, b);
    let hits = |b: int| hits_in_bin(pairs, places, n_bins, b);
    if pairs.len() == 0 {
        lemma_total_zero(counts, n_bins as nat);
        lemma_total_zero(hits, n_bins as nat);
    } else {
        let rest = pairs.drop_last();
        bins_add_up(rest, places, n_bins);
        let at = bin_of(places[pairs.len() - 1], n_bins) as int;
        lemma_total_shift(counts, |b: int| in_bin(rest, places, n_bins, b), at, 1, n_bins as nat);
        lemma_total_shift(hits, |b: int| hits_in_bin(rest, places, n_bins, b), at, one_if(pairs.last().1), n_bins as nat);
    }
}

/// No more predictions of a bin turn out positive than fall into it.
pub proof fn hits_are_counted(pairs: Seq<(Binary64, bool)>, places: Seq<usize>, n_bins: usize, b: int)
    ensures
        hits_in_bin(pairs, places, n_bins, b) <= in_bin(pairs, places, n_bins, b),
    decreases pairs.len(),
{
    if pairs.len() > 0 {
        hits_are_counted(pairs.drop_last(), places, n_bins, b);
    }
}

/// What one record adds, read off the record itself: nothing where it has no
/// outcome or no answer for the question; for a yes/no answer the probability
/// and what happened; for a choice or a score every option with its
/// probability, in order, marked where it is the one that was realised; nothing
/// where what happened is of another kind.
pub proof fn pairs_of_a_record(r: Record, question: Seq<char>)
    ensures
        match (r.outcome, r.answers.answers@.contains_key(question)) {
            (Some(o), true) => match (json_tree(o), r.answers.answers@[question]) {
                (JsonTree::Obj(m), a) if m.contains_key(question) => match (a, m[question]) {
                    (RawAnswer::Noul { noul, .. }, JsonTree::Bool(y)) => recorded_pairs(seq![r], question) == seq![(noul, y)],
                    (RawAnswer::Choice { probabilities, .. }, JsonTree::Str(key)) => marks_the_realised(
                        recorded_pairs(seq![r], question),
                        probabilities.items(),
                        key,
                    ),
                    (RawAnswer::Score { probabilities, .. }, JsonTree::UInt(level)) => marks_the_realised(
                        recorded_pairs(seq![r], question),
                        probabilities.items(),
                        decimal(level as nat),
                    ),
                    _ => recorded_pairs(seq![r], question).len() == 0,
                },
                _ => recorded_pairs(seq![r], question).len() == 0,
            },
            _ => recorded_pairs(seq![r], question).len() == 0,
        },
{
    lemma_pairs_of_one(r, question);
}

/// One pair for each item, in the order of the items: its probability, and
/// whether its key is `key`.
pub open spec fn marks_the_realised(pairs: Seq<(Binary64, bool)>, items: Seq<(Seq<char>, Binary64)>, key: Seq<char>) -> bool {
    &&& pairs.len() == items.len()
    &&& forall|i: int| 0 <= i < items.len() ==> (#[trigger] pairs[i]).0 == items[i].1
    &&& forall|i: int| 0 <= i < items.len() ==> ((#[trigger] pairs[i]).1 <==> items[i].0 == key)
}

proof fn lemma_pairs_of_one(r: Record, question: Seq<char>)
    ensures
        recorded_pairs(seq![r], question) == record_pairs(r, question),
{
    let one = seq![r];
    assert(one.drop_last() =~= seq![]);
    assert(recorded_pairs(one.drop_last(), question) =~= seq![]);
    assert(recorded_pairs(one, question) =~= record_pairs(r, question));
}

/// The pairs of a recording are those of its parts, one after the other: no
/// record is passed over, and none counts twice. With what one record adds,
/// this settles the pairs of every recording.
pub proof fn pairs_of_parts(a: Seq<Record>, b: Seq<Record>, question: Seq<char>)
    ensures
        recorded_pairs(a + b, question) == recorded_pairs(a, question) + recorded_pairs(b, question),
        forall|r: Record| #[trigger] recorded_pairs(seq![r], question) == record_pairs(r, question),
    decreases b.len(),
{
    if b.len() == 0 {
        assert(a + b =~= a);
        assert(recorded_pairs(a, question) + recorded_pairs(b, question) =~= recorded_pairs(a, question));
    } else {
        assert((a + b).drop_last() =~= a + b.drop_last());
        pairs_of_parts(a, b.drop_last(), question);
        assert(recorded_pairs(a + b, question) =~= recorded_pairs(a, question) + recorded_pairs(b, question));
    }
    assert forall|r: Record| #[trigger] recorded_pairs(seq![r], question) == record_pairs(r, question) by {
        lemma_pairs_of_one(r, question);
    }
}

/// The number of pairs is the sum of what the records add, and each pair of a
/// record is found among those of the recording.
pub proof fn every_record_counts(rs: Seq<Record>, question: Seq<char>)
    ensures
        recorded_pairs(rs, question).len() == total(|i: int| recorded_pairs(seq![rs[i]], question).len(), rs.len()),
        forall|i: int, j: int|
            0 <= i < rs.len() && 0 <= j < recorded_pairs(seq![rs[i]], question).len() ==> recorded_pairs(rs, question).contains(
                #[trigger] recorded_pairs(seq![rs[i]], question)[j],
            ),
    decreases rs.len(),
{
    let f = |i: int| recorded_pairs(seq![rs[i]], question).len();
    let all = recorded_pairs(rs, question);
    if rs.len() > 0 {
        let front = rs.drop_last();
        let last = rs.len() - 1;
        let g = |i: int| recorded_pairs(seq![front[i]], question).len();
        every_record_counts(front, question);
        lemma_pairs_of_one(rs[last], question);
        assert(forall|i: int| 0 <= i < last ==> front[i] == rs[i]);
        lemma_total_same(f, g, last as nat);
        let before = recorded_pairs(front, question);
        assert forall|i: int, j: int| 0 <= i < rs.len() && 0 <= j < recorded_pairs(seq![rs[i]], question).len() implies all.contains(
            #[trigger] recorded_pairs(seq![rs[i]], question)[j],
        ) by {
            let x = recorded_pairs(seq![rs[i]], question)[j];
            if i < last {
                assert(front[i] == rs[i]);
                assert(recorded_pairs(seq![front[i]], question)[j] == x);
                let k = choose|k: int| 0 <= k < before.len() && before[k] == x;
                assert(all[k] == x);
            } else {
                assert(all[before.len() + j] == x);
            }
        }
    }
}

proof fn lemma_total_same(f: spec_fn(int) -> nat, g: spec_fn(int) -> nat, k: nat)
    requires
        forall|b: int| 0 <= b < k ==> #[trigger] f(b) == g(b),
    ensures
        total(f, k) == total(g, k),
    decreases k,
{
    if k > 0 {
        lemma_total_same(f, g, (k - 1) as nat);
        assert(f(k - 1) == g(k - 1));
    }
}

/// How often something holds over a list.
pub open spec fn times(s: Seq<bool>) -> nat {
    s.to_multiset().count(true)
}

proof fn lemma_times(s: Seq<bool>, b: bool)
    ensures
        times(s.push(b)) == times(s) + (if b {
            1nat
        } else {
            0nat
        }),
{
    broadcast use vstd::seq_lib::group_to_multiset_ensures;
}

proof fn lemma_times_none()
    ensures
        times(seq![]) == 0,
{
    broadcast use vstd::seq_lib::group_to_multiset_ensures;

    let s: Seq<bool> = seq![];
    assert(s.to_multiset().len() == 0);
}

/// The counts of a tally say what they are named for: positive outcomes,
/// predictions whose call at a half agrees with what happened, predictions
/// whose place, or the last bin where it lies beyond, is the bin, and those of
/// them with a positive outcome.
pub proof fn counts_count(pairs: Seq<(Binary64, bool)>, places: Seq<usize>, n_bins: usize, b: int)
    requires
        n_bins > 0,
        0 <= b < n_bins,
    ensures
        positives(pairs) == times(pairs.map_values(|p: (Binary64, bool)| p.1)),
        right_calls(pairs) == times(pairs.map_values(|p: (Binary64, bool)| half().at_most(p.0) == p.1)),
        in_bin(pairs, places, n_bins, b) == times(
            Seq::new(pairs.len(), |i: int| places[i] == b || (places[i] >= n_bins && b == n_bins - 1)),
        ),
        hits_in_bin(pairs, places, n_bins, b) == times(
            Seq::new(pairs.len(), |i: int| (places[i] == b || (places[i] >= n_bins && b == n_bins - 1)) && pairs[i].1),
        ),
    decreases pairs.len(),
{
    let f = |p: (Binary64, bool)| p.1;
    let g = |p: (Binary64, bool)| half().at_most(p.0) == p.1;
    let here = |i: int| places[i] == b || (places[i] >= n_bins && b == n_bins - 1);
    let hit = |i: int| (places[i] == b || (places[i] >= n_bins && b == n_bins - 1)) && pairs[i].1;
    let n = pairs.len();
    if n == 0 {
        lemma_times_none();
        assert(pairs.map_values(f) =~= seq![]);
        assert(pairs.map_values(g) =~= seq![]);
        assert(Seq::new(n, here) =~= seq![]);
        assert(Seq::new(n, hit) =~= seq![]);
    } else {
        let rest = pairs.drop_last();
        let last = pairs.last();
        let hit_before = |i: int| (places[i] == b || (places[i] >= n_bins && b == n_bins - 1)) && rest[i].1;
        counts_count(rest, places, n_bins, b);
        assert(pairs.map_values(f) =~= rest.map_values(f).push(f(last)));
        assert(pairs.map_values(g) =~= rest.map_values(g).push(g(last)));
        assert(Seq::new(n, here) =~= Seq::new(rest.len(), here).push(here(n - 1)));
        assert(Seq::new(n, hit) =~= Seq::new(rest.len(), hit_before).push(hit(n - 1)));
        lemma_times(rest.map_values(f), f(last));
        lemma_times(rest.map_values(g), g(last));
        lemma_times(Seq::new(rest.len(), here), here(n - 1));
        lemma_times(Seq::new(rest.len(), hit_before), hit(n - 1));
    }
}

/// Clamping leaves every outcome as it is, and every probability that lies from
/// zero to one.
pub proof fn clamping_keeps_pairs(pairs: Seq<(Binary64, bool)>)
    ensures
        clamped_pairs(pairs).len() == pairs.len(),
        forall|i: int| 0 <= i < pairs.len() ==> (#[trigger] clamped_pairs(pairs)[i]).1 == pairs[i].1,
        forall|i: int|
            0 <= i < pairs.len() && zero().at_most(pairs[i].0) && pairs[i].0.at_most(one()) ==> (#[trigger] clamped_pairs(pairs)[i]).0 == pairs[i].0,
        forall|i: int| 0 <= i < pairs.len() && pairs[i].0.below(zero()) ==> (#[trigger] clamped_pairs(pairs)[i]).0 == zero(),
        forall|i: int| 0 <= i < pairs.len() && one().below(pairs[i].0) ==> (#[trigger] clamped_pairs(pairs)[i]).0 == one(),
{
    constants();
    vstd::arithmetic::power2::lemma_pow2_pos(1074);
}

/// The line of a bin shows its bounds and, where predictions fall into it, how
/// many, their mean, how often they were right and the gap between the two, in
/// this order; a bin without any shows dashes.
pub proof fn bin_line_shows(count: usize, t: BinText)
    ensures
        count > 0 ==> exists|room: Seq<char>, bar: Seq<char>|
            bin_line(count, t) == #[trigger] ("  ["@ + t.lo@ + ","@ + t.hi@ + ") "@ + room + decimal(count as nat) + "   "@ + t.mean_p@ + "    "@
                + t.frac_pos@ + "   "@ + t.gap@ + "  "@ + bar + "\n"@) && is_run(room, ' ') && is_run(bar, '#') && (t.bar <= 20 ==> bar.len()
                == t.bar) && (t.bar > 20 ==> bar.len() == 20) && (decimal(count as nat).len() < 6 ==> room.len() + decimal(count as nat).len() == 6)
                && (decimal(count as nat).len() >= 6 ==> room.len() == 0),
        count == 0 ==> bin_line(count, t) == "  ["@ + t.lo@ + ","@ + t.hi@ + ")      0        -          -       -\n"@,
{
    if count > 0 {
        let d = decimal(count as nat);
        let room = Seq::new(
            if d.len() < 6 {
                (6 - d.len()) as nat
            } else {
                0nat
            },
            |i: int| ' ',
        );
        let bar = bar_text(t.bar);
        assert(padded(d, 6) =~= room + d);
        assert(bin_line(count, t) =~= "  ["@ + t.lo@ + ","@ + t.hi@ + ") "@ + room + d + "   "@ + t.mean_p@ + "    "@ + t.frac_pos@ + "   "@ + t.gap@
            + "  "@ + bar + "\n"@);
        assert(is_run(room, ' ') && is_run(bar, '#'));
    }
}

/// Nothing but `c`.
pub open spec fn is_run(s: Seq<char>, c: char) -> bool {
    forall|i: int| 0 <= i < s.len() ==> #[trigger] s[i] == c
}

/// A report starts with its numbers under their names, and then shows the line
/// of each bin, in order: behind the lines of the bins before it stands its own.
pub proof fn report_shows_every_bin(r: CalibrationReport, h: Headline, shown: Seq<BinText>, i: int)
    requires
        shown.len() == r.bins@.len(),
    ensures
        ({
            let head = "n="@ + decimal(r.n as nat) + "  brier="@ + h.brier@ + "  log_loss="@ + h.log_loss@ + "  ece="@ + h.ece@ + "  acc@0.5="@
                + h.accuracy@ + "  base_rate="@ + h.base_rate@ + "\n"@ + "  bin          count   mean_p   frac_pos   |gap|\n"@;
            &&& 0 <= i < r.bins@.len() ==> exists|rest: Seq<char>|
                report_text(r, h, shown) == #[trigger] (head + bin_lines(r.bins@.take(i), shown) + bin_line(r.bins@[i].count, shown[i]) + rest)
            &&& r.bins@.len() == 0 ==> report_text(r, h, shown) == head
        }),
        bin_lines(seq![], shown).len() == 0,
        r.bins@.len() > 0 ==> exists|front: Seq<char>|
            report_text(r, h, shown) == #[trigger] (front + bin_line(r.bins@.last().count, shown.last())),
{
    let head = "n="@ + decimal(r.n as nat) + "  brier="@ + h.brier@ + "  log_loss="@ + h.log_loss@ + "  ece="@ + h.ece@ + "  acc@0.5="@ + h.accuracy@
        + "  base_rate="@ + h.base_rate@ + "\n"@ + "  bin          count   mean_p   frac_pos   |gap|\n"@;
    assert(report_text(r, h, shown) =~= head + bin_lines(r.bins@, shown));
    if r.bins@.len() > 0 {
        let front = head + bin_lines(r.bins@.drop_last(), shown);
        assert(report_text(r, h, shown) =~= front + bin_line(r.bins@.last().count, shown.last()));
    } else {
        assert(bin_lines(r.bins@, shown) =~= seq![]);
    }
    if 0 <= i < r.bins@.len() {
        lemma_bin_lines(r.bins@, shown, i);
        let before = bin_lines(r.bins@.take(i), shown);
        let line = bin_line(r.bins@[i].count, shown[i]);
        let rest = choose|rest: Seq<char>| bin_lines(r.bins@, shown) == #[trigger] (before + line + rest);
        assert(report_text(r, h, shown) =~= head + before + line + rest);
    }
}

proof fn lemma_bin_lines(bins: Seq<Bin>, shown: Seq<BinText>, i: int)
    requires
        0 <= i < bins.len(),
    ensures
        exists|rest: Seq<char>| bin_lines(bins, shown) == #[trigger] (bin_lines(bins.take(i), shown) + bin_line(bins[i].count, shown[i]) + rest),
    decreases bins.len(),
{
    let front = bins.drop_last();
    let before = bin_lines(bins.take(i), shown);
    let line = bin_line(bins[i].count, shown[i]);
    if i == bins.len() - 1 {
        assert(bins.take(i) =~= front);
        assert(bin_lines(bins, shown) =~= before + line + seq![]);
    } else {
        lemma_bin_lines(front, shown, i);
        assert(front.take(i) =~= bins.take(i));
        let rest = choose|rest: Seq<char>| bin_lines(front, shown) == #[trigger] (before + line + rest);
        let last = bin_line(bins.last().count, shown[bins.len() - 1]);
        assert(bin_lines(bins, shown) =~= before + line + (rest + last));
    }
}

} // verus!
