//! Helpers for writing mock rules tersely.
use vstd::prelude::*;
use vstd::string::*;

use crate::answer::{legend_of, levels_filled, RawAnswer};
use crate::binary64::{constants, greatest, greatest_is_last_maximum, greatest_of, zero, Binary64};
use crate::numeral::{decimal, decimal_is_injective, decimal_of, parse_of_decimal};
use crate::sorted_map::{SortedMap, viewed};
use crate::text::{string_of, strings};

verus! {

/// A `noul` answer.
pub fn noul(p: Binary64) -> (r: RawAnswer)
    ensures
        r == (RawAnswer::Noul { noul: p, confidence: None }),
{
    RawAnswer::Noul { noul: p, confidence: None }
}

/// The probabilities of entries.
pub open spec fn weights(items: Seq<(Seq<char>, Binary64)>) -> Seq<Binary64> {
    items.map_values(|e: (Seq<char>, Binary64)| e.1)
}

/// A `choice` answer from normalised probabilities; the arg-max is chosen
/// automatically, the last one in key order where several are greatest.
pub fn choice(probabilities: SortedMap<String, Binary64>) -> (r: RawAnswer)
    requires
        probabilities@.len() >= 2 ==> forall|k: Seq<char>| #[trigger] probabilities@.contains_key(k) ==> !probabilities@[k].is_nan(),
    ensures
        r matches RawAnswer::Choice { choice, probabilities: ps, confidence } && ps == probabilities && ({
            let items = probabilities.items();
            if items.len() == 0 {
                choice@ == Seq::<char>::empty() && confidence == zero()
            } else {
                (choice@, confidence) == items[greatest(weights(items), items.len())]
            }
        }),
{
    let ghost items = probabilities.items();
    let n = probabilities.len();
    let mut ps: Vec<Binary64> = Vec::new();
    let mut i: usize = 0;
    while i < n
        invariant
            i <= n == items.len(),
            items == probabilities.items(),
            ps@ == weights(items).take(i as int),
        decreases n - i,
    {
        ps.push(*probabilities.value_at(i));
        assert(ps@ =~= weights(items).take(i + 1));
        i += 1;
    }
    assert(ps@ =~= weights(items));
    if n == 0 {
        return RawAnswer::Choice { choice: String::new(), probabilities, confidence: Binary64 { bits: 0 } };
    }
    let k = greatest_of(&ps);
    let choice = probabilities.key_at(k).clone();
    let confidence = *probabilities.value_at(k);
    RawAnswer::Choice { choice, probabilities, confidence }
}

/// The greatest of numbers and zero.
pub open spec fn largest(ps: Seq<Binary64>) -> Binary64
    decreases ps.len(),
{
    if ps.len() == 0 {
        zero()
    } else {
        let kept = largest(ps.drop_last());
        if kept.below(ps.last()) {
            ps.last()
        } else {
            kept
        }
    }
}

/// Values under their numbers.
pub open spec fn numbered<V>(vs: Seq<V>) -> Map<Seq<char>, V>
    decreases vs.len(),
{
    if vs.len() == 0 {
        Map::empty()
    } else {
        numbered(vs.drop_last()).insert(decimal((vs.len() - 1) as nat), vs.last())
    }
}

/// The probabilities under the numbers of their levels.
pub fn number_levels(ps: &Vec<Binary64>) -> (r: SortedMap<String, Binary64>)
    ensures
        r@ == numbered(ps@),
{
    let n = ps.len();
    let mut out: SortedMap<String, Binary64> = SortedMap::new();
    let mut i: usize = 0;
    assert(ps@.take(0) =~= seq![]);
    while i < n
        invariant
            i <= n == ps@.len(),
            out@ == numbered(ps@.take(i as int)),
        decreases n - i,
    {
        assert(ps@.take(i + 1).drop_last() =~= ps@.take(i as int));
        assert(ps@.take(i + 1).last() == ps@[i as int]);
        out.insert(string_of(decimal_of(i as u128).as_slice()), ps[i]);
        i += 1;
    }
    assert(ps@.take(n as int) =~= ps@);
    out
}

/// The descriptions under the numbers of their levels.
pub fn number_labels(labels: &Vec<String>) -> (r: SortedMap<String, String>)
    ensures
        viewed(r@) == numbered(strings(labels@)),
{
    let ghost ls = strings(labels@);
    let n = labels.len();
    let mut out: SortedMap<String, String> = SortedMap::new();
    let mut i: usize = 0;
    assert(ls.take(0) =~= seq![]);
    assert(viewed(out@) =~= Map::empty());
    while i < n
        invariant
            i <= n == labels@.len(),
            ls == strings(labels@),
            viewed(out@) == numbered(ls.take(i as int)),
        decreases n - i,
    {
        assert(ls.take(i + 1).drop_last() =~= ls.take(i as int));
        assert(ls.take(i + 1).last() == labels@[i as int]@);
        let ghost before = out@;
        out.insert(string_of(decimal_of(i as u128).as_slice()), labels[i].clone());
        assert(viewed(out@) =~= viewed(before).insert(decimal(i as nat), labels@[i as int]@));
        i += 1;
    }
    assert(ls.take(n as int) =~= ls);
    out
}

/// A `score` answer from normalised per-level probabilities (index 0 =
/// lowest) and the probability-weighted level.
pub fn score(probs: &Vec<Binary64>, value: Binary64, legend: &Vec<String>) -> (r: RawAnswer)
    ensures
        r matches RawAnswer::Score { score, legend: l, probabilities, confidence } && score == value && viewed(l@) == numbered(strings(legend@))
            && probabilities@ == numbered(probs@) && confidence == largest(probs@),
{
    let n = probs.len();
    let mut confidence = Binary64 { bits: 0 };
    let mut i: usize = 0;
    assert(probs@.take(0) =~= seq![]);
    while i < n
        invariant
            i <= n == probs@.len(),
            confidence == largest(probs@.take(i as int)),
        decreases n - i,
    {
        assert(probs@.take(i + 1).drop_last() =~= probs@.take(i as int));
        assert(probs@.take(i + 1).last() == probs@[i as int]);
        if confidence.lt(probs[i]) {
            confidence = probs[i];
        }
        i += 1;
    }
    assert(probs@.take(n as int) =~= probs@);
    RawAnswer::Score { score: value, legend: number_labels(legend), probabilities: number_levels(probs), confidence }
}

/// Numbering holds each value under its own number and nothing else.
pub proof fn numbered_holds_each<V>(vs: Seq<V>)
    ensures
        forall|i: int| 0 <= i < vs.len() ==> #[trigger] numbered(vs).contains_key(decimal(i as nat)) && numbered(vs)[decimal(i as nat)] == vs[i],
        forall|k: Seq<char>| #[trigger] numbered(vs).contains_key(k) ==> exists|i: int| 0 <= i < vs.len() && k == #[trigger] decimal(i as nat),
    decreases vs.len(),
{
    if vs.len() > 0 {
        let rest = vs.drop_last();
        numbered_holds_each(rest);
        assert forall|i: int| 0 <= i < vs.len() implies #[trigger] numbered(vs).contains_key(decimal(i as nat)) && numbered(vs)[decimal(
            i as nat,
        )] == vs[i] by {
            if i < rest.len() {
                assert(numbered(rest).contains_key(decimal(i as nat)));
                if decimal(i as nat) == decimal(rest.len()) {
                    decimal_is_injective(i as nat, rest.len());
                }
            }
        }
        assert forall|k: Seq<char>| #[trigger] numbered(vs).contains_key(k) implies exists|i: int|
            0 <= i < vs.len() && k == #[trigger] decimal(i as nat) by {
            if k == decimal(rest.len()) {
                assert(k == decimal((vs.len() - 1) as nat));
            } else {
                assert(numbered(rest).contains_key(k));
                let i = choose|i: int| 0 <= i < rest.len() && k == #[trigger] decimal(i as nat);
                assert(k == decimal(i as nat));
            }
        }
    }
}

/// Level `j` is named by one of the entries.
spec fn level_named(items: Seq<(Seq<char>, Binary64)>, j: int) -> bool {
    exists|x: int| 0 <= x < items.len() && (#[trigger] items[x]).0 == decimal(j as nat)
}

/// Entry `x` holds the value of the level it names.
spec fn tells_level(item: (Seq<char>, Binary64), ps: Seq<Binary64>) -> bool {
    exists|j: int| 0 <= j < ps.len() && item.0 == #[trigger] decimal(j as nat) && item.1 == ps[j]
}

proof fn lemma_fill_levels(items: Seq<(Seq<char>, Binary64)>, ps: Seq<Binary64>)
    requires
        ps.len() <= usize::MAX,
        forall|x: int| 0 <= x < items.len() ==> tells_level(#[trigger] items[x], ps),
    ensures
        levels_filled(items, ps.len()) matches Ok(ls) && ls.len() == ps.len() && forall|j: int|
            0 <= j < ps.len() ==> (#[trigger] ls[j]) == (if level_named(items, j) {
                ps[j]
            } else {
                zero()
            }),
    decreases items.len(),
{
    let n = ps.len();
    if items.len() > 0 {
        let rest = items.drop_last();
        let last = items.len() - 1;
        assert forall|x: int| 0 <= x < rest.len() implies tells_level(#[trigger] rest[x], ps) by {
            assert(rest[x] == items[x]);
        }
        lemma_fill_levels(rest, ps);
        assert(tells_level(items[last], ps));
        let k = choose|j: int| 0 <= j < n && items[last].0 == #[trigger] decimal(j as nat) && items[last].1 == ps[j];
        parse_of_decimal(k as usize);
        let before = levels_filled(rest, n)->Ok_0;
        let after = before.update(k, ps[k]);
        assert(levels_filled(items, n) == Ok::<Seq<Binary64>, Seq<char>>(after));
        assert forall|j: int| 0 <= j < n implies (#[trigger] after[j]) == (if level_named(items, j) {
            ps[j]
        } else {
            zero()
        }) by {
            assert(before[j] == (if level_named(rest, j) {
                ps[j]
            } else {
                zero()
            }));
            if j == k {
                assert(items[last].0 == decimal(j as nat));
            } else {
                if level_named(rest, j) {
                    let x = choose|x: int| 0 <= x < rest.len() && (#[trigger] rest[x]).0 == decimal(j as nat);
                    assert(items[x].0 == decimal(j as nat));
                }
                if level_named(items, j) {
                    let x = choose|x: int| 0 <= x < items.len() && (#[trigger] items[x]).0 == decimal(j as nat);
                    if x == last {
                        decimal_is_injective(j as nat, k as nat);
                    } else {
                        assert(rest[x].0 == decimal(j as nat));
                    }
                }
            }
        }
    } else {
        assert forall|j: int| 0 <= j < n implies !level_named(items, j) by {}
    }
}

/// A score answer decodes to the probabilities it was made of, level by level.
pub proof fn numbered_levels_decode(probabilities: SortedMap<String, Binary64>, ps: Seq<Binary64>)
    requires
        ps.len() <= usize::MAX,
        probabilities.wf(),
        probabilities@ == numbered(ps),
    ensures
        levels_filled(probabilities.items(), ps.len()) == Ok::<Seq<Binary64>, Seq<char>>(ps),
{
    let items = probabilities.items();
    probabilities.items_and_map();
    numbered_holds_each(ps);
    assert forall|x: int| 0 <= x < items.len() implies tells_level(#[trigger] items[x], ps) by {
        assert(probabilities@.contains_pair(items[x].0, items[x].1));
        assert(numbered(ps).contains_key(items[x].0));
        let j = choose|j: int| 0 <= j < ps.len() && items[x].0 == #[trigger] decimal(j as nat);
        assert(numbered(ps).contains_key(decimal(j as nat)) && numbered(ps)[decimal(j as nat)] == ps[j]);
    }
    lemma_fill_levels(items, ps);
    let ls = levels_filled(items, ps.len())->Ok_0;
    assert forall|j: int| 0 <= j < ps.len() implies ls[j] == ps[j] by {
        assert(numbered(ps).contains_key(decimal(j as nat)));
        assert(probabilities@.contains_key(decimal(j as nat)));
        let x = choose|x: int| 0 <= x < items.len() && #[trigger] items[x].0 == decimal(j as nat);
        assert(items[x].0 == decimal(j as nat));
        assert(level_named(items, j));
    }
    assert(ls =~= ps);
}

/// The descriptions of a score answer decode to the ones it was made of.
pub proof fn numbered_labels_decode(legend: Map<Seq<char>, String>, labels: Seq<Seq<char>>, levels: Seq<Seq<char>>)
    requires
        viewed(legend) == numbered(labels),
        labels.len() == levels.len(),
    ensures
        legend_of(legend, levels) == labels,
{
    numbered_holds_each(labels);
    assert forall|i: int| 0 <= i < levels.len() implies legend_of(legend, levels)[i] == labels[i] by {
        assert(numbered(labels).contains_key(decimal(i as nat)));
        assert(viewed(legend).contains_key(decimal(i as nat)));
    }
    assert(legend_of(legend, levels) =~= labels);
}

/// The probability of an entry is the one that the entry holds.
pub proof fn weights_are_in_place(items: Seq<(Seq<char>, Binary64)>, i: int)
    requires
        0 <= i < items.len(),
    ensures
        weights(items).len() == items.len(),
        weights(items)[i] == items[i].1,
{
}

/// A choice among probabilities that are numbers goes to one that none
/// exceeds, the last such one, with its own probability as the confidence.
pub proof fn chosen_is_greatest(items: Seq<(Seq<char>, Binary64)>, k: int)
    requires
        items.len() > 0,
        k == greatest(weights(items), items.len()),
        forall|i: int| 0 <= i < items.len() ==> !(#[trigger] items[i]).1.is_nan(),
    ensures
        0 <= k < items.len(),
        forall|i: int| 0 <= i < items.len() ==> !items[k].1.below((#[trigger] items[i]).1),
        forall|i: int| k < i < items.len() ==> (#[trigger] items[i]).1.below(items[k].1),
{
    let ws = weights(items);
    assert forall|i: int| 0 <= i < items.len() implies !(#[trigger] ws[i]).is_nan() by {
        assert(!items[i].1.is_nan());
    }
    greatest_is_last_maximum(ws, items.len());
    assert forall|i: int| 0 <= i < items.len() implies !items[k].1.below((#[trigger] items[i]).1) by {
        assert(ws[i].at_most(ws[k]));
    }
    assert forall|i: int| k < i < items.len() implies (#[trigger] items[i]).1.below(items[k].1) by {
        assert(ws[i].below(ws[k]));
    }
}

/// The confidence of a score is zero or one of its probabilities, and none of
/// them exceeds it.
pub proof fn largest_is_not_exceeded(ps: Seq<Binary64>)
    ensures
        largest(ps) == (Binary64 { bits: 0 }) || ps.contains(largest(ps)),
        forall|i: int| 0 <= i < ps.len() ==> !largest(ps).below(#[trigger] ps[i]),
        !largest(ps).below(zero()),
        !largest(ps).is_nan(),
    decreases ps.len(),
{
    if ps.len() > 0 {
        let rest = ps.drop_last();
        largest_is_not_exceeded(rest);
        let kept = largest(rest);
        if ps.contains(kept) || kept == zero() {
        } else {
            let i = choose|i: int| 0 <= i < rest.len() && rest[i] == kept;
            assert(ps[i] == kept);
        }
        assert(ps[ps.len() - 1] == ps.last());
        assert forall|i: int| 0 <= i < ps.len() implies !largest(ps).below(#[trigger] ps[i]) by {
            if i < rest.len() {
                assert(!kept.below(rest[i]));
            }
        }
    } else {
        constants();
    }
}

} // verus!
