//! Asking *one* question from the command line.
//!
//! The smallest possible loop: a question, a piece of state, a calibrated
//! answer. No structs, no derive — the schema is built at runtime, so this
//! doubles as a scratchpad for trying a question out before you commit it to
//! a type.
use vstd::prelude::*;
use vstd::string::*;

use crate::binary64::{place_follows_size, Binary64};
use crate::error::{Error, ErrorView};
use crate::numeral::{parse, parse_usize};
use crate::schema::{opt_text, options_view, spec_fault, QuestionSchema, QuestionSpec, SpecView};
use crate::sorted_map::SortedMap;
use crate::sorting::{alike, arranged, arranged_is_sorted, arranged_is_stable, in_order, sort, views, weak_order, Ranked};
use crate::text::{chars_of, equal, split_at, split_on, string_of, strings, texts, trim, trimmed};

verus! {

/// The name the question is asked under.
pub const NAME: &'static str = "q";

pub const ASK_USAGE: &'static str = "usage: jev-ask [--choice a,b,c | --levels \"low,high\"] <question> <state>";

/// The parts of a comma-separated list, each trimmed.
pub open spec fn listed(s: Seq<char>) -> Seq<Seq<char>> {
    split_at(s, ',').map_values(|t: Seq<char>| trim(t))
}

pub open spec fn starts_with_flag(args: Seq<Seq<char>>) -> bool {
    args.len() > 0 && (args[0] == "--choice"@ || args[0] == "--levels"@)
}

/// The words behind the leading flag and its value, where there is one.
pub open spec fn behind_flag(args: Seq<Seq<char>>) -> Seq<Seq<char>> {
    if starts_with_flag(args) {
        args.skip(2)
    } else {
        args
    }
}

/// The question that the words stand for.
pub open spec fn question_asked(args: Seq<Seq<char>>) -> SpecView {
    let instructions = behind_flag(args)[0];
    if args[0] == "--choice"@ {
        SpecView::Choice { instructions, criteria: listed(args[1]).map_values(|t: Seq<char>| (t, None::<Seq<char>>)) }
    } else if args[0] == "--levels"@ {
        SpecView::Score { instructions, criteria: listed(args[1]) }
    } else {
        SpecView::Noul { instructions, criteria: None }
    }
}

fn list_of(s: &str) -> (r: Vec<String>)
    ensures
        strings(r@) == listed(s@),
{
    let cs = chars_of(s);
    let parts = split_on(cs.as_slice(), ',');
    let ghost want = listed(s@);
    let n = parts.len();
    let mut out: Vec<String> = Vec::new();
    let mut i: usize = 0;
    assert(strings(out@) =~= want.take(0));
    while i < n
        invariant
            i <= n == parts@.len(),
            texts(parts@) == split_at(s@, ','),
            want == listed(s@),
            strings(out@) == want.take(i as int),
        decreases n - i,
    {
        let ghost before = strings(out@);
        let item = string_of(trimmed(parts[i].as_slice()));
        assert(texts(parts@)[i as int] == parts@[i as int]@);
        assert(want[i as int] == item@);
        out.push(item);
        assert(strings(out@) =~= before.push(want[i as int]));
        assert(before.push(want[i as int]) =~= want.take(i + 1));
        i += 1;
    }
    assert(want.take(n as int) =~= want);
    out
}

fn bare_options(keys: Vec<String>) -> (r: Vec<(String, Option<String>)>)
    ensures
        options_view(r@) == strings(keys@).map_values(|t: Seq<char>| (t, None::<Seq<char>>)),
{
    let ghost want = strings(keys@).map_values(|t: Seq<char>| (t, None::<Seq<char>>));
    let n = keys.len();
    let mut out: Vec<(String, Option<String>)> = Vec::new();
    let mut i: usize = 0;
    assert(options_view(out@) =~= want.take(0));
    while i < n
        invariant
            i <= n == keys@.len(),
            want == strings(keys@).map_values(|t: Seq<char>| (t, None::<Seq<char>>)),
            options_view(out@) == want.take(i as int),
        decreases n - i,
    {
        let ghost before = options_view(out@);
        let option = (keys[i].clone(), None);
        assert(want[i as int] == (option.0@, opt_text(option.1)));
        out.push(option);
        assert(options_view(out@) =~= before.push(want[i as int]));
        assert(before.push(want[i as int]) =~= want.take(i + 1));
        i += 1;
    }
    assert(want.take(n as int) =~= want);
    out
}

/// The question and the state that a command line asks about; nothing where
/// either is missing. A leading `--choice` or `--levels` has to be followed
/// by its value.
pub fn parse_ask(args: &Vec<String>) -> (r: Option<(QuestionSpec, String)>)
    requires
        starts_with_flag(strings(args@)) ==> args@.len() >= 2,
    ensures
        match r {
            Some((spec, state)) => behind_flag(strings(args@)).len() >= 2 && spec@ == question_asked(strings(args@)) && state@ == behind_flag(
                strings(args@),
            )[1],
            None => behind_flag(strings(args@)).len() < 2,
        },
{
    let ghost ws = strings(args@);
    let n = args.len();
    if n == 0 {
        return None;
    }
    let choice = equal(args[0].as_str(), "--choice");
    let levels = equal(args[0].as_str(), "--levels");
    let start: usize = if choice || levels {
        2
    } else {
        0
    };
    if n - start < 2 {
        return None;
    }
    assert(behind_flag(ws)[0] == args@[start as int]@);
    assert(behind_flag(ws)[1] == args@[start + 1]@);
    let instructions = args[start].clone();
    let state = args[start + 1].clone();
    let spec = if choice {
        QuestionSpec::Choice { instructions, criteria: bare_options(list_of(args[1].as_str())) }
    } else if levels {
        QuestionSpec::Score { instructions, criteria: list_of(args[1].as_str()) }
    } else {
        QuestionSpec::Noul { instructions, criteria: None }
    };
    Some((spec, state))
}

/// The schema that asks the one question, if it keeps the limits.
pub fn ask_schema(spec: QuestionSpec) -> (r: Result<QuestionSchema, Error>)
    ensures
        match spec_fault(NAME@, spec@) {
            None => r matches Ok(s) && s@ == Map::<Seq<char>, SpecView>::empty().insert(NAME@, spec@),
            Some(m) => r matches Err(e) && e@ == ErrorView::InvalidSchema(m),
        },
{
    match spec.validate(NAME) {
        Ok(_) => Ok(QuestionSchema::new().with(NAME, spec)),
        Err(e) => Err(e),
    }
}

// ---------------------------------------------------------------------------
// The order in which an answer is printed
// ---------------------------------------------------------------------------

/// An option with its probability.
#[derive(Debug)]
pub struct Weighted {
    pub key: String,
    pub p: Binary64,
}

impl View for Weighted {
    type V = (Seq<char>, Binary64);

    open spec fn view(&self) -> (Seq<char>, Binary64) {
        (self.key@, self.p)
    }
}

impl Ranked for Weighted {
    /// The likelier option comes first.
    open spec fn before() -> spec_fn((Seq<char>, Binary64), (Seq<char>, Binary64)) -> bool {
        |a: (Seq<char>, Binary64), b: (Seq<char>, Binary64)| b.1.place() < a.1.place()
    }

    fn comes_before(&self, other: &Self) -> (r: bool) {
        other.p.total_lt(self.p)
    }
}

/// A level with its probability.
#[derive(Debug)]
pub struct Levelled {
    pub key: String,
    pub p: Binary64,
}

impl View for Levelled {
    type V = (Seq<char>, Binary64);

    open spec fn view(&self) -> (Seq<char>, Binary64) {
        (self.key@, self.p)
    }
}

/// The number of a level; zero for a key that is no number.
pub open spec fn level_number(key: Seq<char>) -> usize {
    match parse(key) {
        Some(n) => n,
        None => 0,
    }
}

fn number_of(key: &String) -> (r: usize)
    ensures
        r == level_number(key@),
{
    match parse_usize(chars_of(key.as_str()).as_slice()) {
        Some(n) => n,
        None => 0,
    }
}

impl Ranked for Levelled {
    /// The lower level comes first.
    open spec fn before() -> spec_fn((Seq<char>, Binary64), (Seq<char>, Binary64)) -> bool {
        |a: (Seq<char>, Binary64), b: (Seq<char>, Binary64)| level_number(a.0) < level_number(b.0)
    }

    fn comes_before(&self, other: &Self) -> (r: bool) {
        number_of(&self.key) < number_of(&other.key)
    }
}

/// The options of a choice, the likeliest first; equally likely ones keep
/// the order of their keys.
pub fn by_probability(probabilities: &SortedMap<String, Binary64>) -> (r: Vec<Weighted>)
    ensures
        views(r@) == arranged(probabilities.items(), Weighted::before()),
{
    let ghost items = probabilities.items();
    let n = probabilities.len();
    let mut out: Vec<Weighted> = Vec::new();
    let mut i: usize = 0;
    assert(views(out@) =~= items.take(0));
    while i < n
        invariant
            i <= n == items.len(),
            items == probabilities.items(),
            views(out@) == items.take(i as int),
        decreases n - i,
    {
        let ghost before = views(out@);
        let w = Weighted { key: probabilities.key_at(i).clone(), p: *probabilities.value_at(i) };
        assert(w@ == items[i as int]);
        out.push(w);
        assert(views(out@) =~= before.push(items[i as int]));
        assert(before.push(items[i as int]) =~= items.take(i + 1));
        i += 1;
    }
    assert(items.take(n as int) =~= items);
    sort(&mut out);
    out
}

/// The levels of a score, the lowest first.
pub fn by_level(probabilities: &SortedMap<String, Binary64>) -> (r: Vec<Levelled>)
    ensures
        views(r@) == arranged(probabilities.items(), Levelled::before()),
{
    let ghost items = probabilities.items();
    let n = probabilities.len();
    let mut out: Vec<Levelled> = Vec::new();
    let mut i: usize = 0;
    assert(views(out@) =~= items.take(0));
    while i < n
        invariant
            i <= n == items.len(),
            items == probabilities.items(),
            views(out@) == items.take(i as int),
        decreases n - i,
    {
        let ghost before = views(out@);
        let w = Levelled { key: probabilities.key_at(i).clone(), p: *probabilities.value_at(i) };
        assert(w@ == items[i as int]);
        out.push(w);
        assert(views(out@) =~= before.push(items[i as int]));
        assert(before.push(items[i as int]) =~= items.take(i + 1));
        i += 1;
    }
    assert(items.take(n as int) =~= items);
    sort(&mut out);
    out
}

/// What is printed holds every option once and in order: the likeliest option
/// first, the lowest level first.
pub proof fn printed_in_order(items: Seq<(Seq<char>, Binary64)>)
    ensures
        in_order(arranged(items, Weighted::before()), Weighted::before()),
        arranged(items, Weighted::before()).to_multiset() == items.to_multiset(),
        in_order(arranged(items, Levelled::before()), Levelled::before()),
        arranged(items, Levelled::before()).to_multiset() == items.to_multiset(),
{
    assert(weak_order(Weighted::before()));
    assert(weak_order(Levelled::before()));
    arranged_is_sorted(items, Weighted::before());
    arranged_is_sorted(items, Levelled::before());
}

/// A command line asks its question as it says: behind `--choice` or `--levels`
/// and the list, or from the start, first the question and then the state. A
/// list makes the options of a choice, or the levels of a score; without one
/// the question is a yes or no.
pub proof fn question_is_as_asked(list: Seq<char>, question: Seq<char>, state: Seq<char>, rest: Seq<Seq<char>>)
    ensures
        ({
            let args = seq!["--choice"@, list, question, state] + rest;
            let q = question_asked(args);
            &&& behind_flag(args) == seq![question, state] + rest
            &&& q matches SpecView::Choice { instructions, criteria } && {
                &&& instructions == question
                &&& criteria.len() == split_at(list, ',').len()
                &&& forall|i: int| 0 <= i < criteria.len() ==> #[trigger] criteria[i] == (trim(split_at(list, ',')[i]), None::<Seq<char>>)
            }
        }),
        ({
            let args = seq!["--levels"@, list, question, state] + rest;
            let q = question_asked(args);
            &&& behind_flag(args) == seq![question, state] + rest
            &&& q matches SpecView::Score { instructions, criteria } && {
                &&& instructions == question
                &&& criteria.len() == split_at(list, ',').len()
                &&& forall|i: int| 0 <= i < criteria.len() ==> #[trigger] criteria[i] == trim(split_at(list, ',')[i])
            }
        }),
        question != "--choice"@ && question != "--levels"@ ==> {
            let args = seq![question, state] + rest;
            &&& behind_flag(args) == args
            &&& question_asked(args) == (SpecView::Noul { instructions: question, criteria: None })
        },
{
    reveal_strlit("--choice");
    reveal_strlit("--levels");
    assert("--choice"@[2] == 'c' && "--levels"@[2] == 'l');
    assert((seq!["--choice"@, list, question, state] + rest).skip(2) =~= seq![question, state] + rest);
    assert((seq!["--levels"@, list, question, state] + rest).skip(2) =~= seq![question, state] + rest);
}

/// Options are printed by falling probability, levels by rising number; every
/// one once, and those that are alike in the order they had.
pub proof fn printed_by_probability_or_number(items: Seq<(Seq<char>, Binary64)>, i: int, j: int, z: (Seq<char>, Binary64))
    requires
        0 <= i < j < items.len(),
    ensures
        ({
            let w = arranged(items, Weighted::before());
            let l = arranged(items, Levelled::before());
            &&& w.to_multiset() == items.to_multiset()
            &&& l.to_multiset() == items.to_multiset()
            &&& !w[i].1.below(w[j].1)
            &&& (match parse(l[i].0) {
                Some(n) => n as int,
                None => 0,
            }) <= (match parse(l[j].0) {
                Some(n) => n as int,
                None => 0,
            })
            &&& w.filter(|e: (Seq<char>, Binary64)| e.1 == z.1) == items.filter(|e: (Seq<char>, Binary64)| e.1 == z.1)
        }),
{
    let w = arranged(items, Weighted::before());
    let l = arranged(items, Levelled::before());
    printed_in_order(items);
    assert(weak_order(Weighted::before()));
    assert(weak_order(Levelled::before()));
    arranged_is_sorted(items, Weighted::before());
    arranged_is_sorted(items, Levelled::before());
    assert(!Weighted::before()(w[j], w[i]));
    assert(!Levelled::before()(l[j], l[i]));
    if w[i].1.below(w[j].1) {
        place_follows_size(w[i].1, w[j].1);
    }
    arranged_is_stable(items, z, Weighted::before());
    assert(alike(z, Weighted::before()) =~= |e: (Seq<char>, Binary64)| e.1 == z.1) by {
        assert forall|e: (Seq<char>, Binary64)| #[trigger] alike(z, Weighted::before())(e) == (e.1 == z.1) by {
            if e.1.place() == z.1.place() {
                assert(e.1.bits == z.1.bits);
            }
        }
    }
}

/// What is printed is the option or level with its probability.
pub proof fn printed_items_are_seen_whole(w: Weighted, l: Levelled)
    ensures
        w@ == (w.key@, w.p),
        l@ == (l.key@, l.p),
{
}

} // verus!
