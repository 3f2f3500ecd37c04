//! Traits that the types of an application implement.
//!
//! An enum that is [`AsChoice`] lists the options of a `choice` question; a
//! struct that is [`AsQuestions`] has one field per question. Both are
//! normally derived.
use vstd::prelude::*;
use vstd::string::*;

use crate::answer::{decoded, FieldView, RawAnswer, RawAnswers};
use crate::error::{Error, ErrorView};
use crate::schema::{opt_text, options_view, QuestionSchema, SpecView};
use crate::sorted_map::map_of;

verus! {

/// An enum whose variants are the options of a `choice` question.
///
/// Variant keys default to the `snake_case` variant name; override with
/// `#[jev(key = "...")]`. A doc comment or `#[jev(desc = "...")]` becomes the
/// option description sent to the backend.
pub trait AsChoice: Copy + PartialEq + std::fmt::Debug + Send + Sync + 'static {
    /// The variants in declaration order.
    closed spec fn variants() -> Seq<Self> {
        arbitrary()
    }

    /// The key of a variant.
    closed spec fn wire_key(self) -> Seq<char> {
        arbitrary()
    }

    /// The description of a variant.
    closed spec fn wire_description(self) -> Option<Seq<char>> {
        arbitrary()
    }

    /// Every variant, in declaration order.
    fn all() -> (r: &'static [Self])
        ensures
            r@ == Self::variants(),
    ;

    /// Wire key of this variant.
    fn key(&self) -> (r: &'static str)
        ensures
            r@ == self.wire_key(),
    ;

    /// Optional description of this variant.
    fn description(&self) -> (r: Option<&'static str>)
        ensures
            match r {
                Some(d) => self.wire_description() == Some(d@),
                None => self.wire_description() is None,
            },
    ;

    /// Parse a wire key back into a variant: the first one that has it.
    fn from_key(key: &str) -> (r: Option<Self>)
        ensures
            match r {
                Some(v) => exists|i: int|
                    0 <= i < Self::variants().len() && #[trigger] Self::variants()[i] == v && v.wire_key() == key@ && forall|j: int|
                        0 <= j < i ==> (#[trigger] Self::variants()[j]).wire_key() != key@,
                None => forall|j: int| 0 <= j < Self::variants().len() ==> (#[trigger] Self::variants()[j]).wire_key() != key@,
            },
    ;

    /// `(key, description)` pairs, ready for a [`crate::schema::QuestionSpec::Choice`].
    fn criteria() -> (r: Vec<(String, Option<String>)>)
        ensures
            options_view(r@) == Self::variants().map_values(|v: Self| (v.wire_key(), v.wire_description())),
    {
        let all = Self::all();
        let ghost want = Self::variants().map_values(|v: Self| (v.wire_key(), v.wire_description()));
        let n = all.len();
        let mut out: Vec<(String, Option<String>)> = Vec::new();
        let mut i: usize = 0;
        assert(options_view(out@) =~= want.take(0));
        while i < n
            invariant
                i <= n == all@.len(),
                all@ == Self::variants(),
                want == Self::variants().map_values(|v: Self| (v.wire_key(), v.wire_description())),
                options_view(out@) == want.take(i as int),
            decreases n - i,
        {
            let ghost before = options_view(out@);
            let description = match all[i].description() {
                Some(d) => Some(d.to_owned()),
                None => None,
            };
            let pair = (all[i].key().to_owned(), description);
            assert((pair.0@, opt_text(pair.1)) == want[i as int]);
            out.push(pair);
            assert(options_view(out@) =~= before.push(want[i as int]));
            assert(before.push(want[i as int]) =~= want.take(i + 1));
            i += 1;
        }
        assert(want.take(n as int) =~= want);
        out
    }
}

/// The first variant that has `key`.
pub open spec fn with_key<E: AsChoice>(variants: Seq<E>, key: Seq<char>) -> Option<E>
    decreases variants.len(),
{
    if variants.len() == 0 {
        None
    } else if variants[0].wire_key() == key {
        Some(variants[0])
    } else {
        with_key(variants.drop_first(), key)
    }
}

/// A struct whose fields are the questions asked against one state.
///
/// Field types must be [`crate::answer::Noul`], [`crate::answer::Choice`] or
/// [`crate::answer::Score`].
pub trait AsQuestions: Sized + Send + 'static {
    /// What each field asks, under its name, in declaration order.
    closed spec fn asked() -> Seq<(Seq<char>, SpecView)> {
        arbitrary()
    }

    /// What each field holds, in declaration order.
    closed spec fn fields(self) -> Seq<FieldView> {
        arbitrary()
    }

    /// Whether the struct is filled whenever each of its fields can be, as a
    /// derived one is. One that is written by hand may refuse more.
    closed spec fn fills_each_field() -> bool {
        arbitrary()
    }

    /// The schema sent to the backend.
    fn schema() -> (r: QuestionSchema)
        ensures
            r@ == map_of(Self::asked()),
    ;

    /// Fill the struct from raw answers, validating against the schema.
    fn from_raw(raw: &RawAnswers) -> (r: Result<Self, Error>)
        ensures
            match r {
                Ok(v) => all_decoded(Self::asked(), raw.answers@) == Ok::<Seq<FieldView>, ErrorView>(v.fields()),
                Err(e) => Self::fills_each_field() ==> all_decoded(Self::asked(), raw.answers@) == Err::<Seq<FieldView>, ErrorView>(e@),
            },
    ;
}

/// What a field is filled with: the answer under its name, read as the kind
/// that it asks for.
pub open spec fn field_decoded(question: (Seq<char>, SpecView), answers: Map<Seq<char>, RawAnswer>) -> Result<FieldView, ErrorView> {
    if answers.contains_key(question.0) {
        decoded(question.0, question.1, answers[question.0])
    } else {
        Err(ErrorView::MissingAnswer(question.0))
    }
}

/// What all fields are filled with, one after the other, or why the first that
/// cannot be filled is not.
pub open spec fn all_decoded(asked: Seq<(Seq<char>, SpecView)>, answers: Map<Seq<char>, RawAnswer>) -> Result<Seq<FieldView>, ErrorView>
    decreases asked.len(),
{
    if asked.len() == 0 {
        Ok(seq![])
    } else {
        match all_decoded(asked.drop_last(), answers) {
            Err(e) => Err(e),
            Ok(fields) => match field_decoded(asked.last(), answers) {
                Err(e) => Err(e),
                Ok(f) => Ok(fields.push(f)),
            },
        }
    }
}

/// A struct is filled exactly where there is an answer to each of its questions
/// that is of the kind asked for, and then each field holds what the answer
/// under its name says.
pub proof fn filled_from_every_answer(asked: Seq<(Seq<char>, SpecView)>, answers: Map<Seq<char>, RawAnswer>)
    ensures
        match all_decoded(asked, answers) {
            Ok(fields) => fields.len() == asked.len() && forall|i: int|
                0 <= i < asked.len() ==> answers.contains_key((#[trigger] asked[i]).0) && decoded(asked[i].0, asked[i].1, answers[asked[i].0])
                    == Ok::<FieldView, ErrorView>(fields[i]),
            Err(e) => exists|i: int|
                0 <= i < asked.len() && field_decoded(#[trigger] asked[i], answers) == Err::<FieldView, ErrorView>(e) && forall|j: int|
                    0 <= j < i ==> field_decoded(#[trigger] asked[j], answers) is Ok,
        },
    decreases asked.len(),
{
    if asked.len() > 0 {
        let rest = asked.drop_last();
        let last = asked.len() - 1;
        filled_from_every_answer(rest, answers);
        match all_decoded(rest, answers) {
            Ok(fields) => {
                assert forall|j: int| 0 <= j < last implies field_decoded(#[trigger] asked[j], answers) == Ok::<FieldView, ErrorView>(
                    fields[j],
                ) by {
                    assert(rest[j] == asked[j]);
                }
                match field_decoded(asked[last], answers) {
                    Ok(f) => {
                        let all = fields.push(f);
                        assert(all_decoded(asked, answers) == Ok::<Seq<FieldView>, ErrorView>(all));
                        assert forall|i: int| 0 <= i < asked.len() implies answers.contains_key((#[trigger] asked[i]).0) && decoded(
                            asked[i].0,
                            asked[i].1,
                            answers[asked[i].0],
                        ) == Ok::<FieldView, ErrorView>(all[i]) by {
                            if i < last {
                                assert(field_decoded(asked[i], answers) == Ok::<FieldView, ErrorView>(fields[i]));
                            }
                        }
                    },
                    Err(_) => {},
                }
            },
            Err(e) => {
                let i = choose|i: int|
                    0 <= i < rest.len() && field_decoded(#[trigger] rest[i], answers) == Err::<FieldView, ErrorView>(e) && forall|j: int|
                        0 <= j < i ==> field_decoded(#[trigger] rest[j], answers) is Ok;
                assert(field_decoded(asked[i], answers) == Err::<FieldView, ErrorView>(e));
                assert forall|j: int| 0 <= j < i implies field_decoded(#[trigger] asked[j], answers) is Ok by {
                    assert(rest[j] == asked[j]);
                }
            },
        }
    }
}

/// Answers under names that are not asked make no difference.
pub proof fn only_asked_answers_count(asked: Seq<(Seq<char>, SpecView)>, a: Map<Seq<char>, RawAnswer>, b: Map<Seq<char>, RawAnswer>)
    requires
        forall|i: int| 0 <= i < asked.len() ==> a.contains_key((#[trigger] asked[i]).0) == b.contains_key(asked[i].0),
        forall|i: int| 0 <= i < asked.len() && a.contains_key((#[trigger] asked[i]).0) ==> a[asked[i].0] == b[asked[i].0],
    ensures
        all_decoded(asked, a) == all_decoded(asked, b),
    decreases asked.len(),
{
    if asked.len() > 0 {
        let rest = asked.drop_last();
        assert forall|i: int| 0 <= i < rest.len() implies a.contains_key((#[trigger] rest[i]).0) == b.contains_key(rest[i].0) && (a.contains_key(
            rest[i].0,
        ) ==> a[rest[i].0] == b[rest[i].0]) by {
            assert(rest[i] == asked[i]);
        }
        only_asked_answers_count(rest, a, b);
        assert(asked.last() == asked[asked.len() - 1]);
    }
}

/// No two variants share a key.
pub open spec fn keys_distinct<E: AsChoice>(variants: Seq<E>) -> bool {
    forall|i: int, j: int| 0 <= i < j < variants.len() ==> (#[trigger] variants[i]).wire_key() != (#[trigger] variants[j]).wire_key()
}

/// The first variant that has a key is the one that [`with_key`] finds.
pub proof fn lemma_first_is_with_key<E: AsChoice>(variants: Seq<E>, key: Seq<char>, i: int)
    requires
        0 <= i <= variants.len(),
        i < variants.len() ==> variants[i].wire_key() == key,
        forall|j: int| 0 <= j < i ==> (#[trigger] variants[j]).wire_key() != key,
    ensures
        with_key(variants, key) == (if i < variants.len() {
            Some(variants[i])
        } else {
            None
        }),
    decreases variants.len(),
{
    if i > 0 {
        let rest = variants.drop_first();
        assert(variants[0].wire_key() != key);
        assert forall|j: int| 0 <= j < i - 1 implies (#[trigger] rest[j]).wire_key() != key by {
            assert(rest[j] == variants[j + 1]);
        }
        lemma_first_is_with_key(rest, key, i - 1);
    }
}

/// What [`AsChoice::from_key`] promises to return is what [`with_key`] finds.
pub proof fn lemma_parsed_is_with_key<E: AsChoice>(key: Seq<char>, r: Option<E>)
    requires
        match r {
            Some(v) => exists|i: int|
                0 <= i < E::variants().len() && #[trigger] E::variants()[i] == v && v.wire_key() == key && forall|j: int|
                    0 <= j < i ==> (#[trigger] E::variants()[j]).wire_key() != key,
            None => forall|j: int| 0 <= j < E::variants().len() ==> (#[trigger] E::variants()[j]).wire_key() != key,
        },
    ensures
        r == with_key(E::variants(), key),
{
    match r {
        Some(v) => {
            let i = choose|i: int|
                0 <= i < E::variants().len() && #[trigger] E::variants()[i] == v && v.wire_key() == key && forall|j: int|
                    0 <= j < i ==> (#[trigger] E::variants()[j]).wire_key() != key;
            lemma_first_is_with_key(E::variants(), key, i);
        },
        None => {
            lemma_first_is_with_key(E::variants(), key, E::variants().len() as int);
        },
    }
}

/// Parse a wire key into a variant.
pub(crate) fn parse_key<E: AsChoice>(key: &str) -> (r: Option<E>)
    ensures
        r == with_key(E::variants(), key@),
{
    let r = E::from_key(key);
    proof {
        lemma_parsed_is_with_key(key@, r);
    }
    r
}

proof fn lemma_with_key<E: AsChoice>(variants: Seq<E>, i: int)
    requires
        keys_distinct(variants),
        0 <= i < variants.len(),
    ensures
        with_key(variants, variants[i].wire_key()) == Some(variants[i]),
    decreases variants.len(),
{
    if i > 0 {
        let rest = variants.drop_first();
        assert(variants[0].wire_key() != variants[i].wire_key());
        assert forall|a: int, b: int| 0 <= a < b < rest.len() implies (#[trigger] rest[a]).wire_key() != (#[trigger] rest[b]).wire_key() by {
            assert(variants[a + 1].wire_key() != variants[b + 1].wire_key());
        }
        assert(rest[i - 1] == variants[i]);
        lemma_with_key(rest, i - 1);
    }
}

/// Keys lead back: parsing the key of a variant gives that variant, where no
/// two variants share a key.
pub proof fn key_round_trip<E: AsChoice>(v: E)
    requires
        keys_distinct(E::variants()),
        E::variants().contains(v),
    ensures
        with_key(E::variants(), v.wire_key()) == Some(v),
{
    let i = choose|i: int| 0 <= i < E::variants().len() && E::variants()[i] == v;
    lemma_with_key(E::variants(), i);
}

/// What parses has the key that was parsed; what does not parse is no key.
pub proof fn parsed_key_matches<E: AsChoice>(variants: Seq<E>, key: Seq<char>)
    ensures
        match with_key(variants, key) {
            Some(v) => variants.contains(v) && v.wire_key() == key,
            None => forall|i: int| 0 <= i < variants.len() ==> (#[trigger] variants[i]).wire_key() != key,
        },
    decreases variants.len(),
{
    if variants.len() > 0 {
        let rest = variants.drop_first();
        parsed_key_matches(rest, key);
        if variants[0].wire_key() == key {
            assert(variants.contains(variants[0]));
        } else {
            match with_key(rest, key) {
                Some(v) => {
                    let i = choose|i: int| 0 <= i < rest.len() && rest[i] == v;
                    assert(variants[i + 1] == v);
                },
                None => {
                    assert forall|i: int| 0 <= i < variants.len() implies (#[trigger] variants[i]).wire_key() != key by {
                        if i > 0 {
                            assert(rest[i - 1] == variants[i]);
                        }
                    }
                },
            }
        }
    }
}

/// A field whose name has no answer is missing it; one that has reads that
/// answer as what it asks for.
pub proof fn fields_read_their_own_answer(name: Seq<char>, q: SpecView, answers: Map<Seq<char>, RawAnswer>)
    ensures
        !answers.contains_key(name) ==> field_decoded((name, q), answers) == Err::<FieldView, ErrorView>(ErrorView::MissingAnswer(name)),
        answers.contains_key(name) ==> field_decoded((name, q), answers) == decoded(name, q, answers[name]),
{
}

} // verus!
