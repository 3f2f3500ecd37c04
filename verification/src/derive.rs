//! What the derive macros read off a type: the options of an enum that is to
//! be [`crate::traits::AsChoice`], the questions of a struct that is to be
//! [`crate::traits::AsQuestions`].
//!
//! The type comes as plain data; what is generated from the plans made here
//! is left to the macro crate.
use vstd::prelude::*;
use vstd::string::*;

use crate::answer::{decoded, has_option, options_of, FieldView, RawAnswer, RawAnswers};
use crate::backend::answers::numbered_levels_decode;
use crate::backend::mock::{uniform_view, Even};
use crate::error::{Error, ErrorView};
use crate::schema::{opt_text, schema_valid, spec_fault, SpecView, MAX_CHOICE_OPTIONS, MAX_SCORE_LEVELS, MIN_SCORE_LEVELS};
use crate::sorted_map::{lemma_map_of, map_of, viewed};
use crate::text::{chars_of, copy_chars, equal, join, join_texts, string_of, strings, texts, trim, trimmed};
use crate::traits::{
    all_decoded, field_decoded, filled_from_every_answer, key_round_trip, keys_distinct, lemma_parsed_is_with_key, parsed_key_matches, with_key, AsChoice, AsQuestions,
};

verus! {

// ---------------------------------------------------------------------------
// The type
// ---------------------------------------------------------------------------

/// A type that a macro is to be derived for.
#[derive(Debug)]
pub enum Input {
    Enum(Vec<Variant>),
    /// A struct with named fields.
    Named(Vec<Field>),
    /// A tuple struct or a unit struct.
    Unnamed,
    Union,
}

#[derive(Debug)]
pub struct Variant {
    pub ident: String,
    /// The variant holds nothing.
    pub unit: bool,
    pub attrs: Vec<Attribute>,
}

#[derive(Debug)]
pub struct Field {
    pub ident: String,
    pub ty: FieldType,
    pub attrs: Vec<Attribute>,
}

#[derive(Debug)]
pub enum FieldType {
    /// A path, by the name of its last segment and what stands in angle
    /// brackets behind it.
    Path { last: String, generics: Generics },
    Other,
}

#[derive(Debug)]
pub enum Generics {
    /// No angle brackets.
    Absent,
    /// Angle brackets whose first argument is a type.
    Type,
    /// Angle brackets whose first argument is missing or no type.
    Other,
}

/// An attribute, under its name where that is a single word.
#[derive(Debug)]
pub struct Attribute {
    pub name: String,
    pub meta: Meta,
}

#[derive(Debug)]
pub enum Meta {
    /// `#[name]`
    Path,
    /// `#[name(...)]` whose arguments read as [`Arg`]s.
    List(Vec<Arg>),
    /// `#[name(...)]` with anything else inside.
    Unreadable,
    /// `#[name = value]`
    Value(ArgValue),
}

#[derive(Debug)]
pub enum Arg {
    Positional(String),
    Named(String, ArgValue),
}

#[derive(Debug)]
pub enum ArgValue {
    Text(String),
    List(Vec<ArgValue>),
    Other,
}

/// The place of a type that a fault is reported at. Variants, fields,
/// attributes and arguments are counted from zero.
#[derive(Debug, Clone, Copy, PartialEq, Eq, Structural)]
pub enum Site {
    /// The name of the type.
    Input,
    /// The name of a variant or field.
    Item { item: usize },
    /// The type of a field.
    Type { item: usize },
    /// An attribute.
    Attribute { item: usize, attr: usize },
    /// The arguments of an attribute, which do not read as such: the message
    /// is that of the parser.
    Arguments { item: usize, attr: usize },
    /// The name of an argument.
    ArgName { item: usize, attr: usize, arg: usize },
    /// The value of an argument.
    ArgValue { item: usize, attr: usize, arg: usize },
    /// An element of the list that is the value of an argument.
    ArgElement { item: usize, attr: usize, arg: usize, element: usize },
}

/// Why a macro cannot be derived.
#[derive(Debug, PartialEq, Eq)]
pub struct Fault {
    pub site: Site,
    pub message: String,
}

#[verifier::ext_equal]
pub struct FaultView {
    pub site: Site,
    pub message: Seq<char>,
}

impl View for Fault {
    type V = FaultView;

    open spec fn view(&self) -> FaultView {
        FaultView { site: self.site, message: self.message@ }
    }
}

fn fault(site: Site, message: &str) -> (r: Fault)
    ensures
        r@ == (FaultView { site, message: message@ }),
{
    Fault { site, message: message.to_owned() }
}

// ---------------------------------------------------------------------------
// #[jev(...)] attributes
// ---------------------------------------------------------------------------

/// What the `#[jev(...)]` attributes of a variant or field say.
#[derive(Debug)]
pub struct JevArgs {
    pub instructions: Option<String>,
    pub levels: Option<Vec<String>>,
    pub yes: Option<String>,
    pub no: Option<String>,
    pub name: Option<String>,
    pub key: Option<String>,
    pub desc: Option<String>,
}

#[verifier::ext_equal]
pub struct ArgsView {
    pub instructions: Option<Seq<char>>,
    pub levels: Option<Seq<Seq<char>>>,
    pub yes: Option<Seq<char>>,
    pub no: Option<Seq<char>>,
    pub name: Option<Seq<char>>,
    pub key: Option<Seq<char>>,
    pub desc: Option<Seq<char>>,
}

pub open spec fn opt_texts(v: Option<Vec<String>>) -> Option<Seq<Seq<char>>> {
    match v {
        Some(t) => Some(strings(t@)),
        None => None,
    }
}

impl View for JevArgs {
    type V = ArgsView;

    open spec fn view(&self) -> ArgsView {
        ArgsView {
            instructions: opt_text(self.instructions),
            levels: opt_texts(self.levels),
            yes: opt_text(self.yes),
            no: opt_text(self.no),
            name: opt_text(self.name),
            key: opt_text(self.key),
            desc: opt_text(self.desc),
        }
    }
}

pub open spec fn no_args() -> ArgsView {
    ArgsView { instructions: None, levels: None, yes: None, no: None, name: None, key: None, desc: None }
}

/// The value as a text, if it is one.
pub open spec fn text_value(v: ArgValue) -> Option<Seq<char>> {
    match v {
        ArgValue::Text(s) => Some(s@),
        _ => None,
    }
}

/// How many values, from the first on, are texts.
pub open spec fn leading_texts(vs: Seq<ArgValue>) -> nat
    decreases vs.len(),
{
    if vs.len() == 0 || text_value(vs[0]) is None {
        0
    } else {
        1 + leading_texts(vs.drop_first())
    }
}

/// The place of an argument: variant or field, attribute, argument.
#[verifier::ext_equal]
pub struct ArgPlace {
    pub item: usize,
    pub attr: usize,
    pub arg: usize,
}

/// The text of an argument's value.
pub open spec fn arg_text(v: ArgValue, at: ArgPlace) -> Result<Seq<char>, FaultView> {
    match text_value(v) {
        Some(s) => Ok(s),
        None => Err(
            FaultView {
                site: Site::ArgValue { item: at.item, attr: at.attr, arg: at.arg },
                message: "expected a string literal"@,
            },
        ),
    }
}

/// The texts of an argument's value: a list whose elements are all texts.
pub open spec fn arg_texts(v: ArgValue, at: ArgPlace) -> Result<Seq<Seq<char>>, FaultView> {
    match v {
        ArgValue::List(items) => if leading_texts(items@) < items@.len() {
            Err(
                FaultView {
                    site: Site::ArgElement { item: at.item, attr: at.attr, arg: at.arg, element: leading_texts(items@) as usize },
                    message: "expected a string literal"@,
                },
            )
        } else {
            Ok(items@.map_values(|x: ArgValue| text_value(x)->0))
        },
        _ => Err(
            FaultView {
                site: Site::ArgValue { item: at.item, attr: at.attr, arg: at.arg },
                message: "expected an array of string literals: [\"a\", \"b\"]"@,
            },
        ),
    }
}

/// One argument read: it sets what it names, in place of what was set before.
pub open spec fn arg_read(a: ArgsView, arg: Arg, at: ArgPlace) -> Result<ArgsView, FaultView> {
    match arg {
        Arg::Positional(s) => Ok(ArgsView { instructions: Some(s@), ..a }),
        Arg::Named(id, v) => if id@ == "levels"@ {
            match arg_texts(v, at) {
                Ok(t) => Ok(ArgsView { levels: Some(t), ..a }),
                Err(e) => Err(e),
            }
        } else if id@ == "instructions"@ || id@ == "yes"@ || id@ == "no"@ || id@ == "name"@ || id@ == "key"@ || id@ == "desc"@ {
            match arg_text(v, at) {
                Ok(t) => Ok(
                    if id@ == "instructions"@ {
                        ArgsView { instructions: Some(t), ..a }
                    } else if id@ == "yes"@ {
                        ArgsView { yes: Some(t), ..a }
                    } else if id@ == "no"@ {
                        ArgsView { no: Some(t), ..a }
                    } else if id@ == "name"@ {
                        ArgsView { name: Some(t), ..a }
                    } else if id@ == "key"@ {
                        ArgsView { key: Some(t), ..a }
                    } else {
                        ArgsView { desc: Some(t), ..a }
                    },
                ),
                Err(e) => Err(e),
            }
        } else {
            Err(
                FaultView {
                    site: Site::ArgName { item: at.item, attr: at.attr, arg: at.arg },
                    message: "unknown jev attribute `"@ + id@ + "` (expected instructions, levels, yes, no, name, key, desc)"@,
                },
            )
        },
    }
}

/// The arguments of one attribute read, one after the other.
pub open spec fn list_read(a: ArgsView, list: Seq<Arg>, item: usize, attr: usize) -> Result<ArgsView, FaultView>
    decreases list.len(),
{
    if list.len() == 0 {
        Ok(a)
    } else {
        match list_read(a, list.drop_last(), item, attr) {
            Err(e) => Err(e),
            Ok(b) => arg_read(b, list.last(), ArgPlace { item, attr, arg: (list.len() - 1) as usize }),
        }
    }
}

/// One attribute read: only those named `jev` count.
pub open spec fn attr_read(a: ArgsView, attribute: Attribute, item: usize, attr: usize) -> Result<ArgsView, FaultView> {
    if attribute.name@ == "jev"@ {
        match attribute.meta {
            Meta::List(list) => list_read(a, list@, item, attr),
            Meta::Unreadable => Err(FaultView { site: Site::Arguments { item, attr }, message: ""@ }),
            _ => Err(FaultView { site: Site::Attribute { item, attr }, message: "expected #[jev(...)]"@ }),
        }
    } else {
        Ok(a)
    }
}

/// The attributes of a variant or field read, one after the other.
pub open spec fn attrs_read(attrs: Seq<Attribute>, item: usize) -> Result<ArgsView, FaultView>
    decreases attrs.len(),
{
    if attrs.len() == 0 {
        Ok(no_args())
    } else {
        match attrs_read(attrs.drop_last(), item) {
            Err(e) => Err(e),
            Ok(a) => attr_read(a, attrs.last(), item, (attrs.len() - 1) as usize),
        }
    }
}

proof fn lemma_list_fault_stays(a: ArgsView, list: Seq<Arg>, item: usize, attr: usize, k: int)
    requires
        0 <= k <= list.len(),
        list_read(a, list.take(k), item, attr) is Err,
    ensures
        list_read(a, list, item, attr) == list_read(a, list.take(k), item, attr),
    decreases list.len(),
{
    if k < list.len() {
        assert(list.drop_last().take(k) =~= list.take(k));
        lemma_list_fault_stays(a, list.drop_last(), item, attr, k);
    } else {
        assert(list.take(k) =~= list);
    }
}

proof fn lemma_attrs_fault_stays(attrs: Seq<Attribute>, item: usize, k: int)
    requires
        0 <= k <= attrs.len(),
        attrs_read(attrs.take(k), item) is Err,
    ensures
        attrs_read(attrs, item) == attrs_read(attrs.take(k), item),
    decreases attrs.len(),
{
    if k < attrs.len() {
        assert(attrs.drop_last().take(k) =~= attrs.take(k));
        lemma_attrs_fault_stays(attrs.drop_last(), item, k);
    } else {
        assert(attrs.take(k) =~= attrs);
    }
}

fn expr_str(v: &ArgValue, item: usize, attr: usize, arg: usize) -> (r: Result<String, Fault>)
    ensures
        match arg_text(*v, ArgPlace { item, attr, arg }) {
            Ok(t) => r matches Ok(s) && s@ == t,
            Err(e) => r matches Err(f) && f@ == e,
        },
{
    match v {
        ArgValue::Text(s) => Ok(s.clone()),
        _ => Err(fault(Site::ArgValue { item, attr, arg }, "expected a string literal")),
    }
}

fn expr_str_array(v: &ArgValue, item: usize, attr: usize, arg: usize) -> (r: Result<Vec<String>, Fault>)
    ensures
        match arg_texts(*v, ArgPlace { item, attr, arg }) {
            Ok(t) => r matches Ok(s) && strings(s@) == t,
            Err(e) => r matches Err(f) && f@ == e,
        },
{
    match v {
        ArgValue::List(items) => {
            let ghost want = items@.map_values(|x: ArgValue| text_value(x)->0);
            let n = items.len();
            let mut out: Vec<String> = Vec::new();
            let mut i: usize = 0;
            assert(items@.skip(0) =~= items@);
            assert(strings(out@) =~= want.take(0));
            while i < n
                invariant
                    i <= n == items@.len(),
                    *v == ArgValue::List(*items),
                    want == items@.map_values(|x: ArgValue| text_value(x)->0),
                    leading_texts(items@) == i + leading_texts(items@.skip(i as int)),
                    strings(out@) == want.take(i as int),
                decreases n - i,
            {
                assert(items@.skip(i as int)[0] == items@[i as int]);
                match &items[i] {
                    ArgValue::Text(s) => {
                        let ghost before = strings(out@);
                        out.push(s.clone());
                        assert(strings(out@) =~= before.push(s@));
                        assert(before.push(s@) =~= want.take(i + 1));
                    },
                    _ => {
                        return Err(fault(Site::ArgElement { item, attr, arg, element: i }, "expected a string literal"));
                    },
                }
                assert(items@.skip(i as int).drop_first() =~= items@.skip(i + 1));
                i += 1;
            }
            assert(items@.skip(n as int).len() == 0);
            assert(want.take(n as int) =~= want);
            Ok(out)
        },
        _ => Err(fault(Site::ArgValue { item, attr, arg }, "expected an array of string literals: [\"a\", \"b\"]")),
    }
}

impl JevArgs {
    fn read(&mut self, a: &Arg, item: usize, attr: usize, arg: usize) -> (r: Result<(), Fault>)
        ensures
            match arg_read(old(self)@, *a, ArgPlace { item, attr, arg }) {
                Ok(b) => r is Ok && final(self)@ == b,
                Err(e) => r matches Err(f) && f@ == e,
            },
    {
        match a {
            Arg::Positional(s) => {
                self.instructions = Some(s.clone());
                Ok(())
            },
            Arg::Named(id, v) => {
                if equal(id.as_str(), "levels") {
                    match expr_str_array(v, item, attr, arg) {
                        Ok(t) => {
                            self.levels = Some(t);
                            Ok(())
                        },
                        Err(e) => Err(e),
                    }
                } else if equal(id.as_str(), "instructions") {
                    match expr_str(v, item, attr, arg) {
                        Ok(t) => {
                            self.instructions = Some(t);
                            Ok(())
                        },
                        Err(e) => Err(e),
                    }
                } else if equal(id.as_str(), "yes") {
                    match expr_str(v, item, attr, arg) {
                        Ok(t) => {
                            self.yes = Some(t);
                            Ok(())
                        },
                        Err(e) => Err(e),
                    }
                } else if equal(id.as_str(), "no") {
                    match expr_str(v, item, attr, arg) {
                        Ok(t) => {
                            self.no = Some(t);
                            Ok(())
                        },
                        Err(e) => Err(e),
                    }
                } else if equal(id.as_str(), "name") {
                    match expr_str(v, item, attr, arg) {
                        Ok(t) => {
                            self.name = Some(t);
                            Ok(())
                        },
                        Err(e) => Err(e),
                    }
                } else if equal(id.as_str(), "key") {
                    match expr_str(v, item, attr, arg) {
                        Ok(t) => {
                            self.key = Some(t);
                            Ok(())
                        },
                        Err(e) => Err(e),
                    }
                } else if equal(id.as_str(), "desc") {
                    match expr_str(v, item, attr, arg) {
                        Ok(t) => {
                            self.desc = Some(t);
                            Ok(())
                        },
                        Err(e) => Err(e),
                    }
                } else {
                    let mut m = "unknown jev attribute `".to_owned();
                    m.push_str(id.as_str());
                    m.push_str("` (expected instructions, levels, yes, no, name, key, desc)");
                    Err(Fault { site: Site::ArgName { item, attr, arg }, message: m })
                }
            },
        }
    }

    fn read_list(&mut self, list: &Vec<Arg>, item: usize, attr: usize) -> (r: Result<(), Fault>)
        ensures
            match list_read(old(self)@, list@, item, attr) {
                Ok(b) => r is Ok && final(self)@ == b,
                Err(e) => r matches Err(f) && f@ == e,
            },
    {
        let n = list.len();
        let mut k: usize = 0;
        assert(list@.take(0) =~= seq![]);
        while k < n
            invariant
                k <= n == list@.len(),
                list_read(old(self)@, list@.take(k as int), item, attr) == Ok::<ArgsView, FaultView>(self@),
            decreases n - k,
        {
            assert(list@.take(k + 1).drop_last() =~= list@.take(k as int));
            assert(list@.take(k + 1).last() == list@[k as int]);
            match self.read(&list[k], item, attr, k) {
                Ok(_) => {},
                Err(e) => {
                    proof {
                        lemma_list_fault_stays(old(self)@, list@, item, attr, k + 1);
                    }
                    return Err(e);
                },
            }
            k += 1;
        }
        assert(list@.take(n as int) =~= list@);
        Ok(())
    }

    /// What the `#[jev(...)]` attributes of variant or field number `item` say.
    pub fn from_attrs(attrs: &Vec<Attribute>, item: usize) -> (r: Result<JevArgs, Fault>)
        ensures
            match attrs_read(attrs@, item) {
                Ok(a) => r matches Ok(b) && b@ == a,
                Err(e) => r matches Err(f) && f@ == e,
            },
    {
        let mut out = JevArgs { instructions: None, levels: None, yes: None, no: None, name: None, key: None, desc: None };
        let n = attrs.len();
        let mut i: usize = 0;
        assert(attrs@.take(0) =~= seq![]);
        while i < n
            invariant
                i <= n == attrs@.len(),
                attrs_read(attrs@.take(i as int), item) == Ok::<ArgsView, FaultView>(out@),
            decreases n - i,
        {
            assert(attrs@.take(i + 1).drop_last() =~= attrs@.take(i as int));
            assert(attrs@.take(i + 1).last() == attrs@[i as int]);
            if equal(attrs[i].name.as_str(), "jev") {
                let bad = match &attrs[i].meta {
                    Meta::List(list) => match out.read_list(list, item, i) {
                        Ok(_) => None,
                        Err(e) => Some(e),
                    },
                    Meta::Unreadable => Some(fault(Site::Arguments { item, attr: i }, "")),
                    _ => Some(fault(Site::Attribute { item, attr: i }, "expected #[jev(...)]")),
                };
                match bad {
                    Some(e) => {
                        proof {
                            lemma_attrs_fault_stays(attrs@, item, i + 1);
                        }
                        return Err(e);
                    },
                    None => {},
                }
            }
            i += 1;
        }
        assert(attrs@.take(n as int) =~= attrs@);
        Ok(out)
    }
}

/// The lines of the doc comment, each trimmed.
pub open spec fn doc_lines(attrs: Seq<Attribute>) -> Seq<Seq<char>>
    decreases attrs.len(),
{
    if attrs.len() == 0 {
        seq![]
    } else {
        let rest = doc_lines(attrs.drop_last());
        let a = attrs.last();
        if a.name@ == "doc"@ && (a.meta matches Meta::Value(ArgValue::Text(_))) {
            rest.push(trim((a.meta->Value_0)->Text_0@))
        } else {
            rest
        }
    }
}

/// The doc comment as one text, where there is one.
pub open spec fn doc_text(attrs: Seq<Attribute>) -> Option<Seq<char>> {
    if doc_lines(attrs).len() == 0 {
        None
    } else {
        Some(join(doc_lines(attrs), seq![' ']))
    }
}

/// Join `///` doc comment lines into one description.
pub fn doc_comment(attrs: &Vec<Attribute>) -> (r: Option<String>)
    ensures
        opt_text(r) == doc_text(attrs@),
{
    let n = attrs.len();
    let mut lines: Vec<Vec<char>> = Vec::new();
    let mut i: usize = 0;
    assert(attrs@.take(0) =~= seq![]);
    assert(texts(lines@) =~= seq![]);
    while i < n
        invariant
            i <= n == attrs@.len(),
            texts(lines@) == doc_lines(attrs@.take(i as int)),
        decreases n - i,
    {
        assert(attrs@.take(i + 1).drop_last() =~= attrs@.take(i as int));
        assert(attrs@.take(i + 1).last() == attrs@[i as int]);
        if equal(attrs[i].name.as_str(), "doc") {
            match &attrs[i].meta {
                Meta::Value(ArgValue::Text(s)) => {
                    let ghost before = texts(lines@);
                    let cs = chars_of(s.as_str());
                    lines.push(copy_chars(trimmed(cs.as_slice())));
                    assert(texts(lines@) =~= before.push(trim(s@)));
                },
                _ => {},
            }
        }
        i += 1;
    }
    assert(attrs@.take(n as int) =~= attrs@);
    if lines.len() == 0 {
        None
    } else {
        let sep: Vec<char> = vec![' '];
        assert(sep@ =~= seq![' ']);
        Some(string_of(join_texts(&lines, sep.as_slice()).as_slice()))
    }
}

// ---------------------------------------------------------------------------
// Choices
// ---------------------------------------------------------------------------

/// A name in snake case: what `heck` makes of it.
pub uninterp spec fn snake_case(name: Seq<char>) -> Seq<char>;

/// `heck::ToSnakeCase::to_snake_case` rewrites a name in lower case with an
/// underscore at each word boundary.
#[verifier::external_body]
fn to_snake_case(name: &str) -> (r: String)
    ensures
        r@ == snake_case(name@),
{
    heck::ToSnakeCase::to_snake_case(name)
}

/// One option: its key and its description.
#[derive(Debug, PartialEq, Eq)]
pub struct ChoiceOption {
    pub key: String,
    pub desc: Option<String>,
}

/// The options as pairs of key and description.
pub open spec fn option_views(v: Seq<ChoiceOption>) -> Seq<(Seq<char>, Option<Seq<char>>)> {
    v.map_values(|o: ChoiceOption| (o.key@, opt_text(o.desc)))
}

pub open spec fn or_text(a: Option<Seq<char>>, b: Option<Seq<char>>) -> Option<Seq<char>> {
    match a {
        Some(_) => a,
        None => b,
    }
}

/// The option that a variant stands for.
pub open spec fn variant_option(v: Variant, item: usize) -> Result<(Seq<char>, Option<Seq<char>>), FaultView> {
    if !v.unit {
        Err(FaultView { site: Site::Item { item }, message: "JevChoice variants must be unit variants"@ })
    } else {
        match attrs_read(v.attrs@, item) {
            Err(e) => Err(e),
            Ok(a) => Ok(
                (
                    match a.key {
                        Some(k) => k,
                        None => snake_case(v.ident@),
                    },
                    or_text(a.desc, doc_text(v.attrs@)),
                ),
            ),
        }
    }
}

pub open spec fn variant_options(vs: Seq<Variant>) -> Result<Seq<(Seq<char>, Option<Seq<char>>)>, FaultView>
    decreases vs.len(),
{
    if vs.len() == 0 {
        Ok(seq![])
    } else {
        match variant_options(vs.drop_last()) {
            Err(e) => Err(e),
            Ok(out) => match variant_option(vs.last(), (vs.len() - 1) as usize) {
                Err(e) => Err(e),
                Ok(o) => Ok(out.push(o)),
            },
        }
    }
}

pub open spec fn input_fault(message: Seq<char>) -> FaultView {
    FaultView { site: Site::Input, message }
}

/// The options of a choice, one per variant in declaration order, or the
/// first fault.
pub open spec fn choice_plan(input: Input) -> Result<Seq<(Seq<char>, Option<Seq<char>>)>, FaultView> {
    match input {
        Input::Enum(vs) => if vs@.len() > MAX_CHOICE_OPTIONS {
            Err(input_fault("a choice may have at most 255 options"@))
        } else if vs@.len() == 0 {
            Err(input_fault("a choice needs at least one option"@))
        } else {
            variant_options(vs@)
        },
        _ => Err(input_fault("JevChoice can only be derived for enums"@)),
    }
}

proof fn lemma_variant_fault_stays(vs: Seq<Variant>, k: int)
    requires
        0 <= k <= vs.len(),
        variant_options(vs.take(k)) is Err,
    ensures
        variant_options(vs) == variant_options(vs.take(k)),
    decreases vs.len(),
{
    if k < vs.len() {
        assert(vs.drop_last().take(k) =~= vs.take(k));
        lemma_variant_fault_stays(vs.drop_last(), k);
    } else {
        assert(vs.take(k) =~= vs);
    }
}

fn option_of(v: &Variant, item: usize) -> (r: Result<ChoiceOption, Fault>)
    ensures
        match variant_option(*v, item) {
            Ok(o) => r matches Ok(c) && (c.key@, opt_text(c.desc)) == o,
            Err(e) => r matches Err(f) && f@ == e,
        },
{
    if !v.unit {
        return Err(fault(Site::Item { item }, "JevChoice variants must be unit variants"));
    }
    match JevArgs::from_attrs(&v.attrs, item) {
        Err(e) => Err(e),
        Ok(args) => {
            let key = match args.key {
                Some(k) => k,
                None => to_snake_case(v.ident.as_str()),
            };
            let desc = match args.desc {
                Some(d) => Some(d),
                None => doc_comment(&v.attrs),
            };
            Ok(ChoiceOption { key, desc })
        },
    }
}

/// The options that an enum stands for.
pub fn expand_choice(input: &Input) -> (r: Result<Vec<ChoiceOption>, Fault>)
    ensures
        match choice_plan(*input) {
            Ok(p) => r matches Ok(v) && option_views(v@) == p,
            Err(e) => r matches Err(f) && f@ == e,
        },
{
    match input {
        Input::Enum(vs) => {
            if vs.len() > MAX_CHOICE_OPTIONS {
                return Err(fault(Site::Input, "a choice may have at most 255 options"));
            }
            if vs.len() == 0 {
                return Err(fault(Site::Input, "a choice needs at least one option"));
            }
            let n = vs.len();
            let mut out: Vec<ChoiceOption> = Vec::new();
            let mut i: usize = 0;
            assert(vs@.take(0) =~= seq![]);
            assert(option_views(out@) =~= seq![]);
            while i < n
                invariant
                    i <= n == vs@.len(),
                    0 < n <= MAX_CHOICE_OPTIONS,
                    *input == Input::Enum(*vs),
                    variant_options(vs@.take(i as int)) == Ok::<Seq<(Seq<char>, Option<Seq<char>>)>, FaultView>(option_views(out@)),
                decreases n - i,
            {
                assert(vs@.take(i + 1).drop_last() =~= vs@.take(i as int));
                assert(vs@.take(i + 1).last() == vs@[i as int]);
                match option_of(&vs[i], i) {
                    Ok(o) => {
                        let ghost before = option_views(out@);
                        out.push(o);
                        assert(option_views(out@) =~= before.push((o.key@, opt_text(o.desc))));
                    },
                    Err(e) => {
                        proof {
                            lemma_variant_fault_stays(vs@, i + 1);
                        }
                        return Err(e);
                    },
                }
                i += 1;
            }
            assert(vs@.take(n as int) =~= vs@);
            Ok(out)
        },
        _ => Err(fault(Site::Input, "JevChoice can only be derived for enums")),
    }
}

// ---------------------------------------------------------------------------
// Questions
// ---------------------------------------------------------------------------

/// What a field's type makes of it.
#[derive(Debug, Clone, Copy, PartialEq, Eq, Structural)]
pub enum FieldKind {
    Noul,
    Choice,
    Score,
}

/// One question: the name it is asked under, its text, and what its kind needs.
#[derive(Debug, PartialEq, Eq)]
pub struct Question {
    pub wire: String,
    pub instructions: String,
    pub kind: QuestionKind,
}

#[derive(Debug, PartialEq, Eq)]
pub enum QuestionKind {
    /// With the criteria for yes and for no, where they are given.
    Noul(Option<(String, String)>),
    Choice,
    /// With the descriptions of the levels.
    Score(Vec<String>),
}

#[verifier::ext_equal]
pub struct PlanView {
    pub wire: Seq<char>,
    pub instructions: Seq<char>,
    pub kind: KindView,
}

#[verifier::ext_equal]
pub enum KindView {
    Noul(Option<(Seq<char>, Seq<char>)>),
    Choice,
    Score(Seq<Seq<char>>),
}

impl View for QuestionKind {
    type V = KindView;

    open spec fn view(&self) -> KindView {
        match self {
            QuestionKind::Noul(Some((y, n))) => KindView::Noul(Some((y@, n@))),
            QuestionKind::Noul(None) => KindView::Noul(None),
            QuestionKind::Choice => KindView::Choice,
            QuestionKind::Score(levels) => KindView::Score(strings(levels@)),
        }
    }
}

impl View for Question {
    type V = PlanView;

    open spec fn view(&self) -> PlanView {
        PlanView { wire: self.wire@, instructions: self.instructions@, kind: self.kind@ }
    }
}

/// The kind of a field by its type.
pub open spec fn kind_of_type(ty: FieldType, item: usize) -> Result<FieldKind, FaultView> {
    match ty {
        FieldType::Other => Err(
            FaultView { site: Site::Type { item }, message: "field type must be Noul, Choice<E> or Score"@ },
        ),
        FieldType::Path { last, generics } => if last@ == "Noul"@ {
            Ok(FieldKind::Noul)
        } else if last@ == "Score"@ {
            Ok(FieldKind::Score)
        } else if last@ == "Choice"@ {
            match generics {
                Generics::Type => Ok(FieldKind::Choice),
                _ => Err(FaultView { site: Site::Type { item }, message: "Choice needs a type parameter: Choice<MyEnum>"@ }),
            }
        } else {
            Err(
                FaultView {
                    site: Site::Type { item },
                    message: "unsupported field type `"@ + last@ + "`; use Noul, Choice<E> or Score"@,
                },
            )
        },
    }
}

pub open spec fn item_fault(item: usize, message: Seq<char>) -> FaultView {
    FaultView { site: Site::Item { item }, message }
}

/// What a field of a kind needs, out of its attributes.
pub open spec fn planned_kind(kind: FieldKind, a: ArgsView, item: usize) -> Result<KindView, FaultView> {
    match kind {
        FieldKind::Noul => match (a.yes, a.no) {
            (Some(y), Some(n)) => Ok(KindView::Noul(Some((y, n)))),
            (None, None) => Ok(KindView::Noul(None)),
            _ => Err(item_fault(item, "`yes` and `no` must be given together"@)),
        },
        FieldKind::Choice => Ok(KindView::Choice),
        FieldKind::Score => match a.levels {
            None => Err(item_fault(item, "Score fields need #[jev(levels = [\"…\", …])]"@)),
            Some(levels) => if MIN_SCORE_LEVELS <= levels.len() <= MAX_SCORE_LEVELS {
                Ok(KindView::Score(levels))
            } else {
                Err(item_fault(item, "a score needs 2 to 10 levels"@))
            },
        },
    }
}

/// The question that a field stands for.
pub open spec fn field_question(f: Field, item: usize) -> Result<PlanView, FaultView> {
    match attrs_read(f.attrs@, item) {
        Err(e) => Err(e),
        Ok(a) => match or_text(a.instructions, doc_text(f.attrs@)) {
            None => Err(item_fault(item, "missing #[jev(\"instructions\")] (or a doc comment)"@)),
            Some(instructions) => match kind_of_type(f.ty, item) {
                Err(e) => Err(e),
                Ok(kind) => match planned_kind(kind, a, item) {
                    Err(e) => Err(e),
                    Ok(k) => Ok(
                        PlanView {
                            wire: match a.name {
                                Some(n) => n,
                                None => f.ident@,
                            },
                            instructions,
                            kind: k,
                        },
                    ),
                },
            },
        },
    }
}

pub open spec fn field_questions(fs: Seq<Field>) -> Result<Seq<PlanView>, FaultView>
    decreases fs.len(),
{
    if fs.len() == 0 {
        Ok(seq![])
    } else {
        match field_questions(fs.drop_last()) {
            Err(e) => Err(e),
            Ok(out) => match field_question(fs.last(), (fs.len() - 1) as usize) {
                Err(e) => Err(e),
                Ok(q) => Ok(out.push(q)),
            },
        }
    }
}

/// The questions of a struct, one per field in declaration order, or the
/// first fault.
pub open spec fn questions_plan(input: Input) -> Result<Seq<PlanView>, FaultView> {
    match input {
        Input::Named(fs) => field_questions(fs@),
        Input::Unnamed => Err(input_fault("JevQuestions needs named fields"@)),
        _ => Err(input_fault("JevQuestions can only be derived for structs"@)),
    }
}

/// What each question stands for.
pub open spec fn question_views(v: Seq<Question>) -> Seq<PlanView> {
    v.map_values(|q: Question| q@)
}

proof fn lemma_field_fault_stays(fs: Seq<Field>, k: int)
    requires
        0 <= k <= fs.len(),
        field_questions(fs.take(k)) is Err,
    ensures
        field_questions(fs) == field_questions(fs.take(k)),
    decreases fs.len(),
{
    if k < fs.len() {
        assert(fs.drop_last().take(k) =~= fs.take(k));
        lemma_field_fault_stays(fs.drop_last(), k);
    } else {
        assert(fs.take(k) =~= fs);
    }
}

/// The kind of field number `item` by its type.
pub fn field_kind(ty: &FieldType, item: usize) -> (r: Result<FieldKind, Fault>)
    ensures
        match kind_of_type(*ty, item) {
            Ok(k) => r matches Ok(j) && j == k,
            Err(e) => r matches Err(f) && f@ == e,
        },
{
    match ty {
        FieldType::Other => Err(fault(Site::Type { item }, "field type must be Noul, Choice<E> or Score")),
        FieldType::Path { last, generics } => {
            if equal(last.as_str(), "Noul") {
                Ok(FieldKind::Noul)
            } else if equal(last.as_str(), "Score") {
                Ok(FieldKind::Score)
            } else if equal(last.as_str(), "Choice") {
                match generics {
                    Generics::Type => Ok(FieldKind::Choice),
                    _ => Err(fault(Site::Type { item }, "Choice needs a type parameter: Choice<MyEnum>")),
                }
            } else {
                let mut m = "unsupported field type `".to_owned();
                m.push_str(last.as_str());
                m.push_str("`; use Noul, Choice<E> or Score");
                Err(Fault { site: Site::Type { item }, message: m })
            }
        },
    }
}

fn plan_kind(kind: FieldKind, yes: Option<String>, no: Option<String>, levels: Option<Vec<String>>, item: usize) -> (r: Result<
    QuestionKind,
    Fault,
>)
    ensures
        match planned_kind(kind, ArgsView { yes: opt_text(yes), no: opt_text(no), levels: opt_texts(levels), ..no_args() }, item) {
            Ok(k) => r matches Ok(j) && j@ == k,
            Err(e) => r matches Err(f) && f@ == e,
        },
{
    match kind {
        FieldKind::Noul => match (yes, no) {
            (Some(y), Some(n)) => Ok(QuestionKind::Noul(Some((y, n)))),
            (None, None) => Ok(QuestionKind::Noul(None)),
            _ => Err(fault(Site::Item { item }, "`yes` and `no` must be given together")),
        },
        FieldKind::Choice => Ok(QuestionKind::Choice),
        FieldKind::Score => match levels {
            None => Err(fault(Site::Item { item }, "Score fields need #[jev(levels = [\"…\", …])]")),
            Some(l) => {
                if l.len() < MIN_SCORE_LEVELS || l.len() > MAX_SCORE_LEVELS {
                    Err(fault(Site::Item { item }, "a score needs 2 to 10 levels"))
                } else {
                    Ok(QuestionKind::Score(l))
                }
            },
        },
    }
}

fn question_of(f: &Field, item: usize) -> (r: Result<Question, Fault>)
    ensures
        match field_question(*f, item) {
            Ok(q) => r matches Ok(p) && p@ == q,
            Err(e) => r matches Err(g) && g@ == e,
        },
{
    let args = match JevArgs::from_attrs(&f.attrs, item) {
        Ok(a) => a,
        Err(e) => {
            return Err(e);
        },
    };
    let wire = match args.name {
        Some(n) => n,
        None => f.ident.clone(),
    };
    let given = match args.instructions {
        Some(t) => Some(t),
        None => doc_comment(&f.attrs),
    };
    let instructions = match given {
        Some(t) => t,
        None => {
            return Err(fault(Site::Item { item }, "missing #[jev(\"instructions\")] (or a doc comment)"));
        },
    };
    let kind = match field_kind(&f.ty, item) {
        Ok(k) => k,
        Err(e) => {
            return Err(e);
        },
    };
    match plan_kind(kind, args.yes, args.no, args.levels, item) {
        Ok(kind) => Ok(Question { wire, instructions, kind }),
        Err(e) => Err(e),
    }
}

/// The questions that a struct stands for.
pub fn expand_questions(input: &Input) -> (r: Result<Vec<Question>, Fault>)
    ensures
        match questions_plan(*input) {
            Ok(p) => r matches Ok(v) && question_views(v@) == p,
            Err(e) => r matches Err(f) && f@ == e,
        },
{
    match input {
        Input::Named(fs) => {
            let n = fs.len();
            let mut out: Vec<Question> = Vec::new();
            let mut i: usize = 0;
            assert(fs@.take(0) =~= seq![]);
            assert(question_views(out@) =~= seq![]);
            while i < n
                invariant
                    i <= n == fs@.len(),
                    *input == Input::Named(*fs),
                    field_questions(fs@.take(i as int)) == Ok::<Seq<PlanView>, FaultView>(question_views(out@)),
                decreases n - i,
            {
                assert(fs@.take(i + 1).drop_last() =~= fs@.take(i as int));
                assert(fs@.take(i + 1).last() == fs@[i as int]);
                match question_of(&fs[i], i) {
                    Ok(q) => {
                        let ghost before = question_views(out@);
                        out.push(q);
                        assert(question_views(out@) =~= before.push(q@));
                    },
                    Err(e) => {
                        proof {
                            lemma_field_fault_stays(fs@, i + 1);
                        }
                        return Err(e);
                    },
                }
                i += 1;
            }
            assert(fs@.take(n as int) =~= fs@);
            Ok(out)
        },
        Input::Unnamed => Err(fault(Site::Input, "JevQuestions needs named fields")),
        _ => Err(fault(Site::Input, "JevQuestions can only be derived for structs")),
    }
}

// ---------------------------------------------------------------------------
// Laws
// ---------------------------------------------------------------------------

/// The options stand for the variants, one for each.
proof fn lemma_variant_options(vs: Seq<Variant>)
    ensures
        variant_options(vs) matches Ok(p) ==> p.len() == vs.len() && forall|i: int|
            0 <= i < vs.len() ==> variant_option(#[trigger] vs[i], i as usize) == Ok::<(Seq<char>, Option<Seq<char>>), FaultView>(p[i]),
    decreases vs.len(),
{
    if vs.len() > 0 {
        lemma_variant_options(vs.drop_last());
        if let Ok(p) = variant_options(vs) {
            assert forall|i: int| 0 <= i < vs.len() implies variant_option(#[trigger] vs[i], i as usize) == Ok::<
                (Seq<char>, Option<Seq<char>>),
                FaultView,
            >(p[i]) by {
                if i < vs.len() - 1 {
                    assert(vs.drop_last()[i] == vs[i]);
                }
            }
        }
    }
}

/// An enum that a choice is derived for has one option per variant, at least
/// one and at most 255.
pub proof fn derived_choice_keeps_limits(vs: Vec<Variant>)
    ensures
        choice_plan(Input::Enum(vs)) matches Ok(p) ==> p.len() == vs@.len() && 1 <= p.len() <= MAX_CHOICE_OPTIONS,
{
    lemma_variant_options(vs@);
}

/// A struct that questions are derived for has one question per field, and
/// each scale has 2 to 10 levels.
pub proof fn derived_questions_keep_limits(fs: Seq<Field>)
    ensures
        field_questions(fs) matches Ok(p) ==> p.len() == fs.len() && forall|i: int|
            0 <= i < p.len() ==> ((#[trigger] p[i]).kind matches KindView::Score(levels) ==> MIN_SCORE_LEVELS <= levels.len() <= MAX_SCORE_LEVELS),
    decreases fs.len(),
{
    if fs.len() > 0 {
        derived_questions_keep_limits(fs.drop_last());
    }
}

/// What a plan asks; `options` are those of the enum that a choice is over.
pub open spec fn planned_spec(p: PlanView, options: Seq<(Seq<char>, Option<Seq<char>>)>) -> SpecView {
    match p.kind {
        KindView::Noul(criteria) => SpecView::Noul { instructions: p.instructions, criteria },
        KindView::Choice => SpecView::Choice { instructions: p.instructions, criteria: options },
        KindView::Score(levels) => SpecView::Score { instructions: p.instructions, criteria: levels },
    }
}

/// What is derived can be sent: each question of a struct keeps the limits of
/// the API, whichever derived enum a choice is over.
pub proof fn derived_questions_are_valid(fs: Seq<Field>, vs: Vec<Variant>)
    ensures
        match (field_questions(fs), choice_plan(Input::Enum(vs))) {
            (Ok(p), Ok(options)) => forall|i: int|
                0 <= i < p.len() ==> spec_fault((#[trigger] p[i]).wire, planned_spec(p[i], options)) is None,
            _ => true,
        },
{
    derived_questions_keep_limits(fs);
    derived_choice_keeps_limits(vs);
    match (field_questions(fs), choice_plan(Input::Enum(vs))) {
        (Ok(p), Ok(options)) => {
            assert forall|i: int| 0 <= i < p.len() implies spec_fault((#[trigger] p[i]).wire, planned_spec(p[i], options)) is None by {
                assert(p[i].kind matches KindView::Score(levels) ==> MIN_SCORE_LEVELS <= levels.len() <= MAX_SCORE_LEVELS);
            }
        },
        _ => {},
    }
}

/// Whether an enum is derived from variants: it has one variant for each, in
/// the same order, with the key and the description of the plan.
pub open spec fn is_derived_choice<E: AsChoice>(vs: Vec<Variant>) -> bool {
    match choice_plan(Input::Enum(vs)) {
        Ok(plan) => options_of::<E>() == plan,
        Err(_) => false,
    }
}

/// An enum that is derived has every variant once, in declaration order, and
/// its keys lead back: parsing the key of a variant gives that variant, what
/// parses has the key that was parsed, and what is no key does not parse. The
/// variants must not share a key.
pub proof fn derived_choice_round_trips<E: AsChoice>(vs: Vec<Variant>)
    requires
        is_derived_choice::<E>(vs),
        keys_distinct(E::variants()),
    ensures
        E::variants().len() == vs@.len(),
        E::variants().no_duplicates(),
        forall|key: &str, r: Option<E>| #[trigger] call_ensures(E::from_key, (key,), r) ==> r == with_key(E::variants(), key@),
        forall|i: int|
            0 <= i < vs@.len() ==> Ok::<(Seq<char>, Option<Seq<char>>), FaultView>(
                ((#[trigger] E::variants()[i]).wire_key(), E::variants()[i].wire_description()),
            ) == variant_option(vs@[i], i as usize),
        forall|i: int| 0 <= i < vs@.len() ==> with_key(E::variants(), (#[trigger] E::variants()[i]).wire_key()) == Some(E::variants()[i]),
        forall|key: Seq<char>|
            match #[trigger] with_key(E::variants(), key) {
                Some(v) => E::variants().contains(v) && v.wire_key() == key,
                None => forall|i: int| 0 <= i < vs@.len() ==> (#[trigger] E::variants()[i]).wire_key() != key,
            },
{
    let all = E::variants();
    let plan = choice_plan(Input::Enum(vs))->Ok_0;
    lemma_variant_options(vs@);
    assert(options_of::<E>().len() == all.len());
    assert forall|i: int, j: int| 0 <= i < all.len() && 0 <= j < all.len() && i != j implies all[i] != all[j] by {
        if i < j {
            assert(all[i].wire_key() != all[j].wire_key());
        } else {
            assert(all[j].wire_key() != all[i].wire_key());
        }
    }
    assert forall|i: int| 0 <= i < vs@.len() implies Ok::<(Seq<char>, Option<Seq<char>>), FaultView>(
        ((#[trigger] all[i]).wire_key(), all[i].wire_description()),
    ) == variant_option(vs@[i], i as usize) by {
        assert(options_of::<E>()[i] == plan[i]);
    }
    assert forall|key: &str, r: Option<E>| #[trigger] call_ensures(E::from_key, (key,), r) implies r == with_key(all, key@) by {
        lemma_parsed_is_with_key(key@, r);
    }
    assert forall|i: int| 0 <= i < vs@.len() implies with_key(all, (#[trigger] all[i]).wire_key()) == Some(all[i]) by {
        assert(all.contains(all[i]));
        key_round_trip(all[i]);
    }
    assert forall|key: Seq<char>|
        match #[trigger] with_key(all, key) {
            Some(v) => all.contains(v) && v.wire_key() == key,
            None => forall|i: int| 0 <= i < vs@.len() ==> (#[trigger] all[i]).wire_key() != key,
        } by {
        parsed_key_matches(all, key);
    }
}

/// What a derived struct asks: the plan of each field under its wire name;
/// `options` holds, for each field that is a choice, the options of its enum.
pub open spec fn derived_asked(plans: Seq<PlanView>, options: Seq<Seq<(Seq<char>, Option<Seq<char>>)>>) -> Seq<(Seq<char>, SpecView)> {
    Seq::new(plans.len(), |i: int| (plans[i].wire, planned_spec(plans[i], options[i])))
}

/// Whether a struct is derived from fields whose choices are over the enums
/// derived from `enums`: it asks what the plans of its fields say, and is
/// filled whenever each field can be.
pub open spec fn is_derived_struct<T: AsQuestions>(fs: Seq<Field>, enums: Seq<Vec<Variant>>) -> bool {
    match field_questions(fs) {
        Ok(plans) => {
            &&& enums.len() == fs.len()
            &&& forall|i: int| 0 <= i < fs.len() && plans[i].kind is Choice ==> choice_plan(Input::Enum(#[trigger] enums[i])) is Ok
            &&& T::asked() == derived_asked(plans, Seq::new(fs.len(), |i: int| choice_plan(Input::Enum(enums[i]))->Ok_0))
            &&& T::fills_each_field()
        },
        Err(_) => false,
    }
}

/// No two questions share a name.
pub open spec fn names_distinct(asked: Seq<(Seq<char>, SpecView)>) -> bool {
    forall|i: int, j: int| 0 <= i < j < asked.len() ==> (#[trigger] asked[i]).0 != (#[trigger] asked[j]).0
}

/// Whether answers are the uniform ones to what is asked, `even[i]` being the
/// even distribution for question `i`.
pub open spec fn answered_evenly(answers: Map<Seq<char>, RawAnswer>, asked: Seq<(Seq<char>, SpecView)>, even: Seq<Even>) -> bool {
    forall|i: int|
        0 <= i < asked.len() ==> answers.contains_key((#[trigger] asked[i]).0) && answers[asked[i].0]@ == uniform_view(asked[i].1, even[i])
            && well_kept(answers[asked[i].0])
}

/// The keys of an answer's probabilities rise, as those of a sorted map do.
pub open spec fn well_kept(a: RawAnswer) -> bool {
    a matches RawAnswer::Score { probabilities, .. } ==> probabilities.wf()
}

/// The uniform answer to a question that keeps the limits decodes.
proof fn lemma_uniform_decodes(name: Seq<char>, q: SpecView, a: RawAnswer, even: Even)
    requires
        spec_fault(name, q) is None,
        a@ == uniform_view(q, even),
        well_kept(a),
    ensures
        decoded(name, q, a) is Ok,
{
    match q {
        SpecView::Noul { .. } => {},
        SpecView::Choice { criteria, .. } => {
            assert(criteria[0].0 == criteria[0].0);
            assert(has_option(criteria, criteria[0].0));
        },
        SpecView::Score { criteria, .. } => {
            match a {
                RawAnswer::Score { probabilities, .. } => {
                    let shares = Seq::new(criteria.len(), |i: int| even.share);
                    assert(viewed(probabilities@) =~= probabilities@);
                    numbered_levels_decode(probabilities, shares);
                },
                _ => {},
            }
        },
    }
}

/// Answers to a derived schema decode back: a struct with at least one field,
/// no two of which share a wire name, asks as many questions as it has fields,
/// its schema can be sent, and the uniform answers to it fill every field.
pub proof fn derived_answers_decode<T: AsQuestions>(
    fs: Seq<Field>,
    enums: Seq<Vec<Variant>>,
    answers: Map<Seq<char>, RawAnswer>,
    even: Seq<Even>,
)
    requires
        fs.len() > 0,
        is_derived_struct::<T>(fs, enums),
        names_distinct(T::asked()),
        answered_evenly(answers, T::asked(), even),
    ensures
        map_of(T::asked()).len() == fs.len(),
        schema_valid(map_of(T::asked())),
        all_decoded(T::asked(), answers) matches Ok(fields) && fields.len() == fs.len(),
        forall|raw: &RawAnswers, r: Result<T, Error>| raw.answers@ == answers && #[trigger] call_ensures(T::from_raw, (raw,), r) ==> r is Ok,
{
    let asked = T::asked();
    let plans = field_questions(fs)->Ok_0;
    let options = Seq::new(fs.len(), |i: int| choice_plan(Input::Enum(enums[i]))->Ok_0);
    let m = map_of(asked);
    derived_questions_keep_limits(fs);
    assert forall|i: int| 0 <= i < asked.len() implies spec_fault((#[trigger] asked[i]).0, asked[i].1) is None by {
        derived_choice_keeps_limits(enums[i]);
        assert(plans[i].kind is Choice ==> choice_plan(Input::Enum(enums[i])) is Ok);
        assert(asked[i] == (plans[i].wire, planned_spec(plans[i], options[i])));
    }
    lemma_map_of(asked);
    assert forall|k: Seq<char>| #[trigger] m.contains_key(k) implies spec_fault(k, m[k]) is None by {
        let i = choose|i: int| 0 <= i < asked.len() && #[trigger] asked[i].0 == k;
        assert(m.contains_pair(asked[i].0, asked[i].1));
    }
    filled_from_every_answer(asked, answers);
    if let Err(e) = all_decoded(asked, answers) {
        let i = choose|i: int|
            0 <= i < asked.len() && field_decoded(#[trigger] asked[i], answers) == Err::<FieldView, ErrorView>(e) && forall|j: int|
                0 <= j < i ==> field_decoded(#[trigger] asked[j], answers) is Ok;
        assert(answers.contains_key(asked[i].0));
        lemma_uniform_decodes(asked[i].0, asked[i].1, answers[asked[i].0], even[i]);
    }
}

/// What was written is seen whole: each argument of the attributes, each
/// option, each question.
pub proof fn plans_are_seen_whole(args: JevArgs, options: Seq<ChoiceOption>, i: int, q: Question, yes: String, no: String, levels: Vec<String>, k: int)
    requires
        0 <= i < options.len(),
        0 <= k < levels@.len(),
    ensures
        args@.instructions == opt_text(args.instructions) && args@.yes == opt_text(args.yes) && args@.no == opt_text(args.no),
        args@.name == opt_text(args.name) && args@.key == opt_text(args.key) && args@.desc == opt_text(args.desc),
        args.levels is None ==> args@.levels is None,
        args.levels == Some(levels) ==> (args@.levels matches Some(l) && l.len() == levels@.len() && l[k] == levels@[k]@),
        option_views(options).len() == options.len(),
        option_views(options)[i] == (options[i].key@, opt_text(options[i].desc)),
        q@.wire == q.wire@ && q@.instructions == q.instructions@ && q@.kind == q.kind@,
        QuestionKind::Noul(Some((yes, no)))@ == KindView::Noul(Some((yes@, no@))),
        QuestionKind::Noul(None)@ == KindView::Noul(None),
        QuestionKind::Choice@ is Choice,
        QuestionKind::Score(levels)@ matches KindView::Score(l) && l.len() == levels@.len() && l[k] == levels@[k]@,
{
}

/// An argument that stands alone is the instructions. One with a name sets
/// what it names to its text and nothing else; a name that is not known, and a
/// value that is no text, are refused at their place.
pub proof fn arguments_set_what_they_name(a: ArgsView, text: String, id: String, values: Vec<ArgValue>, at: ArgPlace)
    ensures
        arg_read(a, Arg::Positional(text), at) == Ok::<ArgsView, FaultView>(ArgsView { instructions: Some(text@), ..a }),
        ({
            let r = arg_read(a, Arg::Named(id, ArgValue::Text(text)), at);
            &&& id@ == "instructions"@ ==> r == Ok::<ArgsView, FaultView>(ArgsView { instructions: Some(text@), ..a })
            &&& id@ == "yes"@ ==> r == Ok::<ArgsView, FaultView>(ArgsView { yes: Some(text@), ..a })
            &&& id@ == "no"@ ==> r == Ok::<ArgsView, FaultView>(ArgsView { no: Some(text@), ..a })
            &&& id@ == "name"@ ==> r == Ok::<ArgsView, FaultView>(ArgsView { name: Some(text@), ..a })
            &&& id@ == "key"@ ==> r == Ok::<ArgsView, FaultView>(ArgsView { key: Some(text@), ..a })
            &&& id@ == "desc"@ ==> r == Ok::<ArgsView, FaultView>(ArgsView { desc: Some(text@), ..a })
            &&& id@ == "levels"@ ==> r == Err::<ArgsView, FaultView>(
                FaultView {
                    site: Site::ArgValue { item: at.item, attr: at.attr, arg: at.arg },
                    message: "expected an array of string literals: [\"a\", \"b\"]"@,
                },
            )
            &&& r is Ok ==> id@ == "instructions"@ || id@ == "yes"@ || id@ == "no"@ || id@ == "name"@ || id@ == "key"@ || id@ == "desc"@
        }),
        id@ == "instructions"@ || id@ == "yes"@ || id@ == "no"@ || id@ == "name"@ || id@ == "key"@ || id@ == "desc"@ ==> {
            &&& forall|v: ArgValue|
                !(v is Text) ==> #[trigger] arg_read(a, Arg::Named(id, v), at) == Err::<ArgsView, FaultView>(
                    FaultView {
                        site: Site::ArgValue { item: at.item, attr: at.attr, arg: at.arg },
                        message: "expected a string literal"@,
                    },
                )
        },
        id@ != "instructions"@ && id@ != "yes"@ && id@ != "no"@ && id@ != "name"@ && id@ != "key"@ && id@ != "desc"@ && id@ != "levels"@ ==> {
            &&& forall|v: ArgValue|
                #[trigger] arg_read(a, Arg::Named(id, v), at) == Err::<ArgsView, FaultView>(
                    FaultView {
                        site: Site::ArgName { item: at.item, attr: at.attr, arg: at.arg },
                        message: "unknown jev attribute `"@ + id@ + "` (expected instructions, levels, yes, no, name, key, desc)"@,
                    },
                )
        },
        id@ == "levels"@ ==> {
            &&& (forall|i: int| 0 <= i < values@.len() ==> #[trigger] values@[i] is Text) ==> (arg_read(
                a,
                Arg::Named(id, ArgValue::List(values)),
                at,
            ) matches Ok(r) && r == (ArgsView { levels: r.levels, ..a }) && (r.levels matches Some(l) && l.len() == values@.len() && forall|i: int|
                0 <= i < values@.len() ==> #[trigger] l[i] == values@[i]->Text_0@))
            &&& forall|i: int|
                0 <= i < values@.len() && !(#[trigger] values@[i] is Text) && (forall|j: int| 0 <= j < i ==> #[trigger] values@[j] is Text)
                    ==> arg_read(a, Arg::Named(id, ArgValue::List(values)), at) == Err::<ArgsView, FaultView>(
                    FaultView {
                        site: Site::ArgElement { item: at.item, attr: at.attr, arg: at.arg, element: i as usize },
                        message: "expected a string literal"@,
                    },
                )
        },
{
    lemma_argument_names();
    if forall|i: int| 0 <= i < values@.len() ==> #[trigger] values@[i] is Text {
        lemma_leading_texts(values@, values@.len() as int);
    }
    assert forall|i: int|
        0 <= i < values@.len() && !(#[trigger] values@[i] is Text) && (forall|j: int| 0 <= j < i ==> #[trigger] values@[j] is Text) implies leading_texts(
        values@,
    ) == i by {
        lemma_leading_texts(values@, i);
    }
}

/// The names of arguments are different texts.
proof fn lemma_argument_names()
    ensures
        "instructions"@ != "yes"@ && "instructions"@ != "no"@ && "instructions"@ != "name"@ && "instructions"@ != "key"@ && "instructions"@
            != "desc"@ && "instructions"@ != "levels"@,
        "yes"@ != "no"@ && "yes"@ != "name"@ && "yes"@ != "key"@ && "yes"@ != "desc"@ && "yes"@ != "levels"@,
        "no"@ != "name"@ && "no"@ != "key"@ && "no"@ != "desc"@ && "no"@ != "levels"@,
        "name"@ != "key"@ && "name"@ != "desc"@ && "name"@ != "levels"@,
        "key"@ != "desc"@ && "key"@ != "levels"@,
        "desc"@ != "levels"@,
{
    reveal_strlit("instructions");
    reveal_strlit("yes");
    reveal_strlit("no");
    reveal_strlit("name");
    reveal_strlit("key");
    reveal_strlit("desc");
    reveal_strlit("levels");
    assert("instructions"@.len() == 12 && "levels"@.len() == 6);
    assert("yes"@.len() == 3 && "key"@.len() == 3 && "no"@.len() == 2);
    assert("name"@.len() == 4 && "desc"@.len() == 4);
    assert("yes"@[0] == 'y' && "key"@[0] == 'k');
    assert("name"@[0] == 'n' && "desc"@[0] == 'd');
}

proof fn lemma_leading_texts(vs: Seq<ArgValue>, i: int)
    requires
        0 <= i <= vs.len(),
        i < vs.len() ==> !(vs[i] is Text),
        forall|j: int| 0 <= j < i ==> #[trigger] vs[j] is Text,
    ensures
        leading_texts(vs) == i,
    decreases i,
{
    if i > 0 {
        assert(vs[0] is Text);
        assert forall|j: int| 0 <= j < i - 1 implies #[trigger] vs.drop_first()[j] is Text by {
            assert(vs[j + 1] is Text);
        }
        lemma_leading_texts(vs.drop_first(), i - 1);
    }
}

/// Arguments are read in order, each by its own place, up to the first fault:
/// what is read is what came before it with what it sets.
pub proof fn arguments_are_read_in_order(a: ArgsView, list: Seq<Arg>, arg: Arg, more: Seq<Arg>, item: usize, attr: usize)
    requires
        list.len() <= usize::MAX,
    ensures
        list_read(a, seq![], item, attr) == Ok::<ArgsView, FaultView>(a),
        match list_read(a, list, item, attr) {
            Ok(b) => {
                let r = arg_read(b, arg, ArgPlace { item, attr, arg: list.len() as usize });
                &&& list_read(a, list + seq![arg], item, attr) == r
                &&& r is Err ==> list_read(a, list + seq![arg] + more, item, attr) == r
            },
            Err(e) => list_read(a, list + seq![arg] + more, item, attr) == Err::<ArgsView, FaultView>(e),
        },
{
    let one = list + seq![arg];
    let all = one + more;
    assert(one.drop_last() =~= list);
    assert(one.last() == arg);
    assert(all.take(one.len() as int) =~= one);
    assert(all.take(list.len() as int) =~= list);
    if list_read(a, list, item, attr) is Err {
        lemma_list_fault_stays(a, all, item, attr, list.len() as int);
    } else if list_read(a, one, item, attr) is Err {
        lemma_list_fault_stays(a, all, item, attr, one.len() as int);
    }
}

/// Of the attributes only those named `jev` say anything, and they add up in
/// order; one without readable arguments is refused at its place.
pub proof fn attributes_add_up(attrs: Seq<Attribute>, attribute: Attribute, more: Seq<Attribute>, item: usize)
    requires
        attrs.len() <= usize::MAX,
    ensures
        attrs_read(seq![], item) == Ok::<ArgsView, FaultView>(
            ArgsView { instructions: None, levels: None, yes: None, no: None, name: None, key: None, desc: None },
        ),
        attribute.name@ != "jev"@ ==> attrs_read(attrs + seq![attribute], item) == attrs_read(attrs, item),
        match attrs_read(attrs, item) {
            Ok(a) => attribute.name@ == "jev"@ ==> {
                let r = match attribute.meta {
                    Meta::List(list) => list_read(a, list@, item, attrs.len() as usize),
                    Meta::Unreadable => Err(FaultView { site: Site::Arguments { item, attr: attrs.len() as usize }, message: ""@ }),
                    _ => Err(FaultView { site: Site::Attribute { item, attr: attrs.len() as usize }, message: "expected #[jev(...)]"@ }),
                };
                &&& attrs_read(attrs + seq![attribute], item) == r
                &&& r is Err ==> attrs_read(attrs + seq![attribute] + more, item) == r
            },
            Err(e) => attrs_read(attrs + seq![attribute] + more, item) == Err::<ArgsView, FaultView>(e),
        },
{
    let one = attrs + seq![attribute];
    let all = one + more;
    assert(one.drop_last() =~= attrs);
    assert(one.last() == attribute);
    assert(all.take(one.len() as int) =~= one);
    assert(all.take(attrs.len() as int) =~= attrs);
    if attrs_read(attrs, item) is Err {
        lemma_attrs_fault_stays(all, item, attrs.len() as int);
    } else if attrs_read(one, item) is Err {
        lemma_attrs_fault_stays(all, item, one.len() as int);
    }
}

/// A doc comment is its lines in order, each trimmed, with a space between
/// them; attributes that are no doc comment have no part in it.
pub proof fn doc_comments_are_their_lines(a: Seq<Attribute>, b: Seq<Attribute>, attribute: Attribute, line: String)
    ensures
        doc_lines(a + b) == doc_lines(a) + doc_lines(b),
        attribute.name@ == "doc"@ && attribute.meta == Meta::Value(ArgValue::Text(line)) ==> doc_lines(seq![attribute]) == seq![trim(line@)],
        attribute.name@ != "doc"@ || !(attribute.meta matches Meta::Value(ArgValue::Text(_))) ==> doc_lines(seq![attribute]).len() == 0,
        doc_lines(a).len() == 0 ==> doc_text(a) is None,
        doc_lines(a).len() > 0 ==> doc_text(a) == Some(join(doc_lines(a), " "@)),
    decreases b.len(),
{
    reveal_with_fuel(doc_lines, 2);
    reveal_strlit(" ");
    assert(" "@ =~= seq![' ']);
    assert(seq![attribute].drop_last() =~= seq![]);
    if b.len() == 0 {
        assert(a + b =~= a);
        assert(doc_lines(a) + doc_lines(b) =~= doc_lines(a));
    } else {
        assert((a + b).drop_last() =~= a + b.drop_last());
        assert((a + b).last() == b.last());
        doc_comments_are_their_lines(a, b.drop_last(), attribute, line);
        assert(doc_lines(a + b) =~= doc_lines(a) + doc_lines(b));
    }
}

/// An option has the key that its variant gives, or the variant's name in
/// snake case; and the description that the variant gives, or its doc comment.
/// A variant that holds something is refused.
pub proof fn options_are_named_by_their_variants(v: Variant, item: usize)
    ensures
        !v.unit ==> variant_option(v, item) == Err::<(Seq<char>, Option<Seq<char>>), FaultView>(
            FaultView { site: Site::Item { item }, message: "JevChoice variants must be unit variants"@ },
        ),
        v.unit ==> match attrs_read(v.attrs@, item) {
            Err(e) => variant_option(v, item) == Err::<(Seq<char>, Option<Seq<char>>), FaultView>(e),
            Ok(a) => variant_option(v, item) matches Ok(o) && (match a.key {
                Some(k) => o.0 == k,
                None => o.0 == snake_case(v.ident@),
            }) && (match a.desc {
                Some(d) => o.1 == Some(d),
                None => o.1 == doc_text(v.attrs@),
            }),
        },
{
}

/// A choice has an option for each variant, in declaration order; where one has
/// a fault, the first such fault is told. Enums of 1 to 255 variants make a
/// choice, nothing else does.
pub proof fn options_stand_for_variants(vs: Vec<Variant>, i: int)
    requires
        0 <= i < vs@.len(),
        forall|j: int| 0 <= j < i ==> variant_option(#[trigger] vs@[j], j as usize) is Ok,
    ensures
        vs@.len() <= 255 ==> match variant_option(vs@[i], i as usize) {
            Ok(o) => choice_plan(Input::Enum(vs)) matches Ok(p) ==> p.len() == vs@.len() && p[i] == o,
            Err(e) => choice_plan(Input::Enum(vs)) == Err::<Seq<(Seq<char>, Option<Seq<char>>)>, FaultView>(e),
        },
        vs@.len() <= 255 && i == vs@.len() - 1 && variant_option(vs@[i], i as usize) is Ok ==> choice_plan(Input::Enum(vs)) is Ok,
        vs@.len() > 255 ==> choice_plan(Input::Enum(vs)) == Err::<Seq<(Seq<char>, Option<Seq<char>>)>, FaultView>(
            FaultView { site: Site::Input, message: "a choice may have at most 255 options"@ },
        ),
{
    lemma_variant_options(vs@);
    lemma_variants_up_to(vs@, i);
    assert(vs@.take(i + 1).drop_last() =~= vs@.take(i));
    assert(vs@.take(i + 1).last() == vs@[i]);
    if variant_option(vs@[i], i as usize) is Err {
        lemma_variant_fault_stays(vs@, i + 1);
    } else if i == vs@.len() - 1 {
        assert(vs@.take(i + 1) =~= vs@);
    }
}

proof fn lemma_variants_up_to(vs: Seq<Variant>, i: int)
    requires
        0 <= i <= vs.len(),
        forall|j: int| 0 <= j < i ==> variant_option(#[trigger] vs[j], j as usize) is Ok,
    ensures
        variant_options(vs.take(i)) is Ok,
    decreases i,
{
    if i > 0 {
        lemma_variants_up_to(vs, i - 1);
        assert(vs.take(i).drop_last() =~= vs.take(i - 1));
        assert(vs.take(i).last() == vs[i - 1]);
    }
}

/// An enum without variants, a struct and a union make no choice.
pub proof fn only_enums_make_choices(vs: Vec<Variant>, fs: Vec<Field>)
    ensures
        vs@.len() == 0 ==> choice_plan(Input::Enum(vs)) == Err::<Seq<(Seq<char>, Option<Seq<char>>)>, FaultView>(
            FaultView { site: Site::Input, message: "a choice needs at least one option"@ },
        ),
        forall|input: Input|
            !(input is Enum) ==> #[trigger] choice_plan(input) == Err::<Seq<(Seq<char>, Option<Seq<char>>)>, FaultView>(
                FaultView { site: Site::Input, message: "JevChoice can only be derived for enums"@ },
            ),
{
}

/// The type of a field says what is asked: `Noul`, `Score`, or `Choice` over a
/// type; every other type is refused.
pub proof fn kinds_go_by_type(last: String, generics: Generics, item: usize)
    ensures
        ({
            let r = kind_of_type(FieldType::Path { last, generics }, item);
            &&& last@ == "Noul"@ ==> r == Ok::<FieldKind, FaultView>(FieldKind::Noul)
            &&& last@ == "Score"@ ==> r == Ok::<FieldKind, FaultView>(FieldKind::Score)
            &&& last@ == "Choice"@ && generics is Type ==> r == Ok::<FieldKind, FaultView>(FieldKind::Choice)
            &&& last@ == "Choice"@ && !(generics is Type) ==> r == Err::<FieldKind, FaultView>(
                FaultView { site: Site::Type { item }, message: "Choice needs a type parameter: Choice<MyEnum>"@ },
            )
            &&& last@ != "Noul"@ && last@ != "Score"@ && last@ != "Choice"@ ==> r == Err::<FieldKind, FaultView>(
                FaultView { site: Site::Type { item }, message: "unsupported field type `"@ + last@ + "`; use Noul, Choice<E> or Score"@ },
            )
        }),
        kind_of_type(FieldType::Other, item) == Err::<FieldKind, FaultView>(
            FaultView { site: Site::Type { item }, message: "field type must be Noul, Choice<E> or Score"@ },
        ),
{
    reveal_strlit("Noul");
    reveal_strlit("Score");
    reveal_strlit("Choice");
}

/// A field asks what its attributes say: a yes or no with both sides or
/// neither, a choice, or a score of 2 to 10 levels.
pub proof fn kinds_take_what_they_need(a: ArgsView, item: usize)
    ensures
        ({
            let r = planned_kind(FieldKind::Noul, a, item);
            &&& a.yes is Some && a.no is Some ==> r == Ok::<KindView, FaultView>(KindView::Noul(Some((a.yes->0, a.no->0))))
            &&& a.yes is None && a.no is None ==> r == Ok::<KindView, FaultView>(KindView::Noul(None))
            &&& a.yes is Some != a.no is Some ==> r == Err::<KindView, FaultView>(
                FaultView { site: Site::Item { item }, message: "`yes` and `no` must be given together"@ },
            )
        }),
        planned_kind(FieldKind::Choice, a, item) == Ok::<KindView, FaultView>(KindView::Choice),
        match a.levels {
            None => planned_kind(FieldKind::Score, a, item) == Err::<KindView, FaultView>(
                FaultView { site: Site::Item { item }, message: "Score fields need #[jev(levels = [\"…\", …])]"@ },
            ),
            Some(levels) => if 2 <= levels.len() <= 10 {
                planned_kind(FieldKind::Score, a, item) == Ok::<KindView, FaultView>(KindView::Score(levels))
            } else {
                planned_kind(FieldKind::Score, a, item) == Err::<KindView, FaultView>(
                    FaultView { site: Site::Item { item }, message: "a score needs 2 to 10 levels"@ },
                )
            },
        },
{
}

/// A question is asked under the name that its field gives, or the field's own,
/// with the instructions that it gives, or its doc comment; one of both there
/// must be.
pub proof fn questions_are_named_by_their_fields(f: Field, item: usize)
    ensures
        match attrs_read(f.attrs@, item) {
            Err(e) => field_question(f, item) == Err::<PlanView, FaultView>(e),
            Ok(a) => {
                &&& a.instructions is None && doc_text(f.attrs@) is None ==> field_question(f, item) == Err::<PlanView, FaultView>(
                    FaultView { site: Site::Item { item }, message: "missing #[jev(\"instructions\")] (or a doc comment)"@ },
                )
                &&& a.instructions is Some || doc_text(f.attrs@) is Some ==> match kind_of_type(f.ty, item) {
                    Err(e) => field_question(f, item) == Err::<PlanView, FaultView>(e),
                    Ok(kind) => match planned_kind(kind, a, item) {
                        Err(e) => field_question(f, item) == Err::<PlanView, FaultView>(e),
                        Ok(k) => field_question(f, item) matches Ok(p) && p.kind == k && (match a.name {
                            Some(n) => p.wire == n,
                            None => p.wire == f.ident@,
                        }) && (match a.instructions {
                            Some(t) => p.instructions == t,
                            None => Some(p.instructions) == doc_text(f.attrs@),
                        }),
                    },
                }
            },
        },
{
}

/// A struct asks a question for each of its fields, in declaration order; where
/// one has a fault, the first such fault is told.
pub proof fn questions_stand_for_fields(fs: Vec<Field>, i: int)
    requires
        0 <= i < fs@.len(),
        forall|j: int| 0 <= j < i ==> field_question(#[trigger] fs@[j], j as usize) is Ok,
    ensures
        match field_question(fs@[i], i as usize) {
            Ok(q) => questions_plan(Input::Named(fs)) matches Ok(p) ==> p.len() == fs@.len() && p[i] == q,
            Err(e) => questions_plan(Input::Named(fs)) == Err::<Seq<PlanView>, FaultView>(e),
        },
        i == fs@.len() - 1 && field_question(fs@[i], i as usize) is Ok ==> questions_plan(Input::Named(fs)) is Ok,
{
    lemma_fields_up_to(fs@, i);
    lemma_field_questions(fs@, i);
    assert(fs@.take(i + 1).drop_last() =~= fs@.take(i));
    assert(fs@.take(i + 1).last() == fs@[i]);
    if field_question(fs@[i], i as usize) is Err {
        lemma_field_fault_stays(fs@, i + 1);
    } else if i == fs@.len() - 1 {
        assert(fs@.take(i + 1) =~= fs@);
    }
}

proof fn lemma_fields_up_to(fs: Seq<Field>, i: int)
    requires
        0 <= i <= fs.len(),
        forall|j: int| 0 <= j < i ==> field_question(#[trigger] fs[j], j as usize) is Ok,
    ensures
        field_questions(fs.take(i)) is Ok,
    decreases i,
{
    if i > 0 {
        lemma_fields_up_to(fs, i - 1);
        assert(fs.take(i).drop_last() =~= fs.take(i - 1));
        assert(fs.take(i).last() == fs[i - 1]);
    }
}

proof fn lemma_field_questions(fs: Seq<Field>, i: int)
    requires
        0 <= i < fs.len(),
    ensures
        field_questions(fs) matches Ok(p) ==> p.len() == fs.len() && field_question(fs[i], i as usize) == Ok::<PlanView, FaultView>(p[i]),
    decreases fs.len(),
{
    derived_questions_keep_limits(fs.drop_last());
    if i < fs.len() - 1 {
        assert(fs.drop_last()[i] == fs[i]);
        lemma_field_questions(fs.drop_last(), i);
    }
}

/// Only structs with named fields ask questions.
pub proof fn only_named_fields_ask(input: Input, fs: Vec<Field>)
    ensures
        fs@.len() == 0 ==> questions_plan(Input::Named(fs)) == Ok::<Seq<PlanView>, FaultView>(seq![]),
        input is Unnamed ==> questions_plan(input) == Err::<Seq<PlanView>, FaultView>(
            FaultView { site: Site::Input, message: "JevQuestions needs named fields"@ },
        ),
        input is Enum || input is Union ==> questions_plan(input) == Err::<Seq<PlanView>, FaultView>(
            FaultView { site: Site::Input, message: "JevQuestions can only be derived for structs"@ },
        ),
{
}

/// What is asked of a field is its question, with the options of the enum that
/// a choice is over.
pub proof fn plans_ask_what_they_say(
    plans: Seq<PlanView>,
    options: Seq<Seq<(Seq<char>, Option<Seq<char>>)>>,
    i: int,
    sides: Option<(Seq<char>, Seq<char>)>,
    levels: Seq<Seq<char>>,
)
    requires
        0 <= i < plans.len(),
        plans.len() == options.len(),
    ensures
        derived_asked(plans, options).len() == plans.len(),
        derived_asked(plans, options)[i].0 == plans[i].wire,
        ({
            let q = derived_asked(plans, options)[i].1;
            &&& plans[i].kind == KindView::Noul(sides) ==> q == (SpecView::Noul { instructions: plans[i].instructions, criteria: sides })
            &&& plans[i].kind == KindView::Choice ==> q == (SpecView::Choice { instructions: plans[i].instructions, criteria: options[i] })
            &&& plans[i].kind == KindView::Score(levels) ==> q == (SpecView::Score { instructions: plans[i].instructions, criteria: levels })
        }),
{
}

} // verus!
