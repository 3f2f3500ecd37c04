//! Your own model as a Jev-style backend, via an OpenAI-compatible server.
//!
//! Works with vLLM, llama.cpp `llama-server`, LM Studio, Ollama (with the
//! OpenAI-compatible endpoint), TGI, … — anything that returns `logprobs`.
//!
//! How it works: each question is rendered as a multiple-choice prompt whose
//! options are labelled `A`, `B`, `C`, …; the model is asked for exactly one
//! token; the log-probabilities of the label tokens are read out and
//! renormalised into a distribution. No text is generated, no parsing can
//! fail, and the result has the same shape as an official Jev answer.
//!
//! Limits: a `choice` may have at most 26 options with this backend (one
//! letter per option). `score` levels (2–10) and `noul` are always fine.
use vstd::prelude::*;
use vstd::string::*;

use crate::answer::{wire_entries, AnswersView, RawAnswer, RawAnswers, RawView, Usage};
use crate::backend::answers::{number_labels, number_levels, numbered};
use crate::binary64::{greatest, greatest_is_last_maximum, greatest_of, lemma_greatest_place, zero, Binary64};
use crate::error::{Error, ErrorView};
use crate::json::{
    array_value, as_entries, as_items, as_real, as_text, bool_value, entry_at, get_member, json_entries, json_pretty, json_real, json_tree,
    json_trees, member, no_entries, no_members, object_value, pointed, pointer, pointer_goes_token_by_token, pointer_steps_by_key_and_place, put_entry, rising_texts, sorted_keys, string_value, uint_value,
    value_pretty, JsonTree,
};
use crate::numeral::{decimal, decimal_of};
use crate::order::{text_lt, text_order};
use crate::schema::{copy_options, opt_text, options_view, QuestionSpec, SpecView};
use crate::sorted_map::{viewed, SortedMap};
use crate::text::{chars_of, string_of, strings, trim, trimmed, uppercase};
use crate::traits::{key_round_trip, keys_distinct, with_key, AsChoice};

verus! {

/// How many options can be labelled.
pub const MAX_LABELS: usize = 26;

/// The label of option number `i`: `A`, `B`, `C`, …
pub open spec fn label(i: int) -> Seq<char> {
    seq![(65 + i) as u8 as char]
}

/// Which OpenAI-compatible endpoint to use.
#[derive(Debug, Clone, Copy, PartialEq, Eq, Structural)]
pub enum PromptStyle {
    /// `POST {base}/chat/completions` with `logprobs: true, top_logprobs: N`.
    Chat,
    /// `POST {base}/completions` with `logprobs: N` (legacy / base models).
    Completion,
}

/// Log-prob read-out backend for a local or self-hosted model: where and how
/// it asks.
#[derive(Debug, Clone)]
pub struct LocalLogprob {
    pub base_url: String,
    pub model: String,
    pub api_key: Option<String>,
    pub style: PromptStyle,
    pub top_logprobs: u32,
    pub system_prompt: String,
}

pub const SYSTEM_PROMPT: &'static str =
    "You are a calibrated classifier. Read the state, then answer the question with exactly one option label (a single letter) and nothing else.";

// ---------------------------------------------------------------------------
// Configuration
// ---------------------------------------------------------------------------

/// A text without the slashes at its end.
pub open spec fn without_slashes(s: Seq<char>) -> Seq<char>
    decreases s.len(),
{
    if s.len() > 0 && s.last() == '/' {
        without_slashes(s.drop_last())
    } else {
        s
    }
}

fn trim_slashes(s: &str) -> (r: String)
    ensures
        r@ == without_slashes(s@),
{
    let cs = chars_of(s);
    let mut n: usize = cs.len();
    assert(s@.take(n as int) =~= s@);
    while n > 0 && cs[n - 1] == '/'
        invariant
            n <= cs@.len(),
            cs@ == s@,
            without_slashes(s@) == without_slashes(s@.take(n as int)),
        decreases n,
    {
        assert(s@.take(n as int).drop_last() =~= s@.take(n - 1));
        n -= 1;
    }
    let head = &cs.as_slice()[0..n];
    assert(head@ =~= s@.take(n as int));
    string_of(head)
}

impl LocalLogprob {
    /// `base_url` like `http://localhost:8000/v1`; `model` as the server names it.
    pub fn new(base_url: &str, model: &str) -> (r: Self)
        ensures
            r.base_url@ == without_slashes(base_url@),
            r.model@ == model@,
            r.api_key is None,
            r.style == PromptStyle::Chat,
            r.top_logprobs == 20,
            r.system_prompt@ == SYSTEM_PROMPT@,
    {
        LocalLogprob {
            base_url: trim_slashes(base_url),
            model: model.to_owned(),
            api_key: None,
            style: PromptStyle::Chat,
            top_logprobs: 20,
            system_prompt: SYSTEM_PROMPT.to_owned(),
        }
    }

    pub fn with_api_key(self, key: &str) -> (r: Self)
        ensures
            r == (LocalLogprob { api_key: r.api_key, ..self }),
            opt_text(r.api_key) == Some(key@),
    {
        LocalLogprob { api_key: Some(key.to_owned()), ..self }
    }

    pub fn with_style(self, style: PromptStyle) -> (r: Self)
        ensures
            r == (LocalLogprob { style, ..self }),
    {
        LocalLogprob { style, ..self }
    }

    /// How many top log-probs to request (default 20; must cover the labels).
    pub fn with_top_logprobs(self, n: u32) -> (r: Self)
        ensures
            r == (LocalLogprob { top_logprobs: n, ..self }),
    {
        LocalLogprob { top_logprobs: n, ..self }
    }

    pub fn with_system_prompt(self, prompt: &str) -> (r: Self)
        ensures
            r == (LocalLogprob { system_prompt: r.system_prompt, ..self }),
            r.system_prompt@ == prompt@,
    {
        LocalLogprob { system_prompt: prompt.to_owned(), ..self }
    }

    pub fn id(&self) -> (r: String)
        ensures
            r@ == logprob_id(self.model@),
    {
        let mut id = "local-logprob:".to_owned();
        id.push_str(self.model.as_str());
        id
    }
}

/// The backend's name in recordings.
pub open spec fn logprob_id(model: Seq<char>) -> Seq<char> {
    "local-logprob:"@ + model
}

// ---------------------------------------------------------------------------
// The prompt
// ---------------------------------------------------------------------------

/// The state as it is shown to the model: a text as it is, anything else as
/// indented JSON.
pub open spec fn state_text(state: JsonTree) -> Seq<char> {
    match state {
        JsonTree::Str(s) => s,
        _ => json_pretty(state),
    }
}

/// The text of a question.
pub open spec fn asked_text(q: SpecView) -> Seq<char> {
    match q {
        SpecView::Noul { instructions, .. } => instructions,
        SpecView::Choice { instructions, .. } => instructions,
        SpecView::Score { instructions, .. } => instructions + " (ordered scale, lowest first)"@,
    }
}

/// The options of a question: yes and no, the options of a choice, or the
/// levels of a scale under their numbers.
pub open spec fn asked_options(q: SpecView) -> Seq<(Seq<char>, Option<Seq<char>>)> {
    match q {
        SpecView::Noul { criteria, .. } => match criteria {
            Some((yes, no)) => seq![("yes"@, Some(yes)), ("no"@, Some(no))],
            None => seq![("yes"@, None), ("no"@, None)],
        },
        SpecView::Choice { criteria, .. } => criteria,
        SpecView::Score { criteria, .. } => Seq::new(criteria.len(), |i: int| (decimal(i as nat), Some(criteria[i]))),
    }
}

/// The line of one option.
pub open spec fn option_line(i: int, option: (Seq<char>, Option<Seq<char>>)) -> Seq<char> {
    label(i) + ") "@ + option.0 + (match option.1 {
        Some(d) => if d.len() > 0 {
            " — "@ + d
        } else {
            seq![]
        },
        None => seq![],
    }) + "\n"@
}

pub open spec fn option_lines(options: Seq<(Seq<char>, Option<Seq<char>>)>) -> Seq<char>
    decreases options.len(),
{
    if options.len() == 0 {
        seq![]
    } else {
        option_lines(options.drop_last()) + option_line(options.len() - 1, options.last())
    }
}

/// A question as a labelled multiple-choice prompt.
pub open spec fn prompt_text(state: JsonTree, name: Seq<char>, q: SpecView) -> Seq<char> {
    "State:\n"@ + state_text(state) + "\n\nQuestion ("@ + name + "): "@ + asked_text(q) + "\nOptions:\n"@ + option_lines(asked_options(q))
        + "\nAnswer with the option letter only.\nAnswer:"@
}

pub open spec fn option_keys(options: Seq<(Seq<char>, Option<Seq<char>>)>) -> Seq<Seq<char>> {
    options.map_values(|o: (Seq<char>, Option<Seq<char>>)| o.0)
}

fn label_of(i: usize) -> (r: String)
    requires
        i < MAX_LABELS,
    ensures
        r@ == label(i as int),
{
    let c = (65 + i as u8) as char;
    let mut s = String::new();
    s.push(c);
    assert(s@ =~= label(i as int));
    s
}

fn options_of(spec: &QuestionSpec) -> (r: Vec<(String, Option<String>)>)
    ensures
        options_view(r@) == asked_options(spec@),
{
    match spec {
        QuestionSpec::Noul { criteria, .. } => {
            let (yes, no) = match criteria {
                Some(c) => (Some(c.yes.clone()), Some(c.no.clone())),
                None => (None, None),
            };
            let mut out: Vec<(String, Option<String>)> = Vec::new();
            out.push(("yes".to_owned(), yes));
            out.push(("no".to_owned(), no));
            assert(options_view(out@) =~= asked_options(spec@));
            out
        },
        QuestionSpec::Choice { criteria, .. } => copy_options(criteria),
        QuestionSpec::Score { criteria, .. } => {
            let ghost want = asked_options(spec@);
            let n = criteria.len();
            let mut out: Vec<(String, Option<String>)> = Vec::new();
            let mut i: usize = 0;
            assert(options_view(out@) =~= want.take(0));
            while i < n
                invariant
                    i <= n == criteria@.len(),
                    want == Seq::new(strings(criteria@).len(), |i: int| (decimal(i as nat), Some(strings(criteria@)[i]))),
                    options_view(out@) == want.take(i as int),
                decreases n - i,
            {
                let ghost before = options_view(out@);
                out.push((string_of(decimal_of(i as u128).as_slice()), Some(criteria[i].clone())));
                assert(options_view(out@) =~= before.push(want[i as int]));
                assert(before.push(want[i as int]) =~= want.take(i + 1));
                i += 1;
            }
            assert(want.take(n as int) =~= want);
            out
        },
    }
}

impl LocalLogprob {
    /// Render one question as a labelled multiple-choice prompt.
    /// Returns `(prompt, option_keys_in_label_order)`.
    pub fn render(&self, state: &serde_json::Value, name: &str, spec: &QuestionSpec) -> (r: Result<(String, Vec<String>), Error>)
        ensures
            ({
                let options = asked_options(spec@);
                match r {
                    Ok((prompt, keys)) => options.len() <= MAX_LABELS && prompt@ == prompt_text(json_tree(*state), name@, spec@) && strings(
                        keys@,
                    ) == option_keys(options),
                    Err(e) => options.len() > MAX_LABELS && e@ == ErrorView::InvalidSchema(
                        "question `"@ + name@ + "` has "@ + decimal(options.len()) + " options; LocalLogprob supports at most 26"@,
                    ),
                }
            }),
    {
        let shown = match as_text(state) {
            Some(s) => s.to_owned(),
            None => value_pretty(state),
        };
        let instructions = match spec {
            QuestionSpec::Noul { instructions, .. } => instructions.clone(),
            QuestionSpec::Choice { instructions, .. } => instructions.clone(),
            QuestionSpec::Score { instructions, .. } => {
                let mut t = instructions.clone();
                t.push_str(" (ordered scale, lowest first)");
                t
            },
        };
        let options = options_of(spec);
        let ghost os = asked_options(spec@);
        let n = options.len();
        if n > MAX_LABELS {
            let mut m = "question `".to_owned();
            m.push_str(name);
            m.push_str("` has ");
            m.push_str(string_of(decimal_of(n as u128).as_slice()).as_str());
            m.push_str(" options; LocalLogprob supports at most 26");
            return Err(Error::InvalidSchema(m));
        }
        let mut prompt = "State:\n".to_owned();
        prompt.push_str(shown.as_str());
        prompt.push_str("\n\nQuestion (");
        prompt.push_str(name);
        prompt.push_str("): ");
        prompt.push_str(instructions.as_str());
        prompt.push_str("\nOptions:\n");
        let ghost head = prompt@;
        let mut keys: Vec<String> = Vec::new();
        let mut i: usize = 0;
        assert(os.take(0) =~= seq![]);
        assert(prompt@ =~= head + option_lines(os.take(0)));
        assert(strings(keys@) =~= option_keys(os).take(0));
        while i < n
            invariant
                i <= n == options@.len(),
                n <= MAX_LABELS,
                os == options_view(options@),
                prompt@ == head + option_lines(os.take(i as int)),
                strings(keys@) == option_keys(os).take(i as int),
            decreases n - i,
        {
            assert(os.take(i + 1).drop_last() =~= os.take(i as int));
            assert(os.take(i + 1).last() == os[i as int]);
            let ghost before = prompt@;
            let ghost lines = option_lines(os.take(i as int));
            prompt.push_str(label_of(i).as_str());
            prompt.push_str(") ");
            prompt.push_str(options[i].0.as_str());
            match &options[i].1 {
                Some(d) => {
                    if !d.as_str().is_empty() {
                        prompt.push_str(" — ");
                        prompt.push_str(d.as_str());
                    }
                },
                None => {},
            }
            prompt.push_str("\n");
            assert(prompt@ =~= head + (lines + option_line(i as int, os[i as int])));
            let ghost had = strings(keys@);
            keys.push(options[i].0.clone());
            assert(strings(keys@) =~= had.push(option_keys(os)[i as int]));
            assert(had.push(option_keys(os)[i as int]) =~= option_keys(os).take(i + 1));
            i += 1;
        }
        assert(os.take(n as int) =~= os);
        assert(option_keys(os).take(n as int) =~= option_keys(os));
        prompt.push_str("\nAnswer with the option letter only.\nAnswer:");
        Ok((prompt, keys))
    }
}

// ---------------------------------------------------------------------------
// The request
// ---------------------------------------------------------------------------

pub open spec fn message_tree(role: Seq<char>, content: Seq<char>) -> JsonTree {
    JsonTree::Obj(no_members().insert("role"@, JsonTree::Str(role)).insert("content"@, JsonTree::Str(content)))
}

/// The body of the request for one token.
pub open spec fn token_request(style: PromptStyle, model: Seq<char>, system: Seq<char>, prompt: Seq<char>, top: u32) -> JsonTree {
    let head = no_members().insert("model"@, JsonTree::Str(model));
    match style {
        PromptStyle::Chat => JsonTree::Obj(
            head.insert("messages"@, JsonTree::Arr(seq![message_tree("system"@, system), message_tree("user"@, prompt)])).insert(
                "max_tokens"@,
                JsonTree::UInt(1),
            ).insert("temperature"@, JsonTree::UInt(0)).insert("logprobs"@, JsonTree::Bool(true)).insert(
                "top_logprobs"@,
                JsonTree::UInt(top as u64),
            ),
        ),
        PromptStyle::Completion => JsonTree::Obj(
            head.insert("prompt"@, JsonTree::Str(system + "\n\n"@ + prompt)).insert("max_tokens"@, JsonTree::UInt(1)).insert(
                "temperature"@,
                JsonTree::UInt(0),
            ).insert("logprobs"@, JsonTree::UInt(top as u64)),
        ),
    }
}

/// Where the request goes.
pub open spec fn request_url(style: PromptStyle, base_url: Seq<char>) -> Seq<char> {
    match style {
        PromptStyle::Chat => base_url + "/chat/completions"@,
        PromptStyle::Completion => base_url + "/completions"@,
    }
}

fn message_value(role: &str, content: &str) -> (r: serde_json::Value)
    ensures
        json_tree(r) == message_tree(role@, content@),
{
    let mut m = no_entries();
    put_entry(&mut m, "role".to_owned(), string_value(role));
    put_entry(&mut m, "content".to_owned(), string_value(content));
    object_value(m)
}

impl LocalLogprob {
    /// Where to send a prompt, and the body to send.
    pub fn request(&self, prompt: &str) -> (r: (String, serde_json::Value))
        ensures
            r.0@ == request_url(self.style, self.base_url@),
            json_tree(r.1) == token_request(self.style, self.model@, self.system_prompt@, prompt@, self.top_logprobs),
    {
        let mut url = self.base_url.clone();
        let mut m = no_entries();
        put_entry(&mut m, "model".to_owned(), string_value(self.model.as_str()));
        match self.style {
            PromptStyle::Chat => {
                url.push_str("/chat/completions");
                let first = message_value("system", self.system_prompt.as_str());
                let second = message_value("user", prompt);
                let mut messages: Vec<serde_json::Value> = Vec::new();
                messages.push(first);
                messages.push(second);
                assert(json_trees(messages@) =~= seq![json_tree(first), json_tree(second)]);
                put_entry(&mut m, "messages".to_owned(), array_value(messages));
                put_entry(&mut m, "max_tokens".to_owned(), uint_value(1));
                put_entry(&mut m, "temperature".to_owned(), uint_value(0));
                put_entry(&mut m, "logprobs".to_owned(), bool_value(true));
                put_entry(&mut m, "top_logprobs".to_owned(), uint_value(self.top_logprobs as u64));
            },
            PromptStyle::Completion => {
                url.push_str("/completions");
                let mut text = self.system_prompt.clone();
                text.push_str("\n\n");
                text.push_str(prompt);
                put_entry(&mut m, "prompt".to_owned(), string_value(text.as_str()));
                put_entry(&mut m, "max_tokens".to_owned(), uint_value(1));
                put_entry(&mut m, "temperature".to_owned(), uint_value(0));
                put_entry(&mut m, "logprobs".to_owned(), uint_value(self.top_logprobs as u64));
            },
        }
        (url, object_value(m))
    }

    /// The error for a request that failed.
    pub fn failed(&self, message: &str) -> (r: Error)
        ensures
            r@ == (ErrorView::Backend { backend: logprob_id(self.model@), message: message@ }),
    {
        Error::Backend { backend: self.id(), message: message.to_owned() }
    }

    /// The error for a response with a failing status and the text it came with.
    pub fn refused(&self, status: &str, text: &str) -> (r: Error)
        ensures
            r@ == (ErrorView::Backend { backend: logprob_id(self.model@), message: "HTTP "@ + status@ + ": "@ + text@ }),
    {
        let mut message = "HTTP ".to_owned();
        message.push_str(status);
        message.push_str(": ");
        message.push_str(text);
        Error::Backend { backend: self.id(), message }
    }
}

// ---------------------------------------------------------------------------
// The response
// ---------------------------------------------------------------------------

/// A mark that may stand around a label.
pub open spec fn is_mark(c: char) -> bool {
    c == ')' || c == '.' || c == ':'
}

pub open spec fn without_marks_before(s: Seq<char>) -> Seq<char>
    decreases s.len(),
{
    if s.len() > 0 && is_mark(s[0]) {
        without_marks_before(s.drop_first())
    } else {
        s
    }
}

pub open spec fn without_marks_behind(s: Seq<char>) -> Seq<char>
    decreases s.len(),
{
    if s.len() > 0 && is_mark(s.last()) {
        without_marks_behind(s.drop_last())
    } else {
        s
    }
}

/// A token as a label: without white space around it, then without marks
/// around it, in upper case.
pub open spec fn normalised(tok: Seq<char>) -> Seq<char> {
    uppercase(without_marks_behind(without_marks_before(trim(tok))))
}

pub fn normalise_token(tok: &str) -> (r: String)
    ensures
        r@ == normalised(tok@),
{
    let cs = chars_of(tok);
    let t = trimmed(cs.as_slice());
    let n = t.len();
    let mut i: usize = 0;
    assert(t@.skip(0) =~= t@);
    while i < n && (t[i] == ')' || t[i] == '.' || t[i] == ':')
        invariant
            i <= n == t@.len(),
            without_marks_before(t@) == without_marks_before(t@.skip(i as int)),
        decreases n - i,
    {
        assert(t@.skip(i as int).drop_first() =~= t@.skip(i + 1));
        i += 1;
    }
    let u = &t[i..n];
    assert(u@ =~= t@.skip(i as int));
    let mut m: usize = u.len();
    assert(u@.take(m as int) =~= u@);
    while m > 0 && (u[m - 1] == ')' || u[m - 1] == '.' || u[m - 1] == ':')
        invariant
            m <= u@.len(),
            without_marks_behind(u@) == without_marks_behind(u@.take(m as int)),
        decreases m,
    {
        assert(u@.take(m as int).drop_last() =~= u@.take(m - 1));
        m -= 1;
    }
    let w = &u[0..m];
    assert(w@ =~= u@.take(m as int));
    string_of(w).as_str().to_uppercase()
}

/// The token and log-probability of an item of a chat response.
pub open spec fn chat_item(item: JsonTree) -> Option<(Seq<char>, Binary64)> {
    match (member(item, "token"@), member(item, "logprob"@)) {
        (Some(JsonTree::Str(tok)), Some(lp)) => match json_real(lp) {
            Some(x) => Some((tok, x)),
            None => None,
        },
        _ => None,
    }
}

/// The log-probabilities of a chat response under their labels; of two under
/// one label the later stays.
pub open spec fn chat_logprobs(items: Seq<JsonTree>) -> Map<Seq<char>, Binary64>
    decreases items.len(),
{
    if items.len() == 0 {
        Map::empty()
    } else {
        let rest = chat_logprobs(items.drop_last());
        match chat_item(items.last()) {
            Some((tok, lp)) => rest.insert(normalised(tok), lp),
            None => rest,
        }
    }
}

/// The log-probabilities of a completion response under their labels, token
/// by token; of two under one label the later stays.
pub open spec fn token_logprobs(entries: Map<Seq<char>, JsonTree>, tokens: Seq<Seq<char>>) -> Map<Seq<char>, Binary64>
    decreases tokens.len(),
{
    if tokens.len() == 0 {
        Map::empty()
    } else {
        let rest = token_logprobs(entries, tokens.drop_last());
        match json_real(entries[tokens.last()]) {
            Some(lp) => rest.insert(normalised(tokens.last()), lp),
            None => rest,
        }
    }
}

pub const CHAT_PATH: &'static str = "/choices/0/logprobs/content/0/top_logprobs";

pub const COMPLETION_PATH: &'static str = "/choices/0/logprobs/top_logprobs/0";

/// `m` holds the log-probabilities of entries, read in the order of the tokens.
pub open spec fn read_in_order(entries: Map<Seq<char>, JsonTree>, m: Map<Seq<char>, Binary64>) -> bool {
    exists|tokens: Seq<Seq<char>>| #[trigger]
        rising_texts(tokens) && tokens.to_set() == entries.dom() && m == token_logprobs(entries, tokens)
}

/// `m` is what a response says of the first token. The tokens of a completion
/// response are read in order.
pub open spec fn first_token(style: PromptStyle, response: JsonTree, m: Map<Seq<char>, Binary64>) -> bool {
    match style {
        PromptStyle::Chat => m == (match pointed(response, CHAT_PATH@) {
            Some(JsonTree::Arr(items)) => chat_logprobs(items),
            _ => Map::empty(),
        }),
        PromptStyle::Completion => match pointed(response, COMPLETION_PATH@) {
            Some(JsonTree::Obj(entries)) => read_in_order(entries, m),
            _ => m == Map::<Seq<char>, Binary64>::empty(),
        },
    }
}

fn read_chat(items: &Vec<serde_json::Value>) -> (r: SortedMap<String, Binary64>)
    ensures
        r@ == chat_logprobs(json_trees(items@)),
{
    let ghost ts = json_trees(items@);
    let n = items.len();
    let mut out: SortedMap<String, Binary64> = SortedMap::new();
    let mut i: usize = 0;
    assert(ts.take(0) =~= seq![]);
    while i < n
        invariant
            i <= n == items@.len(),
            ts == json_trees(items@),
            out@ == chat_logprobs(ts.take(i as int)),
        decreases n - i,
    {
        assert(ts.take(i + 1).drop_last() =~= ts.take(i as int));
        assert(ts.take(i + 1).last() == json_tree(items@[i as int]));
        match (get_member(&items[i], "token"), get_member(&items[i], "logprob")) {
            (Some(t), Some(l)) => match (as_text(t), as_real(l)) {
                (Some(tok), Some(lp)) => {
                    out.insert(normalise_token(tok), lp);
                },
                _ => {},
            },
            _ => {},
        }
        i += 1;
    }
    assert(ts.take(n as int) =~= ts);
    out
}

fn read_completion(m: &serde_json::Map<String, serde_json::Value>) -> (r: SortedMap<String, Binary64>)
    ensures
        read_in_order(json_entries(*m), r@),
{
    let keys = sorted_keys(m);
    let ghost ks = strings(keys@);
    let n = keys.len();
    let mut out: SortedMap<String, Binary64> = SortedMap::new();
    let mut i: usize = 0;
    assert(ks.take(0) =~= seq![]);
    while i < n
        invariant
            i <= n == keys@.len(),
            ks == strings(keys@),
            ks.to_set() == json_entries(*m).dom(),
            out@ == token_logprobs(json_entries(*m), ks.take(i as int)),
        decreases n - i,
    {
        assert(ks.take(i + 1).drop_last() =~= ks.take(i as int));
        assert(ks.take(i + 1).last() == keys@[i as int]@);
        assert(ks.to_set().contains(ks[i as int]));
        match entry_at(m, keys[i].as_str()) {
            Some(v) => match as_real(v) {
                Some(lp) => {
                    out.insert(normalise_token(keys[i].as_str()), lp);
                },
                None => {},
            },
            None => {},
        }
        i += 1;
    }
    assert(ks.take(n as int) =~= ks);
    assert(rising_texts(ks) && ks.to_set() == json_entries(*m).dom() && out@ == token_logprobs(json_entries(*m), ks));
    out
}

impl LocalLogprob {
    /// What a response says: `label -> logprob` for the first token.
    pub fn first_token_logprobs(&self, response: &serde_json::Value) -> (r: Result<SortedMap<String, Binary64>, Error>)
        ensures
            match r {
                Ok(m) => m@.len() > 0 && first_token(self.style, json_tree(*response), m@),
                Err(e) => first_token(self.style, json_tree(*response), Map::empty()) && e@ == (ErrorView::Backend {
                    backend: logprob_id(self.model@),
                    message: "server returned no logprobs; enable logprobs on the server"@,
                }),
            },
    {
        let ghost t = json_tree(*response);
        let out = match self.style {
            PromptStyle::Chat => {
                proof {
                    reveal_strlit("/choices/0/logprobs/content/0/top_logprobs");
                    assert(!CHAT_PATH@.contains('~'));
                }
                let out = match pointer(response, CHAT_PATH) {
                    Some(x) => match as_items(x) {
                        Some(items) => read_chat(items),
                        None => SortedMap::new(),
                    },
                    None => SortedMap::new(),
                };
                assert(first_token(PromptStyle::Chat, t, out@));
                out
            },
            PromptStyle::Completion => {
                proof {
                    reveal_strlit("/choices/0/logprobs/top_logprobs/0");
                    assert(!COMPLETION_PATH@.contains('~'));
                }
                let out = match pointer(response, COMPLETION_PATH) {
                    Some(x) => match as_entries(x) {
                        Some(m) => read_completion(m),
                        None => SortedMap::new(),
                    },
                    None => SortedMap::new(),
                };
                assert(first_token(PromptStyle::Completion, t, out@));
                out
            },
        };
        if out.is_empty() {
            proof {
                use_type_invariant(&out);
                out.items_and_map();
                assert(out@ =~= Map::empty());
            }
            return Err(
                Error::Backend { backend: self.id(), message: "server returned no logprobs; enable logprobs on the server".to_owned() },
            );
        }
        Ok(out)
    }
}

// ---------------------------------------------------------------------------
// The answer
// ---------------------------------------------------------------------------

/// The log-probability of each of `n` labels, where it is known.
pub open spec fn label_values(lps: Map<Seq<char>, Binary64>, n: nat) -> Seq<Option<Binary64>> {
    Seq::new(
        n,
        |i: int|
            if lps.contains_key(label(i)) {
                Some(lps[label(i)])
            } else {
                None
            },
    )
}

/// Read out the log-probability of each of the first `n` labels.
pub fn label_logprobs(lps: &SortedMap<String, Binary64>, n: usize) -> (r: Vec<Option<Binary64>>)
    requires
        n <= MAX_LABELS,
    ensures
        r@ == label_values(lps@, n as nat),
{
    let ghost want = label_values(lps@, n as nat);
    let mut out: Vec<Option<Binary64>> = Vec::new();
    let mut i: usize = 0;
    while i < n
        invariant
            i <= n <= MAX_LABELS,
            want == label_values(lps@, n as nat),
            out@ == want.take(i as int),
        decreases n - i,
    {
        let v = match lps.get(&label_of(i)) {
            Some(lp) => Some(*lp),
            None => None,
        };
        out.push(v);
        assert(out@ =~= want.take(i + 1));
        i += 1;
    }
    assert(want.take(n as int) =~= want);
    out
}

/// Keys with their probabilities; of two with one key the later stays.
pub open spec fn zipped(keys: Seq<Seq<char>>, probs: Seq<Binary64>) -> Map<Seq<char>, Binary64>
    decreases keys.len(),
{
    if keys.len() == 0 || probs.len() < keys.len() {
        Map::empty()
    } else {
        zipped(keys.drop_last(), probs).insert(keys.last(), probs[keys.len() - 1])
    }
}

/// The place of the most likely option, and its probability.
pub open spec fn surest(probs: Seq<Binary64>) -> (int, Binary64) {
    let i = greatest(probs, probs.len());
    (
        i,
        if probs.len() == 0 {
            zero()
        } else {
            probs[i]
        },
    )
}

/// The answer that probabilities over the options of a question make;
/// `score` is the probability-weighted level.
pub open spec fn answer_view(q: SpecView, probs: Seq<Binary64>, score: Binary64) -> RawView {
    let keys = option_keys(asked_options(q));
    let (i, conf) = surest(probs);
    match q {
        SpecView::Noul { .. } => RawView::Noul { noul: probs[0], confidence: Some(conf) },
        SpecView::Choice { .. } => RawView::Choice { choice: keys[i], probabilities: zipped(keys, probs), confidence: conf },
        SpecView::Score { criteria, .. } => RawView::Score {
            score,
            legend: numbered(criteria),
            probabilities: numbered(probs),
            confidence: conf,
        },
    }
}

fn zip_keys(keys: &Vec<String>, probs: &Vec<Binary64>) -> (r: SortedMap<String, Binary64>)
    requires
        keys@.len() == probs@.len(),
    ensures
        r@ == zipped(strings(keys@), probs@),
{
    let ghost ks = strings(keys@);
    let n = keys.len();
    let mut out: SortedMap<String, Binary64> = SortedMap::new();
    let mut i: usize = 0;
    assert(ks.take(0) =~= seq![]);
    while i < n
        invariant
            i <= n == keys@.len(),
            n == probs@.len(),
            ks == strings(keys@),
            out@ == zipped(ks.take(i as int), probs@),
        decreases n - i,
    {
        assert(ks.take(i + 1).drop_last() =~= ks.take(i as int));
        assert(ks.take(i + 1).last() == keys@[i as int]@);
        out.insert(keys[i].clone(), probs[i]);
        i += 1;
    }
    assert(ks.take(n as int) =~= ks);
    out
}

/// The answer that probabilities over the options of `spec` make, `keys` being
/// the keys of those options.
pub fn build_answer(spec: &QuestionSpec, keys: &Vec<String>, probs: &Vec<Binary64>, score: Binary64) -> (r: RawAnswer)
    requires
        strings(keys@) == option_keys(asked_options(spec@)),
        probs@.len() == keys@.len(),
        probs@.len() > 0,
        probs@.len() >= 2 ==> forall|i: int| 0 <= i < probs@.len() ==> !(#[trigger] probs@[i]).is_nan(),
    ensures
        r@ == answer_view(spec@, probs@, score),
{
    let i = greatest_of(probs);
    let conf = probs[i];
    match spec {
        QuestionSpec::Noul { .. } => RawAnswer::Noul { noul: probs[0], confidence: Some(conf) },
        QuestionSpec::Choice { .. } => {
            let probabilities = zip_keys(keys, probs);
            assert(viewed(probabilities@) =~= probabilities@);
            assert(strings(keys@)[i as int] == keys@[i as int]@);
            RawAnswer::Choice { choice: keys[i].clone(), probabilities, confidence: conf }
        },
        QuestionSpec::Score { criteria, .. } => {
            let probabilities = number_levels(probs);
            assert(viewed(probabilities@) =~= probabilities@);
            RawAnswer::Score { score, legend: number_labels(criteria), probabilities, confidence: conf }
        },
    }
}

/// Answers under the names of their questions.
pub open spec fn named_answers(pairs: Seq<(String, RawAnswer)>) -> Map<Seq<char>, RawView>
    decreases pairs.len(),
{
    if pairs.len() == 0 {
        Map::empty()
    } else {
        named_answers(pairs.drop_last()).insert(pairs.last().0@, pairs.last().1@)
    }
}

impl LocalLogprob {
    /// The answers to all questions, put together.
    pub fn assemble(&self, pairs: Vec<(String, RawAnswer)>) -> (r: RawAnswers)
        ensures
            r@ == (AnswersView { answers: named_answers(pairs@), model: self.model@, usage: Usage { input_tokens: 0, output_tokens: 0 } }),
    {
        let ghost all = pairs@;
        let n = pairs.len();
        let mut pairs = pairs;
        let mut answers: SortedMap<String, RawAnswer> = SortedMap::new();
        let mut i: usize = 0;
        assert(all.take(0) =~= seq![]);
        assert(viewed(answers@) =~= Map::empty());
        while i < n
            invariant
                i <= n == all.len(),
                pairs@ == all.skip(i as int),
                viewed(answers@) == named_answers(all.take(i as int)),
            decreases n - i,
        {
            assert(all.take(i + 1).drop_last() =~= all.take(i as int));
            assert(all.take(i + 1).last() == all[i as int]);
            assert(all.skip(i as int)[0] == all[i as int]);
            let (name, a) = pairs.remove(0);
            assert(pairs@ =~= all.skip(i + 1));
            let ghost before = answers@;
            answers.insert(name, a);
            assert(viewed(answers@) =~= viewed(before).insert(all[i as int].0@, all[i as int].1@));
            i += 1;
        }
        assert(all.take(n as int) =~= all);
        RawAnswers { answers, model: self.model.clone(), usage: Usage::default() }
    }
}

// ---------------------------------------------------------------------------
// Laws
// ---------------------------------------------------------------------------

proof fn lemma_rising_keys(a: Seq<Seq<char>>, b: Seq<Seq<char>>)
    requires
        rising_texts(a),
        rising_texts(b),
        a.to_set() == b.to_set(),
    ensures
        a == b,
    decreases a.len(),
{
    text_order();
    let lt = text_lt();
    if a.len() == 0 {
        assert(b.len() == 0) by {
            if b.len() > 0 {
                assert(b.to_set().contains(b[0]));
                assert(a.to_set().contains(b[0]));
            }
        }
        assert(a =~= b);
    } else {
        let x = a[a.len() - 1];
        assert(a.to_set().contains(x));
        assert(b.to_set().contains(x));
        let j = choose|j: int| 0 <= j < b.len() && b[j] == x;
        let y = b[b.len() - 1];
        assert(b.to_set().contains(y));
        assert(a.to_set().contains(y));
        let i = choose|i: int| 0 <= i < a.len() && a[i] == y;
        if x != y {
            assert(lt(a[i], a[a.len() - 1]));
            assert(lt(b[j], b[b.len() - 1]));
            assert(lt(x, y) && lt(y, x));
            assert(lt(x, x));
        }
        let ra = a.drop_last();
        let rb = b.drop_last();
        assert(rising_texts(ra)) by {
            assert forall|p: int, q: int| 0 <= p < q < ra.len() implies lt(#[trigger] ra[p], #[trigger] ra[q]) by {
                assert(lt(a[p], a[q]));
            }
        }
        assert(rising_texts(rb)) by {
            assert forall|p: int, q: int| 0 <= p < q < rb.len() implies lt(#[trigger] rb[p], #[trigger] rb[q]) by {
                assert(lt(b[p], b[q]));
            }
        }
        lemma_rest_of_keys(a);
        lemma_rest_of_keys(b);
        assert(ra.to_set() =~= rb.to_set());
        lemma_rising_keys(ra, rb);
        assert(a =~= ra.push(x));
        assert(b =~= rb.push(x));
    }
}

proof fn lemma_rest_of_keys(a: Seq<Seq<char>>)
    requires
        rising_texts(a),
        a.len() > 0,
    ensures
        a.drop_last().to_set() == a.to_set().remove(a.last()),
{
    text_order();
    let lt = text_lt();
    let rest = a.drop_last();
    assert forall|k: Seq<char>| rest.to_set().contains(k) == a.to_set().remove(a.last()).contains(k) by {
        if rest.to_set().contains(k) {
            let i = choose|i: int| 0 <= i < rest.len() && rest[i] == k;
            assert(a[i] == k);
            assert(lt(a[i], a[a.len() - 1]));
            assert(a.to_set().contains(k));
        }
        if a.to_set().remove(a.last()).contains(k) {
            let i = choose|i: int| 0 <= i < a.len() && a[i] == k;
            assert(rest[i] == k);
        }
    }
    assert(rest.to_set() =~= a.to_set().remove(a.last()));
}

/// A response says one thing of the first token, whichever style it is in: a
/// completion response is read in the one order that its tokens have.
pub proof fn first_token_is_settled(style: PromptStyle, response: JsonTree, m: Map<Seq<char>, Binary64>, n: Map<Seq<char>, Binary64>)
    requires
        first_token(style, response, m),
        first_token(style, response, n),
    ensures
        m == n,
{
    if style == PromptStyle::Completion {
        match pointed(response, COMPLETION_PATH@) {
            Some(JsonTree::Obj(entries)) => {
                let a = choose|tokens: Seq<Seq<char>>| #[trigger]
                    rising_texts(tokens) && tokens.to_set() == entries.dom() && m == token_logprobs(entries, tokens);
                let b = choose|tokens: Seq<Seq<char>>| #[trigger]
                    rising_texts(tokens) && tokens.to_set() == entries.dom() && n == token_logprobs(entries, tokens);
                lemma_rising_keys(a, b);
            },
            _ => {},
        }
    }
}

proof fn lemma_zipped(keys: Seq<Seq<char>>, probs: Seq<Binary64>, i: int)
    requires
        keys.len() <= probs.len(),
        0 <= i < keys.len(),
        forall|a: int, b: int| 0 <= a < b < keys.len() ==> #[trigger] keys[a] != #[trigger] keys[b],
    ensures
        zipped(keys, probs).contains_pair(keys[i], probs[i]),
    decreases keys.len(),
{
    if i < keys.len() - 1 {
        let rest = keys.drop_last();
        assert(rest[i] == keys[i]);
        assert forall|a: int, b: int| 0 <= a < b < rest.len() implies #[trigger] rest[a] != #[trigger] rest[b] by {
            assert(keys[a] != keys[b]);
        }
        lemma_zipped(rest, probs, i);
        assert(keys[i] != keys[keys.len() - 1]);
    }
}

/// An answer read out for the options of an enum decodes like an official one:
/// each variant gets the probability of its option, and the chosen variant is
/// that of the most likely option.
pub proof fn read_out_choice_decodes<E: AsChoice>(instructions: Seq<char>, probs: Seq<Binary64>, score: Binary64)
    requires
        keys_distinct(E::variants()),
        probs.len() == E::variants().len(),
        probs.len() > 0,
    ensures
        ({
            let q = SpecView::Choice { instructions, criteria: E::variants().map_values(|v: E| (v.wire_key(), v.wire_description())) };
            answer_view(q, probs, score) matches RawView::Choice { choice, probabilities, confidence } && {
                &&& with_key(E::variants(), choice) == Some(E::variants()[surest(probs).0])
                &&& confidence == surest(probs).1
                &&& forall|i: int| 0 <= i < probs.len() ==> #[trigger] wire_entries::<E>(probabilities)[i] == (E::variants()[i], probs[i])
            }
        }),
{
    let vs = E::variants();
    let q = SpecView::Choice { instructions, criteria: vs.map_values(|v: E| (v.wire_key(), v.wire_description())) };
    let keys = option_keys(asked_options(q));
    assert forall|i: int| 0 <= i < vs.len() implies #[trigger] keys[i] == vs[i].wire_key() by {}
    assert forall|a: int, b: int| 0 <= a < b < keys.len() implies #[trigger] keys[a] != #[trigger] keys[b] by {
        assert(vs[a].wire_key() != vs[b].wire_key());
    }
    lemma_greatest_place(probs, probs.len());
    let k = surest(probs).0;
    assert(vs.contains(vs[k]));
    key_round_trip::<E>(vs[k]);
    assert forall|i: int| 0 <= i < probs.len() implies #[trigger] wire_entries::<E>(zipped(keys, probs))[i] == (vs[i], probs[i]) by {
        lemma_zipped(keys, probs, i);
        assert(keys[i] == vs[i].wire_key());
    }
}

/// No two options share a label.
pub proof fn labels_are_distinct(i: int, j: int)
    requires
        0 <= i < MAX_LABELS,
        0 <= j < MAX_LABELS,
        label(i) == label(j),
    ensures
        i == j,
{
    let a = (65 + i) as u8 as char;
    let b = (65 + j) as u8 as char;
    assert(label(i)[0] == a && label(j)[0] == b);
    assert(a as u32 == 65 + i && b as u32 == 65 + j);
}

/// A yes/no question and a scale within the limits can always be labelled.
pub proof fn nouls_and_scores_can_be_labelled(q: SpecView, name: Seq<char>)
    requires
        crate::schema::spec_fault(name, q) is None,
        !(q is Choice),
    ensures
        asked_options(q).len() <= MAX_LABELS,
{
}

/// What is left of a token has no mark at either end, so taking marks off
/// again changes nothing.
pub proof fn marks_are_off(s: Seq<char>)
    ensures
        ({
            let t = without_marks_behind(without_marks_before(s));
            t.len() > 0 ==> !is_mark(t[0]) && !is_mark(t.last())
        }),
{
    lemma_marks_before(s);
    lemma_marks_behind(without_marks_before(s));
}

proof fn lemma_marks_before(s: Seq<char>)
    ensures
        without_marks_before(s).len() > 0 ==> !is_mark(without_marks_before(s)[0]),
    decreases s.len(),
{
    if s.len() > 0 && is_mark(s[0]) {
        lemma_marks_before(s.drop_first());
    }
}

proof fn lemma_marks_behind(s: Seq<char>)
    ensures
        without_marks_behind(s).len() > 0 ==> !is_mark(without_marks_behind(s).last()) && without_marks_behind(s)[0] == s[0],
    decreases s.len(),
{
    if s.len() > 0 && is_mark(s.last()) {
        lemma_marks_behind(s.drop_last());
    }
}

/// The label of option number `i` is letter number `i` of the alphabet.
pub proof fn labels_are_letters(i: int)
    requires
        0 <= i < MAX_LABELS,
    ensures
        label(i).len() == 1,
        label(i)[0] as u32 == 'A' as u32 + i,
        MAX_LABELS == 26,
{
    let a = (65 + i) as u8 as char;
    assert(label(i)[0] == a);
    assert(a as u32 == 65 + i);
}

/// The options of a question are those that it asks about, each with its own
/// description: yes and no, the options of a choice as they are, or the levels
/// of a scale under their numbers.
pub proof fn options_are_those_asked(q: SpecView)
    ensures
        match q {
            SpecView::Noul { criteria, .. } => {
                &&& asked_options(q).len() == 2
                &&& asked_options(q)[0].0 == "yes"@
                &&& asked_options(q)[1].0 == "no"@
                &&& criteria matches Some((yes, no)) ==> asked_options(q)[0].1 == Some(yes) && asked_options(q)[1].1 == Some(no)
                &&& criteria is None ==> asked_options(q)[0].1 is None && asked_options(q)[1].1 is None
            },
            SpecView::Choice { criteria, .. } => asked_options(q) == criteria,
            SpecView::Score { criteria, .. } => {
                &&& asked_options(q).len() == criteria.len()
                &&& forall|i: int| 0 <= i < criteria.len() ==> #[trigger] asked_options(q)[i] == (decimal(i as nat), Some(criteria[i]))
            },
        },
{
}

/// The key of each option stands at the place of its label.
pub proof fn keys_stand_in_label_order(options: Seq<(Seq<char>, Option<Seq<char>>)>)
    ensures
        option_keys(options).len() == options.len(),
        forall|i: int| 0 <= i < options.len() ==> #[trigger] option_keys(options)[i] == options[i].0,
{
}

/// The lines of the options stand in order: behind those of the options before
/// it comes the line of option `i`, with its label, its key and, where it has
/// one that is not empty, its description.
pub proof fn option_lines_in_order(options: Seq<(Seq<char>, Option<Seq<char>>)>, i: int)
    requires
        0 <= i < options.len(),
    ensures
        ({
            let before = option_lines(options.take(i));
            let head = label(i) + ") "@ + options[i].0;
            match options[i].1 {
                Some(d) => if d.len() > 0 {
                    exists|rest: Seq<char>| option_lines(options) == #[trigger] (before + (head + " — "@ + d + "\n"@) + rest)
                } else {
                    exists|rest: Seq<char>| option_lines(options) == #[trigger] (before + (head + "\n"@) + rest)
                },
                None => exists|rest: Seq<char>| option_lines(options) == #[trigger] (before + (head + "\n"@) + rest),
            }
        }),
        option_lines(seq![]).len() == 0,
    decreases options.len(),
{
    let before = option_lines(options.take(i));
    let head = label(i) + ") "@ + options[i].0;
    let line = match options[i].1 {
        Some(d) => if d.len() > 0 {
            head + " — "@ + d + "\n"@
        } else {
            head + "\n"@
        },
        None => head + "\n"@,
    };
    assert(option_line(i, options[i]) =~= line);
    let front = options.drop_last();
    if i == options.len() - 1 {
        assert(options.take(i) =~= front);
        assert(option_lines(options) =~= before + line + seq![]);
    } else {
        option_lines_in_order(front, i);
        assert(front.take(i) =~= options.take(i));
        assert(front[i] == options[i]);
        let last = option_line(options.len() - 1, options.last());
        let rest = choose|rest: Seq<char>| option_lines(front) == #[trigger] (before + line + rest);
        assert(option_lines(options) =~= before + line + (rest + last));
    }
}

/// The prompt shows the state, the name and the text of the question, and then
/// every option on a line of its own; the last option's line ends the list.
pub proof fn prompt_shows_the_question(state: JsonTree, name: Seq<char>, q: SpecView)
    ensures
        ({
            let shown = match state {
                JsonTree::Str(s) => s,
                _ => json_pretty(state),
            };
            let text = match q {
                SpecView::Noul { instructions, .. } => instructions,
                SpecView::Choice { instructions, .. } => instructions,
                SpecView::Score { instructions, .. } => instructions + " (ordered scale, lowest first)"@,
            };
            prompt_text(state, name, q) == "State:\n"@ + shown + "\n\nQuestion ("@ + name + "): "@ + text + "\nOptions:\n"@ + option_lines(
                asked_options(q),
            ) + "\nAnswer with the option letter only.\nAnswer:"@
        }),
{
}

/// Each option of a choice stands in the prompt with its own description.
pub proof fn prompt_shows_every_choice(
    state: JsonTree,
    name: Seq<char>,
    instructions: Seq<char>,
    criteria: Seq<(Seq<char>, Option<Seq<char>>)>,
    i: int,
)
    requires
        0 <= i < criteria.len(),
    ensures
        ({
            let prompt = prompt_text(state, name, SpecView::Choice { instructions, criteria });
            match criteria[i].1 {
                Some(d) => if d.len() > 0 {
                    exists|a: Seq<char>, b: Seq<char>| prompt == #[trigger] (a + (label(i) + ") "@ + criteria[i].0 + " — "@ + d + "\n"@) + b)
                } else {
                    exists|a: Seq<char>, b: Seq<char>| prompt == #[trigger] (a + (label(i) + ") "@ + criteria[i].0 + "\n"@) + b)
                },
                None => exists|a: Seq<char>, b: Seq<char>| prompt == #[trigger] (a + (label(i) + ") "@ + criteria[i].0 + "\n"@) + b),
            }
        }),
{
    let q = SpecView::Choice { instructions, criteria };
    let prompt = prompt_text(state, name, q);
    let top = "State:\n"@ + state_text(state) + "\n\nQuestion ("@ + name + "): "@ + asked_text(q) + "\nOptions:\n"@;
    let end = "\nAnswer with the option letter only.\nAnswer:"@;
    let before = option_lines(criteria.take(i));
    let head = label(i) + ") "@ + criteria[i].0;
    let line = match criteria[i].1 {
        Some(d) => if d.len() > 0 {
            head + " — "@ + d + "\n"@
        } else {
            head + "\n"@
        },
        None => head + "\n"@,
    };
    option_lines_in_order(criteria, i);
    let rest = choose|rest: Seq<char>| option_lines(criteria) == #[trigger] (before + line + rest);
    assert(prompt =~= (top + before) + line + (rest + end));
}

/// What the object `t` holds under a key.
pub open spec fn holds(t: JsonTree, key: Seq<char>, x: JsonTree) -> bool {
    t matches JsonTree::Obj(m) && m.contains_pair(key, x)
}

/// A request asks the model for one token with its log-probabilities, and
/// sends the system prompt and the prompt: as two messages to a chat endpoint,
/// as one text to a completion endpoint.
pub proof fn request_asks_for_one_token(style: PromptStyle, model: Seq<char>, system: Seq<char>, prompt: Seq<char>, top: u32)
    ensures
        ({
            let t = token_request(style, model, system, prompt, top);
            &&& holds(t, "model"@, JsonTree::Str(model))
            &&& holds(t, "max_tokens"@, JsonTree::UInt(1))
            &&& holds(t, "temperature"@, JsonTree::UInt(0))
            &&& match style {
                PromptStyle::Chat => {
                    &&& holds(t, "logprobs"@, JsonTree::Bool(true))
                    &&& holds(t, "top_logprobs"@, JsonTree::UInt(top as u64))
                    &&& exists|sent: Seq<JsonTree>|
                        {
                            &&& #[trigger] holds(t, "messages"@, JsonTree::Arr(sent))
                            &&& sent.len() == 2
                            &&& holds(sent[0], "role"@, JsonTree::Str("system"@))
                            &&& holds(sent[0], "content"@, JsonTree::Str(system))
                            &&& holds(sent[1], "role"@, JsonTree::Str("user"@))
                            &&& holds(sent[1], "content"@, JsonTree::Str(prompt))
                        }
                },
                PromptStyle::Completion => {
                    &&& holds(t, "logprobs"@, JsonTree::UInt(top as u64))
                    &&& holds(t, "prompt"@, JsonTree::Str(system + "\n\n"@ + prompt))
                },
            }
        }),
{
    reveal_strlit("model");
    reveal_strlit("messages");
    reveal_strlit("max_tokens");
    reveal_strlit("temperature");
    reveal_strlit("logprobs");
    reveal_strlit("top_logprobs");
    reveal_strlit("prompt");
    reveal_strlit("role");
    reveal_strlit("content");
    assert("model"@.len() == 5);
    assert("messages"@.len() == 8);
    assert("messages"@[0] == 'm');
    assert("logprobs"@[0] == 'l');
    assert("max_tokens"@.len() == 10);
    assert("temperature"@.len() == 11);
    assert("logprobs"@.len() == 8);
    assert("top_logprobs"@.len() == 12);
    assert("prompt"@.len() == 6);
    assert("role"@.len() == 4);
    assert("content"@.len() == 7);
    if style == PromptStyle::Chat {
        let a = message_tree("system"@, system);
        let b = message_tree("user"@, prompt);
        assert(holds(token_request(style, model, system, prompt, top), "messages"@, JsonTree::Arr(seq![a, b])));
    }
}

/// Where a request goes: the endpoint of its style behind the base address.
pub proof fn request_goes_to_its_endpoint(base_url: Seq<char>)
    ensures
        request_url(PromptStyle::Chat, base_url) == base_url + "/chat/completions"@,
        request_url(PromptStyle::Completion, base_url) == base_url + "/completions"@,
{
}

/// Of a base address only the slashes at its end come off, and all of them do.
pub proof fn only_slashes_come_off(s: Seq<char>)
    ensures
        ({
            let t = without_slashes(s);
            &&& t.len() <= s.len()
            &&& t == s.take(t.len() as int)
            &&& t.len() > 0 ==> t.last() != '/'
            &&& forall|i: int| t.len() <= i < s.len() ==> #[trigger] s[i] == '/'
        }),
    decreases s.len(),
{
    if s.len() > 0 && s.last() == '/' {
        let front = s.drop_last();
        only_slashes_come_off(front);
        let t = without_slashes(front);
        assert(front.take(t.len() as int) =~= s.take(t.len() as int));
        assert forall|i: int| t.len() <= i < s.len() implies #[trigger] s[i] == '/' by {
            if i < s.len() - 1 {
                assert(front[i] == s[i]);
            }
        }
    } else {
        assert(s.take(s.len() as int) =~= s);
    }
}

/// A token is read as what is left of it, in upper case, when white space and
/// then the marks `)`, `.` and `:` around it are off; nothing else comes off.
pub proof fn only_marks_come_off(tok: Seq<char>)
    ensures
        exists|a: Seq<char>, t: Seq<char>, b: Seq<char>|
            {
                &&& trim(tok) == #[trigger] (a + t + b)
                &&& normalised(tok) == uppercase(t)
                &&& t.len() > 0 ==> t[0] != ')' && t[0] != '.' && t[0] != ':' && t.last() != ')' && t.last() != '.' && t.last() != ':'
                &&& forall|i: int| 0 <= i < a.len() ==> #[trigger] a[i] == ')' || a[i] == '.' || a[i] == ':'
                &&& forall|i: int| 0 <= i < b.len() ==> #[trigger] b[i] == ')' || b[i] == '.' || b[i] == ':'
            },
{
    let s = trim(tok);
    let u = without_marks_before(s);
    let t = without_marks_behind(u);
    lemma_marks_taken_before(s);
    lemma_marks_taken_behind(u);
    marks_are_off(s);
    let a = s.take(s.len() - u.len());
    let b = u.skip(t.len() as int);
    assert(s =~= a + t + b);
}

proof fn lemma_marks_taken_before(s: Seq<char>)
    ensures
        ({
            let t = without_marks_before(s);
            &&& t.len() <= s.len()
            &&& t == s.skip(s.len() - t.len())
            &&& forall|i: int| 0 <= i < s.len() - t.len() ==> is_mark(#[trigger] s[i])
        }),
    decreases s.len(),
{
    if s.len() > 0 && is_mark(s[0]) {
        let rest = s.drop_first();
        lemma_marks_taken_before(rest);
        let t = without_marks_before(rest);
        assert(rest.skip(rest.len() - t.len()) =~= s.skip(s.len() - t.len()));
        assert forall|i: int| 0 <= i < s.len() - t.len() implies is_mark(#[trigger] s[i]) by {
            if i > 0 {
                assert(rest[i - 1] == s[i]);
            }
        }
    } else {
        assert(s.skip(0) =~= s);
    }
}

proof fn lemma_marks_taken_behind(s: Seq<char>)
    ensures
        ({
            let t = without_marks_behind(s);
            &&& t.len() <= s.len()
            &&& t == s.take(t.len() as int)
            &&& forall|i: int| t.len() <= i < s.len() ==> is_mark(#[trigger] s[i])
        }),
    decreases s.len(),
{
    if s.len() > 0 && is_mark(s.last()) {
        let rest = s.drop_last();
        lemma_marks_taken_behind(rest);
        let t = without_marks_behind(rest);
        assert(rest.take(t.len() as int) =~= s.take(t.len() as int));
        assert forall|i: int| t.len() <= i < s.len() implies is_mark(#[trigger] s[i]) by {
            if i < s.len() - 1 {
                assert(rest[i] == s[i]);
            }
        }
    } else {
        assert(s.take(s.len() as int) =~= s);
    }
}

/// A chat response is read item by item: an item with a token and a number
/// under `logprob` counts under the token's label, in place of what an earlier
/// one said under it; any other item counts for nothing.
pub proof fn chat_items_count(a: Seq<JsonTree>, item: JsonTree, b: Seq<JsonTree>)
    ensures
        chat_logprobs(a + b) == chat_logprobs(a).union_prefer_right(chat_logprobs(b)),
        match item {
            JsonTree::Obj(m) => if m.contains_key("token"@) && m["token"@] is Str && m.contains_key("logprob"@) && json_real(m["logprob"@]) is Some {
                chat_logprobs(seq![item]) == map![normalised(m["token"@]->Str_0) => json_real(m["logprob"@])->0]
            } else {
                chat_logprobs(seq![item]) == Map::<Seq<char>, Binary64>::empty()
            },
            _ => chat_logprobs(seq![item]) == Map::<Seq<char>, Binary64>::empty(),
        },
    decreases b.len(),
{
    let one = seq![item];
    assert(one.drop_last() =~= seq![]);
    assert(chat_logprobs(one.drop_last()) =~= Map::empty());
    if let Some((tok, lp)) = chat_item(item) {
        assert(chat_logprobs(one) =~= map![normalised(tok) => lp]);
    }
    if b.len() == 0 {
        assert(a + b =~= a);
        assert(chat_logprobs(a).union_prefer_right(chat_logprobs(b)) =~= chat_logprobs(a));
    } else {
        assert((a + b).drop_last() =~= a + b.drop_last());
        chat_items_count(a, item, b.drop_last());
        assert(chat_logprobs(a + b) =~= chat_logprobs(a).union_prefer_right(chat_logprobs(b)));
    }
}

/// A completion response is read token by token: a token with a number counts
/// under its label, in place of what an earlier one said under it.
pub proof fn tokens_count(entries: Map<Seq<char>, JsonTree>, a: Seq<Seq<char>>, tok: Seq<char>, b: Seq<Seq<char>>)
    ensures
        token_logprobs(entries, a + b) == token_logprobs(entries, a).union_prefer_right(token_logprobs(entries, b)),
        token_logprobs(entries, seq![tok]) == (match json_real(entries[tok]) {
            Some(lp) => map![normalised(tok) => lp],
            None => Map::<Seq<char>, Binary64>::empty(),
        }),
    decreases b.len(),
{
    let one = seq![tok];
    assert(one.drop_last() =~= seq![]);
    assert(token_logprobs(entries, one.drop_last()) =~= Map::empty());
    if let Some(lp) = json_real(entries[tok]) {
        assert(token_logprobs(entries, one) =~= map![normalised(tok) => lp]);
    }
    if b.len() == 0 {
        assert(a + b =~= a);
        assert(token_logprobs(entries, a).union_prefer_right(token_logprobs(entries, b)) =~= token_logprobs(entries, a));
    } else {
        assert((a + b).drop_last() =~= a + b.drop_last());
        tokens_count(entries, a, tok, b.drop_last());
        assert(token_logprobs(entries, a + b) =~= token_logprobs(entries, a).union_prefer_right(token_logprobs(entries, b)));
    }
}

/// Each label is read under its own letter, where the response says something
/// of it.
pub proof fn labels_are_read_out(lps: Map<Seq<char>, Binary64>, n: nat, i: int)
    requires
        0 <= i < n <= MAX_LABELS,
    ensures
        label_values(lps, n).len() == n,
        label_values(lps, n)[i] == (if lps.contains_key(seq![(65 + i) as u8 as char]) {
            Some(lps[seq![(65 + i) as u8 as char]])
        } else {
            None
        }),
{
}

/// Keys are zipped with the probabilities at their places: a key has the one
/// at its last place, and there are no other keys.
pub proof fn zipped_by_place(keys: Seq<Seq<char>>, probs: Seq<Binary64>)
    requires
        keys.len() <= probs.len(),
    ensures
        forall|i: int|
            0 <= i < keys.len() && (forall|j: int| i < j < keys.len() ==> #[trigger] keys[j] != keys[i]) ==> zipped(keys, probs).contains_pair(
                #[trigger] keys[i],
                probs[i],
            ),
        forall|k: Seq<char>| #[trigger] zipped(keys, probs).contains_key(k) ==> keys.contains(k),
    decreases keys.len(),
{
    if keys.len() > 0 {
        let rest = keys.drop_last();
        let last = keys.len() - 1;
        let m = zipped(keys, probs);
        zipped_by_place(rest, probs);
        assert forall|i: int|
            0 <= i < keys.len() && (forall|j: int| i < j < keys.len() ==> #[trigger] keys[j] != keys[i]) implies m.contains_pair(
            #[trigger] keys[i],
            probs[i],
        ) by {
            if i < last {
                assert(keys[last] != keys[i]);
                assert(rest[i] == keys[i]);
                assert forall|j: int| i < j < rest.len() implies #[trigger] rest[j] != rest[i] by {
                    assert(keys[j] != keys[i]);
                }
                assert(zipped(rest, probs).contains_pair(rest[i], probs[i]));
            }
        }
        assert forall|k: Seq<char>| #[trigger] m.contains_key(k) implies keys.contains(k) by {
            if k == keys[last] {
                assert(keys.contains(keys[last]));
            } else {
                assert(zipped(rest, probs).contains_key(k));
                let i = choose|i: int| 0 <= i < rest.len() && rest[i] == k;
                assert(keys[i] == k);
            }
        }
    }
}

/// The answer read out of probabilities over the options: for a yes/no question
/// the probability of yes; for a choice the most likely option and every option
/// with its own probability; for a score every level with its own. How sure it
/// is is the probability of the most likely option.
pub proof fn answers_say_what_was_read(q: SpecView, probs: Seq<Binary64>, score: Binary64)
    requires
        probs.len() == asked_options(q).len(),
        probs.len() > 0,
        forall|i: int| 0 <= i < probs.len() ==> !(#[trigger] probs[i]).is_nan(),
    ensures
        exists|top: int|
            {
                &&& 0 <= top < probs.len()
                &&& forall|i: int| 0 <= i < probs.len() ==> (#[trigger] probs[i]).at_most(probs[top])
                &&& forall|i: int| top < i < probs.len() ==> (#[trigger] probs[i]).below(#[trigger] probs[top])
                &&& match (q, answer_view(q, probs, score)) {
                    (SpecView::Noul { .. }, RawView::Noul { noul, confidence }) => noul == probs[0] && confidence == Some(probs[top]),
                    (SpecView::Choice { criteria, .. }, RawView::Choice { choice, probabilities, confidence }) => choice == criteria[top].0
                        && probabilities == zipped(criteria.map_values(|o: (Seq<char>, Option<Seq<char>>)| o.0), probs) && confidence == probs[top],
                    (SpecView::Score { criteria, .. }, RawView::Score { score: s, legend, probabilities, confidence }) => s == score && legend
                        == numbered(criteria) && probabilities == numbered(probs) && confidence == probs[top],
                    _ => false,
                }
            },
{
    greatest_is_last_maximum(probs, probs.len());
    let top = greatest(probs, probs.len());
    assert(forall|i: int| top < i < probs.len() ==> (#[trigger] probs[i]).below(#[trigger] probs[top]));
    if let SpecView::Choice { criteria, .. } = q {
        assert(option_keys(criteria) =~= criteria.map_values(|o: (Seq<char>, Option<Seq<char>>)| o.0));
    }
}

/// Answers stand under the names of their questions: each name has its last
/// answer, and there are no other names.
pub proof fn answers_stand_under_their_names(a: Seq<(String, RawAnswer)>, one: (String, RawAnswer), b: Seq<(String, RawAnswer)>)
    ensures
        named_answers(a + b) == named_answers(a).union_prefer_right(named_answers(b)),
        named_answers(seq![one]) == map![one.0@ => one.1@],
    decreases b.len(),
{
    let s = seq![one];
    assert(s.drop_last() =~= seq![]);
    assert(named_answers(s.drop_last()) =~= Map::empty());
    assert(named_answers(s) =~= map![one.0@ => one.1@]);
    if b.len() == 0 {
        assert(a + b =~= a);
        assert(named_answers(a).union_prefer_right(named_answers(b)) =~= named_answers(a));
    } else {
        assert((a + b).drop_last() =~= a + b.drop_last());
        answers_stand_under_their_names(a, one, b.drop_last());
        assert(named_answers(a + b) =~= named_answers(a).union_prefer_right(named_answers(b)));
    }
}

/// The log-probabilities of a chat response are those in its first choice,
/// under the first token; a response without them says nothing.
pub proof fn chat_response_is_read(
    response: JsonTree,
    choices: Seq<JsonTree>,
    logprobs: JsonTree,
    content: Seq<JsonTree>,
    top: Seq<JsonTree>,
    m: Map<Seq<char>, Binary64>,
)
    requires
        holds(response, "choices"@, JsonTree::Arr(choices)),
        choices.len() > 0,
        holds(choices[0], "logprobs"@, logprobs),
        holds(logprobs, "content"@, JsonTree::Arr(content)),
        content.len() > 0,
        holds(content[0], "top_logprobs"@, JsonTree::Arr(top)),
    ensures
        first_token(PromptStyle::Chat, response, m) == (m == chat_logprobs(top)),
{
    reveal_strlit("/choices/0/logprobs/content/0/top_logprobs");
    reveal_strlit("choices");
    reveal_strlit("logprobs");
    reveal_strlit("content");
    reveal_strlit("top_logprobs");
    let slash = seq!['/'];
    let end: Seq<char> = seq![];
    let p5 = slash + "top_logprobs"@ + end;
    let p4 = slash + decimal(0) + p5;
    let p3 = slash + "content"@ + p4;
    let p2 = slash + "logprobs"@ + p3;
    let p1 = slash + decimal(0) + p2;
    let p0 = slash + "choices"@ + p1;
    assert(decimal(0) =~= seq!['0']);
    assert(CHAT_PATH@ =~= p0);
    pointer_goes_token_by_token(response, "choices"@, p1);
    pointer_goes_token_by_token(JsonTree::Arr(choices), decimal(0), p2);
    pointer_steps_by_key_and_place(JsonTree::Arr(choices), seq![], 0);
    pointer_goes_token_by_token(choices[0], "logprobs"@, p3);
    pointer_goes_token_by_token(logprobs, "content"@, p4);
    pointer_goes_token_by_token(JsonTree::Arr(content), decimal(0), p5);
    pointer_steps_by_key_and_place(JsonTree::Arr(content), seq![], 0);
    pointer_goes_token_by_token(content[0], "top_logprobs"@, end);
}

/// The log-probabilities of a completion response are those in its first
/// choice, under the first token: the tokens are read in their order.
pub proof fn completion_response_is_read(
    response: JsonTree,
    choices: Seq<JsonTree>,
    logprobs: JsonTree,
    top: Seq<JsonTree>,
    entries: Map<Seq<char>, JsonTree>,
    tokens: Seq<Seq<char>>,
    m: Map<Seq<char>, Binary64>,
)
    requires
        holds(response, "choices"@, JsonTree::Arr(choices)),
        choices.len() > 0,
        holds(choices[0], "logprobs"@, logprobs),
        holds(logprobs, "top_logprobs"@, JsonTree::Arr(top)),
        top.len() > 0,
        top[0] == JsonTree::Obj(entries),
        rising_texts(tokens),
        tokens.to_set() == entries.dom(),
    ensures
        first_token(PromptStyle::Completion, response, m) == (m == token_logprobs(entries, tokens)),
{
    reveal_strlit("/choices/0/logprobs/top_logprobs/0");
    reveal_strlit("choices");
    reveal_strlit("logprobs");
    reveal_strlit("top_logprobs");
    let slash = seq!['/'];
    let end: Seq<char> = seq![];
    let p4 = slash + decimal(0) + end;
    let p3 = slash + "top_logprobs"@ + p4;
    let p2 = slash + "logprobs"@ + p3;
    let p1 = slash + decimal(0) + p2;
    let p0 = slash + "choices"@ + p1;
    assert(decimal(0) =~= seq!['0']);
    assert(COMPLETION_PATH@ =~= p0);
    pointer_goes_token_by_token(response, "choices"@, p1);
    pointer_goes_token_by_token(JsonTree::Arr(choices), decimal(0), p2);
    pointer_steps_by_key_and_place(JsonTree::Arr(choices), seq![], 0);
    pointer_goes_token_by_token(choices[0], "logprobs"@, p3);
    pointer_goes_token_by_token(logprobs, "top_logprobs"@, p4);
    pointer_goes_token_by_token(JsonTree::Arr(top), decimal(0), end);
    pointer_steps_by_key_and_place(JsonTree::Arr(top), seq![], 0);
    assert(pointed(response, COMPLETION_PATH@) == Some(JsonTree::Obj(entries)));
    if first_token(PromptStyle::Completion, response, m) {
        let a = choose|tokens: Seq<Seq<char>>| #[trigger]
            rising_texts(tokens) && tokens.to_set() == entries.dom() && m == token_logprobs(entries, tokens);
        lemma_rising_keys(a, tokens);
    }
    if m == token_logprobs(entries, tokens) {
        assert(rising_texts(tokens) && tokens.to_set() == entries.dom() && m == token_logprobs(entries, tokens));
        assert(read_in_order(entries, m));
    }
}

} // verus!
