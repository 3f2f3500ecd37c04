//! Official TypeSafe AI Jev backend.
//!
//! ```text
//! POST https://api.typesafe.ai/v1/systemone
//! Authorization: Bearer <JEV_API_KEY>
//! { "model": "jev-latest", "state": ..., "questions": { ... } }
//! ```
use vstd::arithmetic::power2::*;
use vstd::prelude::*;
use vstd::string::*;

use crate::error::{Error, ErrorView};
use crate::json::{copy_value, json_tree, no_entries, no_members, object_value, put_entry, string_value, JsonTree};
use crate::schema::{schema_refused, schema_tree, schema_valid, QuestionSchema, SpecView};

verus! {

/// Default endpoint of the System One API.
pub const DEFAULT_ENDPOINT: &'static str = "https://api.typesafe.ai/v1/systemone";

/// Default model route.
pub const DEFAULT_MODEL: &'static str = "jev-latest";

/// The wait before the first retry, in milliseconds.
pub const BASE_BACKOFF_MS: u64 = 250;

/// Client for the official Jev API: where and how it asks.
#[derive(Debug, Clone)]
pub struct JevHttp {
    pub endpoint: String,
    pub api_key: String,
    pub model: String,
    pub max_retries: u32,
}

/// The body of a request.
pub open spec fn request_tree(model: Seq<char>, state: JsonTree, questions: Map<Seq<char>, SpecView>) -> JsonTree {
    JsonTree::Obj(
        no_members().insert("model"@, JsonTree::Str(model)).insert("state"@, state).insert("questions"@, schema_tree(questions)),
    )
}

/// What came back of one attempt.
#[derive(Debug)]
pub enum Event {
    /// A response with this status code.
    Status(u16),
    /// A transport error: no response came.
    Transport { message: String },
}

/// What to do next.
#[derive(Debug, PartialEq, Eq)]
pub enum Action {
    /// Read the answers out of the response.
    ReadAnswers,
    /// Wait this long and try again.
    Retry { wait_ms: u64 },
    /// Read the text of the response and fail with it.
    ReadFailure,
    Fail(Error),
}

pub open spec fn is_success(code: u16) -> bool {
    200 <= code < 300
}

/// Too many requests, or overloaded.
pub open spec fn is_overload(code: u16) -> bool {
    code == 429 || code == 529
}

/// Whether what came back is worth another attempt.
pub open spec fn is_passing(event: Event) -> bool {
    match event {
        Event::Status(code) => is_overload(code),
        Event::Transport { .. } => true,
    }
}

/// The wait after attempt number `attempt`: it doubles from attempt to attempt.
pub open spec fn backoff_ms(attempt: nat) -> nat {
    BASE_BACKOFF_MS as nat * pow2((attempt - 1) as nat)
}

/// The backend's name in recordings.
pub open spec fn http_id(model: Seq<char>) -> Seq<char> {
    "jev-http:"@ + model
}

fn doubled(times: u32) -> (r: u64)
    requires
        times < 32,
    ensures
        r == pow2(times as nat),
        r <= 0x8000_0000,
{
    proof {
        lemma2_to64();
    }
    let mut r: u64 = 1;
    let mut i: u32 = 0;
    while i < times
        invariant
            i <= times < 32,
            r == pow2(i as nat),
            r <= 0x8000_0000,
            pow2(31) == 0x8000_0000,
        decreases times - i,
    {
        proof {
            lemma_pow2_unfold((i + 1) as nat);
            if i + 1 < 31 {
                lemma_pow2_strictly_increases((i + 1) as nat, 31);
            }
        }
        r = r * 2;
        i += 1;
    }
    r
}

impl Event {
    /// Too many requests, overloaded or a transport error: it may pass.
    pub fn may_pass(&self) -> (r: bool)
        ensures
            r == is_passing(*self),
    {
        match self {
            Event::Status(code) => *code == 429 || *code == 529,
            Event::Transport { .. } => true,
        }
    }
}

impl JevHttp {
    /// A client with an explicit key.
    pub fn new(api_key: &str) -> (r: Self)
        ensures
            r.endpoint@ == DEFAULT_ENDPOINT@,
            r.api_key@ == api_key@,
            r.model@ == DEFAULT_MODEL@,
            r.max_retries == 4,
    {
        JevHttp { endpoint: DEFAULT_ENDPOINT.to_owned(), api_key: api_key.to_owned(), model: DEFAULT_MODEL.to_owned(), max_retries: 4 }
    }

    /// A client out of the values of `JEV_API_KEY` (and optionally
    /// `JEV_ENDPOINT`, `JEV_MODEL`). `None` when no key is set so callers can
    /// fall back to a [`crate::backend::mock::Mock`].
    pub fn from_env(key: Option<String>, endpoint: Option<String>, model: Option<String>) -> (r: Option<Self>)
        ensures
            match key {
                None => r is None,
                Some(k) => r matches Some(me) && me.api_key@ == k@ && me.max_retries == 4 && me.endpoint@ == (match endpoint {
                    Some(e) => e@,
                    None => DEFAULT_ENDPOINT@,
                }) && me.model@ == (match model {
                    Some(m) => m@,
                    None => DEFAULT_MODEL@,
                }),
            },
    {
        match key {
            None => None,
            Some(k) => {
                let mut me = Self::new(k.as_str());
                match endpoint {
                    Some(e) => {
                        me.endpoint = e;
                    },
                    None => {},
                }
                match model {
                    Some(m) => {
                        me.model = m;
                    },
                    None => {},
                }
                Some(me)
            },
        }
    }

    pub fn with_endpoint(self, endpoint: &str) -> (r: Self)
        ensures
            r == (JevHttp { endpoint: r.endpoint, ..self }),
            r.endpoint@ == endpoint@,
    {
        JevHttp { endpoint: endpoint.to_owned(), ..self }
    }

    pub fn with_model(self, model: &str) -> (r: Self)
        ensures
            r == (JevHttp { model: r.model, ..self }),
            r.model@ == model@,
    {
        JevHttp { model: model.to_owned(), ..self }
    }

    /// Number of retries on 429 / 529 / transport errors (default 4).
    pub fn with_max_retries(self, n: u32) -> (r: Self)
        ensures
            r == (JevHttp { max_retries: n, ..self }),
    {
        JevHttp { max_retries: n, ..self }
    }

    pub fn id(&self) -> (r: String)
        ensures
            r@ == http_id(self.model@),
    {
        let mut id = "jev-http:".to_owned();
        id.push_str(self.model.as_str());
        id
    }

    /// The body of the request for `state` and `schema`.
    pub fn body(&self, state: &serde_json::Value, schema: &QuestionSchema) -> (r: serde_json::Value)
        ensures
            json_tree(r) == request_tree(self.model@, json_tree(*state), schema@),
    {
        let mut m = no_entries();
        put_entry(&mut m, "model".to_owned(), string_value(self.model.as_str()));
        put_entry(&mut m, "state".to_owned(), copy_value(state));
        put_entry(&mut m, "questions".to_owned(), schema.to_api_json());
        object_value(m)
    }

    /// The body to send, or the error of a schema that cannot be sent.
    pub fn request(&self, state: &serde_json::Value, schema: &QuestionSchema) -> (r: Result<serde_json::Value, Error>)
        ensures
            match r {
                Ok(body) => schema_valid(schema@) && json_tree(body) == request_tree(self.model@, json_tree(*state), schema@),
                Err(e) => schema_refused(schema@, e@),
            },
    {
        match schema.validate() {
            Ok(_) => Ok(self.body(state, schema)),
            Err(e) => Err(e),
        }
    }

    /// What to do after attempt number `attempt` (counted from one) came to
    /// `event`. The wait doubles with each attempt; past the 32nd it would not
    /// fit the clock.
    pub fn decide(&self, attempt: u32, event: Event) -> (r: Action)
        requires
            1 <= attempt,
            is_passing(event) && attempt <= self.max_retries ==> attempt <= 32,
        ensures
            r is Retry == goes_on(self.max_retries, attempt as nat, event),
            match event {
                Event::Status(code) => if is_success(code) {
                    r == Action::ReadAnswers
                } else if !is_overload(code) {
                    r == Action::ReadFailure
                } else if attempt <= self.max_retries {
                    r matches Action::Retry { wait_ms } && wait_ms == backoff_ms(attempt as nat)
                } else {
                    r matches Action::Fail(e) && e@ == (ErrorView::RateLimited { backend: http_id(self.model@), attempts: attempt })
                },
                Event::Transport { message } => if attempt <= self.max_retries {
                    r matches Action::Retry { wait_ms } && wait_ms == backoff_ms(attempt as nat)
                } else {
                    r matches Action::Fail(e) && e@ == (ErrorView::Backend { backend: http_id(self.model@), message: message@ })
                },
            },
    {
        if event.may_pass() && attempt <= self.max_retries {
            return Action::Retry { wait_ms: BASE_BACKOFF_MS * doubled(attempt - 1) };
        }
        match event {
            Event::Status(code) => {
                if code >= 200 && code < 300 {
                    return Action::ReadAnswers;
                }
                if code == 429 || code == 529 {
                    return Action::Fail(Error::RateLimited { backend: self.id(), attempts: attempt });
                }
                Action::ReadFailure
            },
            Event::Transport { message } => Action::Fail(Error::Backend { backend: self.id(), message }),
        }
    }

    /// The error for a response whose body holds no answers.
    pub fn invalid_body(&self, reason: &str) -> (r: Error)
        ensures
            r@ == (ErrorView::Backend { backend: http_id(self.model@), message: "invalid response body: "@ + reason@ }),
    {
        let mut message = "invalid response body: ".to_owned();
        message.push_str(reason);
        Error::Backend { backend: self.id(), message }
    }

    /// The error for a response with a failing status and the text it came with.
    pub fn failure(&self, status: &str, text: &str) -> (r: Error)
        ensures
            r@ == (ErrorView::Backend { backend: http_id(self.model@), message: "HTTP "@ + status@ + ": "@ + text@ }),
    {
        let mut message = "HTTP ".to_owned();
        message.push_str(status);
        message.push_str(": ");
        message.push_str(text);
        Error::Backend { backend: self.id(), message }
    }
}

/// Whether attempt number `attempt`, which came to `event`, is followed by another.
pub open spec fn goes_on(max_retries: u32, attempt: nat, event: Event) -> bool {
    is_passing(event) && attempt <= max_retries
}

/// The first attempt from number `attempt` on that is not followed by another,
/// when attempt number `i` comes to `events[i - 1]`.
pub open spec fn last_attempt(max_retries: u32, attempt: nat, events: Seq<Event>) -> nat
    decreases events.len() - attempt,
{
    if attempt < events.len() && attempt >= 1 && goes_on(max_retries, attempt, events[attempt - 1]) {
        last_attempt(max_retries, attempt + 1, events)
    } else {
        attempt
    }
}

/// However often the server is overloaded, there is one attempt more than
/// there are retries at most.
pub proof fn attempts_are_bounded(max_retries: u32, attempt: nat, events: Seq<Event>)
    requires
        1 <= attempt <= max_retries + 1,
    ensures
        last_attempt(max_retries, attempt, events) <= max_retries + 1,
    decreases events.len() - attempt,
{
    if attempt < events.len() && goes_on(max_retries, attempt, events[attempt - 1]) {
        attempts_are_bounded(max_retries, attempt + 1, events);
    }
}

/// Each wait is twice the one before.
pub proof fn backoff_doubles(attempt: nat)
    requires
        attempt >= 1,
    ensures
        backoff_ms(attempt + 1) == 2 * backoff_ms(attempt),
        backoff_ms(1) == 250,
{
    lemma2_to64();
    lemma_pow2_unfold(attempt);
    let p = pow2((attempt - 1) as nat);
    assert(250 * (2 * p) == 2 * (250 * p)) by (nonlinear_arith);
}

/// A request is an object of the model, the state and the questions, and of
/// nothing else; the client is known by its model.
pub proof fn request_holds_model_state_and_questions(model: Seq<char>, state: JsonTree, questions: Map<Seq<char>, SpecView>)
    ensures
        request_tree(model, state, questions) == JsonTree::Obj(
            map!["model"@ => JsonTree::Str(model), "state"@ => state, "questions"@ => schema_tree(questions)],
        ),
        http_id(model) == "jev-http:"@ + model,
        DEFAULT_ENDPOINT@ == "https://api.typesafe.ai/v1/systemone"@,
        DEFAULT_MODEL@ == "jev-latest"@,
{
    assert(request_tree(model, state, questions)->Obj_0 =~= map!["model"@ => JsonTree::Str(model), "state"@ => state, "questions"@ => schema_tree(questions)]);
}

/// Statuses 429 and 529 and transport errors are tried again as long as there
/// are retries left, nothing else is; 200 to 299 are successes.
pub proof fn only_overload_and_transport_are_retried(max_retries: u32, attempt: nat, code: u16, message: String)
    ensures
        goes_on(max_retries, attempt, Event::Status(code)) <==> (code == 429 || code == 529) && attempt <= max_retries,
        goes_on(max_retries, attempt, Event::Transport { message }) <==> attempt <= max_retries,
        is_success(code) <==> 200 <= code <= 299,
        is_overload(code) <==> code == 429 || code == 529,
{
}

} // verus!
