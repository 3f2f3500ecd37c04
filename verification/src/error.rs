//! Error type shared by every layer of the crate.
use vstd::prelude::*;
use vstd::string::*;

use crate::numeral::{decimal, decimal_of};
use crate::text::string_of;

verus! {

/// Everything that can go wrong while asking a question.
#[derive(Debug, PartialEq, Eq)]
pub enum Error {
    /// The backend answered, but the answer does not match the schema we sent.
    /// With the official Jev API this should never happen (outputs are schema
    /// constrained); it protects you against buggy custom backends.
    SchemaMismatch { question: String, reason: String },
    /// The backend returned no answer for a question that was in the schema.
    MissingAnswer(String),
    /// A schema was invalid before it was even sent (e.g. a `Choice` with
    /// more than 255 options, or a `Score` with fewer than 2 levels).
    InvalidSchema(String),
    /// The state could not be serialised, for this reason.
    State(String),
    /// HTTP transport or non-success status from a remote backend.
    Backend { backend: String, message: String },
    /// The request was rejected with 429/529 and retries were exhausted.
    RateLimited { backend: String, attempts: u32 },
    /// A replaying backend has no recorded answer for this (state, schema) pair.
    NotRecorded { state_hash: String, schema_hash: String },
    /// I/O while recording or replaying failed, for this reason.
    Io(String),
}

/// What an error says.
#[verifier::ext_equal]
pub enum ErrorView {
    SchemaMismatch { question: Seq<char>, reason: Seq<char> },
    MissingAnswer(Seq<char>),
    InvalidSchema(Seq<char>),
    State(Seq<char>),
    Backend { backend: Seq<char>, message: Seq<char> },
    RateLimited { backend: Seq<char>, attempts: u32 },
    NotRecorded { state_hash: Seq<char>, schema_hash: Seq<char> },
    Io(Seq<char>),
}

impl View for Error {
    type V = ErrorView;

    open spec fn view(&self) -> ErrorView {
        match self {
            Error::SchemaMismatch { question, reason } => ErrorView::SchemaMismatch { question: question@, reason: reason@ },
            Error::MissingAnswer(q) => ErrorView::MissingAnswer(q@),
            Error::InvalidSchema(m) => ErrorView::InvalidSchema(m@),
            Error::State(m) => ErrorView::State(m@),
            Error::Backend { backend, message } => ErrorView::Backend { backend: backend@, message: message@ },
            Error::RateLimited { backend, attempts } => ErrorView::RateLimited { backend: backend@, attempts: *attempts },
            Error::NotRecorded { state_hash, schema_hash } => ErrorView::NotRecorded {
                state_hash: state_hash@,
                schema_hash: schema_hash@,
            },
            Error::Io(m) => ErrorView::Io(m@),
        }
    }
}

/// The text an error is shown as.
pub open spec fn shown_error(e: ErrorView) -> Seq<char> {
    match e {
        ErrorView::SchemaMismatch { question, reason } => "answer for question `"@ + question + "` does not match schema: "@ + reason,
        ErrorView::MissingAnswer(q) => "backend returned no answer for question `"@ + q + "`"@,
        ErrorView::InvalidSchema(m) => "invalid schema: "@ + m,
        ErrorView::State(m) => "state serialisation failed: "@ + m,
        ErrorView::Backend { backend, message } => "backend `"@ + backend + "` failed: "@ + message,
        ErrorView::RateLimited { backend, attempts } => "backend `"@ + backend + "` is rate limited / overloaded after "@ + decimal(
            attempts as nat,
        ) + " attempts"@,
        ErrorView::NotRecorded { state_hash, schema_hash } => "no recorded answer for state hash "@ + state_hash + " / schema hash "@
            + schema_hash,
        ErrorView::Io(m) => "io: "@ + m,
    }
}

impl Error {
    /// The error as text.
    pub fn message(&self) -> (r: String)
        ensures
            r@ == shown_error(self@),
    {
        match self {
            Error::SchemaMismatch { question, reason } => {
                let mut out = "answer for question `".to_owned();
                out.push_str(question.as_str());
                out.push_str("` does not match schema: ");
                out.push_str(reason.as_str());
                out
            },
            Error::MissingAnswer(q) => {
                let mut out = "backend returned no answer for question `".to_owned();
                out.push_str(q.as_str());
                out.push_str("`");
                out
            },
            Error::InvalidSchema(m) => {
                let mut out = "invalid schema: ".to_owned();
                out.push_str(m.as_str());
                out
            },
            Error::State(m) => {
                let mut out = "state serialisation failed: ".to_owned();
                out.push_str(m.as_str());
                out
            },
            Error::Backend { backend, message } => {
                let mut out = "backend `".to_owned();
                out.push_str(backend.as_str());
                out.push_str("` failed: ");
                out.push_str(message.as_str());
                out
            },
            Error::RateLimited { backend, attempts } => {
                let mut out = "backend `".to_owned();
                out.push_str(backend.as_str());
                out.push_str("` is rate limited / overloaded after ");
                out.push_str(string_of(decimal_of(*attempts as u128).as_slice()).as_str());
                out.push_str(" attempts");
                out
            },
            Error::NotRecorded { state_hash, schema_hash } => {
                let mut out = "no recorded answer for state hash ".to_owned();
                out.push_str(state_hash.as_str());
                out.push_str(" / schema hash ");
                out.push_str(schema_hash.as_str());
                out
            },
            Error::Io(m) => {
                let mut out = "io: ".to_owned();
                out.push_str(m.as_str());
                out
            },
        }
    }
}

/// A message names what went wrong: every text that an error holds stands in it,
/// in order, and each kind of error starts in its own way.
pub proof fn messages_name_what_went_wrong(e: ErrorView)
    ensures
        match e {
            ErrorView::SchemaMismatch { question, reason } => exists|a: Seq<char>, b: Seq<char>|
                shown_error(e) == #[trigger] (a + question + b + reason) && a == "answer for question `"@,
            ErrorView::MissingAnswer(q) => exists|a: Seq<char>, b: Seq<char>|
                shown_error(e) == #[trigger] (a + q + b) && a == "backend returned no answer for question `"@ && b.len() == 1,
            ErrorView::InvalidSchema(m) => shown_error(e) == "invalid schema: "@ + m,
            ErrorView::State(m) => shown_error(e) == "state serialisation failed: "@ + m,
            ErrorView::Backend { backend, message } => exists|a: Seq<char>, b: Seq<char>|
                shown_error(e) == #[trigger] (a + backend + b + message) && a == "backend `"@ && b == "` failed: "@,
            ErrorView::RateLimited { backend, attempts } => exists|a: Seq<char>, b: Seq<char>, c: Seq<char>|
                shown_error(e) == #[trigger] (a + backend + b + decimal(attempts as nat) + c) && a == "backend `"@ && c == " attempts"@,
            ErrorView::NotRecorded { state_hash, schema_hash } => exists|a: Seq<char>, b: Seq<char>|
                shown_error(e) == #[trigger] (a + state_hash + b + schema_hash) && a == "no recorded answer for state hash "@,
            ErrorView::Io(m) => shown_error(e) == "io: "@ + m,
        },
{
    match e {
        ErrorView::SchemaMismatch { question, reason } => {
            assert(shown_error(e) == "answer for question `"@ + question + "` does not match schema: "@ + reason);
        },
        ErrorView::MissingAnswer(q) => {
            reveal_strlit("`");
            assert(shown_error(e) == "backend returned no answer for question `"@ + q + "`"@);
        },
        ErrorView::Backend { backend, message } => {
            assert(shown_error(e) == "backend `"@ + backend + "` failed: "@ + message);
        },
        ErrorView::RateLimited { backend, attempts } => {
            assert(shown_error(e) == "backend `"@ + backend + "` is rate limited / overloaded after "@ + decimal(attempts as nat) + " attempts"@);
        },
        ErrorView::NotRecorded { state_hash, schema_hash } => {
            assert(shown_error(e) == "no recorded answer for state hash "@ + state_hash + " / schema hash "@ + schema_hash);
        },
        _ => {},
    }
}

/// An error is seen as what it says of what went wrong.
pub proof fn errors_are_seen_whole(a: String, b: String, attempts: u32)
    ensures
        (Error::SchemaMismatch { question: a, reason: b })@ == (ErrorView::SchemaMismatch { question: a@, reason: b@ }),
        Error::MissingAnswer(a)@ == ErrorView::MissingAnswer(a@),
        Error::InvalidSchema(a)@ == ErrorView::InvalidSchema(a@),
        Error::State(a)@ == ErrorView::State(a@),
        (Error::Backend { backend: a, message: b })@ == (ErrorView::Backend { backend: a@, message: b@ }),
        (Error::RateLimited { backend: a, attempts })@ == (ErrorView::RateLimited { backend: a@, attempts }),
        (Error::NotRecorded { state_hash: a, schema_hash: b })@ == (ErrorView::NotRecorded { state_hash: a@, schema_hash: b@ }),
        Error::Io(a)@ == ErrorView::Io(a@),
{
}

} // verus!
