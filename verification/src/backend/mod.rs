//! Backends: anything that can turn `(state, schema)` into raw answers.
//!
//! | Backend | Purpose |
//! |---|---|
//! | [`http::JevHttp`] | The official TypeSafe AI Jev API (`api.typesafe.ai/v1/systemone`). |
//! | [`mock::Mock`] | Deterministic answers for unit tests and offline development. |
//! | [`replay::Replay`] | Answers from a JSONL recording — free, reproducible backtests. |
//! | [`logprob::LocalLogprob`] | Your own model behind an OpenAI-compatible server (vLLM, llama.cpp, …), read out via log-probs. |
//! | [`shadow::Shadow`] | Run a primary and a shadow backend side by side; return the primary, record both. |
//!
//! Each module holds what a backend decides; the requests themselves are made
//! by the application.
pub mod http;
pub mod replay;
pub mod shadow;
pub mod answers;
pub mod mock;
pub mod logprob;
