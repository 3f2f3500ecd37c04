//! Typed, calibrated decisions.
//!
//! A backend-agnostic client for *System One* style models — models that do
//! not generate text but answer a fixed set of questions with calibrated
//! probabilities.
//!
//! * [`answer`]: `Noul`, `Choice` and `Score` carry full distributions plus
//!   decision helpers.
//! * [`derive`](mod@derive): what an enum or a struct says about the questions
//!   it stands for; [`traits`]: what comes of it.
//! * [`backend`]: what each backend sends, reads and decides.
//! * [`engine`]: caching and recording around any backend.
//! * [`record`] and [`calibration`]: whether a 0.8 really meant 80 %.
//! * [`rank`] and [`ask`]: the two command-line programs.
pub mod answer;
pub mod ask;
pub mod backend;
pub mod binary64;
pub mod calibration;
pub mod derive;
pub mod engine;
pub mod error;
pub mod hash;
pub mod json;
pub mod numeral;
pub mod order;
pub mod rank;
pub mod record;
pub mod schema;
pub mod sorted_map;
pub mod sorting;
pub mod text;
pub mod traits;
