//! Ranking a folder of notes by how well each one helps to answer a question.
pub mod markdown;
pub mod front_matter;
pub mod path;
pub mod pattern;
pub mod doc;
pub mod options;
pub mod questions;
pub mod rows;
pub mod output;
pub mod mark;
pub mod run;
