//! Merges per-change markdown fragments into one ordered changelog.
//!
//! Each fragment gets one merge-request link: by its numeric name, from the
//! operator's answers, helped by fuzzy suggestions from the host's catalog.
//! Its list items are gathered under their headings, and the chosen sections
//! are written out with the links filled into a template.

pub mod text;
pub mod host;
pub mod catalog;
pub mod resolve;
pub mod order;
pub mod sections;
pub mod render;
pub mod guess;
