//! Session-file logic of a desktop editor for chat transcripts stored as
//! JSON Lines.

pub mod calendar;
pub mod text;
pub mod words;
pub mod sections;
pub mod json;
pub mod blocks;
pub mod session;
pub mod summary;
pub mod convs;
pub mod sidebar;
pub mod lines;
pub mod batch;
pub mod labels;
pub mod uuid;
