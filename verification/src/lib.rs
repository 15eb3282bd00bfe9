//! Scheduling and knowledge-organization engine for an interactive review
//! tool: spaced-repetition grading, due-date filtering and ordering,
//! cloze-based flashcard derivation and masking, and deterministic ordering
//! of a parent-referencing notes forest.

pub mod cloze;
pub mod data;
pub mod flash;
pub mod keymap;
pub mod notes;
pub mod order;
pub mod schedule;
pub mod strutil;
pub mod textbuf;
pub mod view;
