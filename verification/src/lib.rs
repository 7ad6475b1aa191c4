//! A verified core for a todo.txt-style task editor: parsing a raw line
//! into a tagged, lossless segment list; toggling tasks between pending and
//! done while relocating priority, dates and recurrence metadata; calendar
//! date arithmetic for recurring tasks; an ordered task list that keeps
//! pending tasks grouped before completed ones; and derived views for
//! searching and tag autocompletion.
pub mod auto;
pub mod date;
pub mod fields;
pub mod filter;
pub mod list;
pub mod recur;
pub mod registry;
pub mod state;
pub mod tasks;
pub mod text;
pub mod toggle;
