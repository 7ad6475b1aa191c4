//! The modes the surrounding editor moves through. Pure data: the event
//! loop that drives them lives outside the core.
use vstd::prelude::*;

verus! {

/// Which view is active.
#[derive(Debug)]
pub enum AppState {
    Edit(InputState),
    List,
    SavedSearches,
    SearchInput,
    Report,
    Help,
    Goto(String),
}

/// Whether the application keeps running.
#[derive(Debug, PartialEq, Eq, Structural)]
pub enum LiveState {
    Running,
    Done,
}

/// What an open editor input is for.
#[derive(Debug, PartialEq, Eq, Structural, Clone, Copy)]
pub enum InputState {
    Edit,
    NewTask,
    CopyTask,
}

} // verus!
