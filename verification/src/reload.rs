//! The client's side of the version stream: what a page does with the
//! versions that the server reports.

use crate::text::same_text;
use vstd::prelude::*;

verus! {

/// What the page does on a version event.
#[derive(Clone, Copy, Debug, PartialEq, Eq, Structural)]
pub enum ReloadAction {
    /// The first version seen: it is remembered.
    Remember,
    /// The version that is remembered: nothing changes.
    Keep,
    /// Another version than the one remembered: the page is loaded again.
    Reload,
}

/// What the page does when the server reports `backend` and the page
/// remembers `current`.
pub open spec fn action_on(current: Option<Seq<char>>, backend: Seq<char>) -> ReloadAction {
    match current {
        None => ReloadAction::Remember,
        Some(v) => if v == backend {
            ReloadAction::Keep
        } else {
            ReloadAction::Reload
        },
    }
}

/// The version that a page remembers, once it has seen one.
#[derive(Clone, Debug, PartialEq, Eq)]
pub struct ReloadState {
    pub version: Option<String>,
}

impl View for ReloadState {
    type V = Option<Seq<char>>;

    open spec fn view(&self) -> Option<Seq<char>> {
        match self.version {
            Some(v) => Some(v@),
            None => None,
        }
    }
}

impl ReloadState {
    /// The state of a page that has seen no version yet.
    pub fn new() -> (s: ReloadState)
        ensures
            s@ is None,
    {
        ReloadState { version: None }
    }

    /// Takes the version `backend` that the server reports. The first
    /// version is remembered; after that the state never changes.
    pub fn observe(&mut self, backend: String) -> (action: ReloadAction)
        ensures
            action == action_on(old(self)@, backend@),
            final(self)@ == match old(self)@ {
                None => Some(backend@),
                Some(v) => Some(v),
            },
    {
        match &self.version {
            None => {
                self.version = Some(backend);
                ReloadAction::Remember
            },
            Some(v) => {
                if same_text(v.as_str(), backend.as_str()) {
                    ReloadAction::Keep
                } else {
                    ReloadAction::Reload
                }
            },
        }
    }
}

} // verus!
