//! Which view the editor shows, which window is open, and what the core is asked to do.
use vstd::prelude::*;

verus! {

/// The editor's view of a profile.
#[derive(Debug, Clone, Copy, PartialEq, Eq, Structural)]
pub enum ViewKind {
    All,
    Options,
    Text,
}

impl Default for ViewKind {
    fn default() -> (r: Self)
        ensures
            r == ViewKind::Options,
    {
        ViewKind::Options
    }
}

impl ViewKind {
    /// Switches between the options view and the text view; `All` stays as it is.
    pub fn toogle(&mut self)
        ensures
            *old(self) == ViewKind::Options ==> *final(self) == ViewKind::Text,
            *old(self) == ViewKind::Text ==> *final(self) == ViewKind::Options,
            *old(self) == ViewKind::All ==> *final(self) == ViewKind::All,
    {
        match self {
            ViewKind::Options => *self = ViewKind::Text,
            ViewKind::Text => *self = ViewKind::Options,
            ViewKind::All => {},
        }
    }

    pub fn is_options(&self) -> (r: bool)
        ensures
            r == (*self == ViewKind::Options),
    {
        *self == ViewKind::Options
    }

    pub fn is_text(&self) -> (r: bool)
        ensures
            r == (*self == ViewKind::Text),
    {
        *self == ViewKind::Text
    }
}

/// The form window that is open over the editor.
#[derive(Debug, Clone, Copy, PartialEq, Eq, Structural)]
pub enum OpenedWindow {
    NewItem,
    AddHosts,
    EditHost,
}

/// What the core is asked to do in the background.
#[derive(Debug, Clone, Copy, PartialEq, Eq, Structural)]
pub enum InvokeEvent {
    Parse,
}

} // verus!
