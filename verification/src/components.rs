//! Plain state carried by interface components.

use vstd::prelude::*;

verus! {

/// A status line shown to the operator: an error message, or nothing.
#[derive(Debug, Clone, PartialEq, Eq)]
pub enum Status {
    Error(String),
    Clear,
}

/// One entry of a tab bar: its label, whether it is selected, and the message
/// selecting it emits.
#[derive(Debug, Clone)]
pub struct Tab<M> {
    display: String,
    selected: bool,
    on_select: Option<M>,
}

impl<M> Tab<M> {
    pub closed spec fn spec_display(&self) -> Seq<char> {
        self.display@
    }

    pub closed spec fn spec_selected(&self) -> bool {
        self.selected
    }

    pub closed spec fn spec_on_select(&self) -> Option<M> {
        self.on_select
    }

    pub fn new(display: String) -> (r: Self)
        ensures
            r.spec_display() == display@,
            !r.spec_selected(),
            r.spec_on_select() is None,
    {
        Tab { display, selected: false, on_select: None }
    }

    pub fn on_select(self, m: M) -> (r: Self)
        ensures
            r.spec_display() == self.spec_display(),
            r.spec_selected() == self.spec_selected(),
            r.spec_on_select() == Some(m),
    {
        Tab { on_select: Some(m), ..self }
    }

    pub fn selected(self, selected: bool) -> (r: Self)
        ensures
            r.spec_display() == self.spec_display(),
            r.spec_selected() == selected,
            r.spec_on_select() == self.spec_on_select(),
    {
        Tab { selected, ..self }
    }
}

} // verus!
