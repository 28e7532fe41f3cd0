//! One tag row of the panel: its name, its tri-state selection (selected on
//! all, none, or some of the chosen files), and its hidden flag.

use vstd::prelude::*;

verus! {

/// What a tag row can be asked to do.
#[derive(Debug, Clone)]
pub enum Event {
    SetSelected(bool),
    SetHidden(bool),
}

/// A tag row's state.
#[derive(Debug)]
pub struct Tag {
    pub name: String,
    pub selected: Option<bool>,
    pub hidden: bool,
}

/// A tag row as plain values.
pub struct TagView {
    pub name: Seq<char>,
    pub selected: Option<bool>,
    pub hidden: bool,
}

impl View for Tag {
    type V = TagView;

    open spec fn view(&self) -> TagView {
        TagView { name: self.name@, selected: self.selected, hidden: self.hidden }
    }
}

/// What one event does to a tag row: it sets the named field and leaves the
/// rest alone.
pub open spec fn spec_tag_update(t: TagView, event: Event) -> TagView {
    match event {
        Event::SetSelected(b) => TagView { name: t.name, selected: Some(b), hidden: t.hidden },
        Event::SetHidden(b) => TagView { name: t.name, selected: t.selected, hidden: b },
    }
}

impl Tag {
    pub fn new(name: String, selected: Option<bool>, hidden: bool) -> (r: Self)
        ensures
            r@.name == name@,
            r@.selected == selected,
            r@.hidden == hidden,
    {
        Self { name, selected, hidden }
    }

    /// Applies one event, as `spec_tag_update` says.
    pub fn update(&mut self, event: Event)
        ensures
            final(self)@ == spec_tag_update(old(self)@, event),
    {
        match event {
            Event::SetSelected(selected) => {
                self.selected = Some(selected);
            },
            Event::SetHidden(hidden) => {
                self.hidden = hidden;
            },
        }
    }

    /// A fresh row with the same state.
    pub fn duplicate(&self) -> (r: Tag)
        ensures
            r@ == self@,
    {
        Tag { name: self.name.clone(), selected: self.selected, hidden: self.hidden }
    }
}

} // verus!
