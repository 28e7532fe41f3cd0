//! The tag panel: a list of tag rows, addressed by position.

use vstd::prelude::*;

use crate::widgets::tag::{spec_tag_update, Tag, TagView};

verus! {

/// What the panel can be asked to do: forward an event to its n-th row.
#[derive(Debug, Clone)]
pub enum Event {
    OfNthTag(usize, crate::widgets::tag::Event),
}

/// The panel's state: its tag rows, in display order.
#[derive(Debug)]
pub struct Panel {
    tags: Vec<Tag>,
}

pub open spec fn tags_view(v: Seq<Tag>) -> Seq<TagView> {
    v.map_values(|t: Tag| t@)
}

impl View for Panel {
    type V = Seq<TagView>;

    closed spec fn view(&self) -> Seq<TagView> {
        tags_view(self.tags@)
    }
}

/// What one panel event does: the n-th row takes the event; an event
/// addressed past the rows does nothing.
pub open spec fn spec_panel_update(tags: Seq<TagView>, event: Event) -> Seq<TagView> {
    match event {
        Event::OfNthTag(i, tag_event) => {
            if i < tags.len() {
                tags.update(i as int, spec_tag_update(tags[i as int], tag_event))
            } else {
                tags
            }
        },
    }
}

impl Panel {
    /// A panel of the given rows.
    pub fn new(tags: &[Tag]) -> (r: Self)
        ensures
            r@ == tags@.map_values(|t: Tag| t@),
    {
        let mut owned: Vec<Tag> = Vec::new();
        let n = tags.len();
        let mut i: usize = 0;
        while i < n
            invariant
                n == tags@.len(),
                i <= n,
                owned@.len() == i,
                forall|j: int| 0 <= j < i ==> (#[trigger] owned@[j])@ == tags@[j]@,
            decreases n - i,
        {
            let t = vstd::slice::slice_index_get(tags, i);
            owned.push(t.duplicate());
            i = i + 1;
        }
        let r = Self { tags: owned };
        proof {
            assert(r@ =~= tags@.map_values(|t: Tag| t@));
        }
        r
    }

    /// A panel owning the given rows.
    pub fn from_tags(tags: Vec<Tag>) -> (r: Self)
        ensures
            r@ == tags_view(tags@),
    {
        Self { tags }
    }

    /// The i-th row.
    pub fn get(&self, i: usize) -> (r: &Tag)
        requires
            i < self@.len(),
        ensures
            r@ == self@[i as int],
    {
        proof {
            assert(self@[i as int] == self.tags@[i as int]@);
        }
        &self.tags[i]
    }

    /// Applies one event, as `spec_panel_update` says.
    pub fn update(&mut self, event: Event)
        ensures
            final(self)@ == spec_panel_update(old(self)@, event),
    {
        match event {
            Event::OfNthTag(i, tag_event) => {
                if i < self.tags.len() {
                    proof {
                        assert(old(self)@[i as int] == old(self).tags@[i as int]@);
                    }
                    let tag = &mut self.tags[i];
                    tag.update(tag_event);
                    proof {
                        assert(self@ =~= spec_panel_update(old(self)@, event));
                    }
                }
            },
        }
    }
}

} // verus!
