//! The viewer's messages, and the catalog queries behind its panels.
//! Drawing and event plumbing belong to the host toolkit; what the widgets
//! show is computed here.

use vstd::prelude::*;

use crate::db::{tag_count, tags_for_file_ids, Catalog};
use crate::widgets::gallery::Selection;
use crate::widgets::tag::Tag;
use crate::widgets::tags::Panel;

verus! {

/// What the viewer reacts to.
#[derive(Debug, Clone)]
pub enum Message {
    OfTags(crate::widgets::tags::Event),
    GallerySelection(Selection),
}

/// The tri-state of one tag over a selection: selected on none of the rows,
/// on all of them, or on some.
pub open spec fn spec_tri_state(count: nat, total: nat) -> Option<bool> {
    if count == 0 {
        Some(false)
    } else if count == total {
        Some(true)
    } else {
        None
    }
}

/// The tag panel for a gallery selection: one row per tag, its selection
/// state the tri-state of how many of the selected files carry it.
pub fn load_tags_for_selection(db: &Catalog, selection: &Selection) -> (r: Panel)
    requires
        db@.wf(),
    ensures
        r@.len() == db@.tags.len(),
        forall|t: int|
            0 <= t < r@.len() ==> (#[trigger] r@[t]).name == db@.tags[t].name && r@[t].hidden
                == db@.tags[t].hidden && r@[t].selected == spec_tri_state(
                tag_count(db@, selection.rowids@, t),
                selection.rowids@.len(),
            ),
{
    let counts = tags_for_file_ids(db, &selection.rowids);
    let limit = selection.rowids.len();
    let mut tags: Vec<Tag> = Vec::new();
    let mut t: usize = 0;
    while t < counts.len()
        invariant
            db@.wf(),
            t <= counts@.len(),
            limit == selection.rowids@.len(),
            counts@.len() == db@.tags.len(),
            forall|u: int|
                0 <= u < counts@.len() ==> (#[trigger] counts@[u]).0@ == db@.tags[u].name
                    && counts@[u].1 == db@.tags[u].hidden && counts@[u].2 as nat == tag_count(
                    db@,
                    selection.rowids@,
                    u,
                ),
            tags@.len() == t,
            forall|u: int|
                0 <= u < t ==> (#[trigger] tags@[u])@.name == db@.tags[u].name && tags@[u]@.hidden
                    == db@.tags[u].hidden && tags@[u]@.selected == spec_tri_state(
                    tag_count(db@, selection.rowids@, u),
                    selection.rowids@.len(),
                ),
        decreases counts@.len() - t,
    {
        let count = counts[t].2;
        let selected = if count == 0 {
            Some(false)
        } else if count == limit {
            Some(true)
        } else {
            None
        };
        let name = counts[t].0.clone();
        let hidden = counts[t].1;
        tags.push(Tag::new(name, selected, hidden));
        t = t + 1;
    }
    let r = Panel::from_tags(tags);
    proof {
        assert(r@.len() == db@.tags.len());
        assert(forall|u: int|
            0 <= u < r@.len() ==> r@[u] == (#[trigger] tags@[u])@);
    }
    r
}

} // verus!
