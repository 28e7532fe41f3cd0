//! Widget state: the tag panel, tag rows, selections, and the tri-state
//! panel computed from the catalog.

use backer::db;
use backer::interlude::error_chain;
use backer::gui::load_tags_for_selection;
use backer::model::FileInfo;
use backer::widgets::gallery::Selection;
use backer::widgets::tag::{self, Tag};
use backer::widgets::tags::{Event, Panel};

#[test]
fn tag_update_sets_one_field() {
    let mut t = Tag::new("holiday".to_string(), None, false);
    t.update(tag::Event::SetSelected(true));
    assert_eq!(t.selected, Some(true));
    assert_eq!(t.hidden, false);
    t.update(tag::Event::SetHidden(true));
    assert_eq!(t.hidden, true);
    assert_eq!(t.selected, Some(true));
    assert_eq!(t.name, "holiday");
}

#[test]
fn panel_update_addresses_nth_tag() {
    let rows = vec![
        Tag::new("one".to_string(), None, false),
        Tag::new("two".to_string(), Some(false), false),
    ];
    let mut panel = Panel::new(&rows);
    panel.update(Event::OfNthTag(1, tag::Event::SetSelected(true)));
    assert_eq!(panel.get(1).selected, Some(true));
    assert_eq!(panel.get(0).selected, None);
    // An event past the rows does nothing.
    panel.update(Event::OfNthTag(9, tag::Event::SetHidden(true)));
    assert_eq!(panel.get(0).hidden, false);
    assert_eq!(panel.get(1).hidden, false);
}

#[test]
fn selection_single_and_default() {
    let s = Selection::single(7);
    assert_eq!(s.rowids, vec![7]);
    let d: Selection = Default::default();
    assert!(d.rowids.is_empty());
}

#[test]
fn tri_state_panel_over_selection() {
    let mut conn = db::init();
    db::upsert(&mut conn, "m", "a.jpg", &FileInfo { hash: "ha".to_string(), date: None, thumb: vec![] });
    db::upsert(&mut conn, "m", "b.jpg", &FileInfo { hash: "hb".to_string(), date: None, thumb: vec![] });
    db::add_tag(&mut conn, "holiday", false);
    db::add_tag(&mut conn, "family", false);
    // "hidden" is tag row 1; "holiday" row 2; "family" row 3.
    db::tag_file(&mut conn, 1, 2);
    db::tag_file(&mut conn, 2, 2);
    db::tag_file(&mut conn, 1, 3);

    let selection = Selection { rowids: vec![1, 2] };
    let panel = load_tags_for_selection(&conn, &selection);
    // hidden: carried by none of the two; holiday: by both; family: by one.
    assert_eq!(panel.get(0).name, "hidden");
    assert_eq!(panel.get(0).selected, Some(false));
    assert_eq!(panel.get(1).name, "holiday");
    assert_eq!(panel.get(1).selected, Some(true));
    assert_eq!(panel.get(2).name, "family");
    assert_eq!(panel.get(2).selected, None);

    // The empty selection counts every tag as absent.
    let none = load_tags_for_selection(&conn, &Selection { rowids: vec![] });
    assert_eq!(none.get(2).selected, Some(false));
}

#[test]
fn error_chain_joins_causes() {
    assert_eq!(error_chain(&vec![]), "");
    assert_eq!(error_chain(&vec!["only".to_string()]), "only");
    assert_eq!(
        error_chain(&vec!["a".to_string(), "b".to_string(), "c".to_string()]),
        "a: b: c"
    );
}
