//! Catalog behavior: upserts, dedup, removal, visibility and tag counts.

use backer::datetime::DateTime;
use backer::db;
use backer::model::FileInfo;

fn dt(
    year: u16,
    month: u8,
    day: u8,
    hour: u8,
    minute: u8,
    second: u8,
) -> DateTime {
    DateTime::new(year, month, day, hour, minute, second).unwrap()
}

#[test]
fn upsert_changed_hash_at_location() {
    // arrange

    let marker: &str = "foo-marker";
    let path: &str = "foo-dir/file.jpeg";
    let hash_a = "fake-hash-a".to_string();
    let hash_b = "fake-hash-b".to_string();
    let date_2 = dt(2022, 1, 22, 16, 53, 14);

    let mut conn = db::init();
    db::upsert(
        &mut conn,
        marker,
        path,
        &FileInfo {
            hash: hash_a.clone(),
            date: None,
            thumb: vec![b'A'],
        },
    );
    assert_eq!(db::location_exists(&conn, marker, path), true);
    assert_eq!(
        db::all_files(&conn),
        vec![FileInfo {
            hash: hash_a.clone(),
            date: None,
            thumb: vec![b'A']
        }]
    );

    // act

    db::upsert(
        &mut conn,
        marker,
        path,
        &FileInfo {
            hash: hash_b.clone(),
            date: Some(date_2),
            thumb: vec![b'B'],
        },
    );

    // assert

    assert_eq!(db::location_exists(&conn, marker, path), true);
    assert_eq!(
        db::all_files(&conn),
        vec![
            FileInfo {
                hash: hash_a,
                date: None,
                thumb: vec![b'A']
            },
            FileInfo {
                hash: hash_b,
                date: Some(date_2),
                thumb: vec![b'B']
            },
        ]
    );
}

#[test]
fn upsert_changed_metadata_at_hash() {
    // arrange

    let marker: &str = "foo-marker";
    let path: &str = "foo-dir/file.jpeg";
    let hash = "fake-hash".to_string();
    let date_2 = dt(2022, 1, 22, 16, 53, 14);

    let mut conn = db::init();
    db::upsert(
        &mut conn,
        marker,
        path,
        &FileInfo {
            hash: hash.clone(),
            date: None,
            thumb: vec![b'A'],
        },
    );
    assert_eq!(db::location_exists(&conn, marker, path), true);
    assert_eq!(
        db::all_files(&conn),
        vec![FileInfo {
            hash: hash.clone(),
            date: None,
            thumb: vec![b'A']
        }]
    );

    // act

    db::upsert(
        &mut conn,
        marker,
        path,
        &FileInfo {
            hash: hash.clone(),
            date: Some(date_2),
            thumb: vec![b'B'],
        },
    );

    // assert

    assert_eq!(db::location_exists(&conn, marker, path), true);
    assert_eq!(
        db::all_files(&conn),
        vec![FileInfo {
            hash,
            date: Some(date_2),
            thumb: vec![b'B']
        }]
    );
}

#[test]
fn date_fill_gap_sequence() {
    let marker = "m";
    let path = "a/b.jpg";
    let hash = "h".to_string();
    let d = dt(2020, 6, 1, 10, 0, 0);
    let d2 = dt(2021, 7, 2, 11, 30, 5);

    let mut conn = db::init();
    // Born without a date.
    db::upsert(&mut conn, marker, path, &FileInfo { hash: hash.clone(), date: None, thumb: vec![1] });
    assert_eq!(db::all_files(&conn)[0].date, None);
    // The first known date fills the gap; the thumbnail follows.
    db::upsert(&mut conn, marker, path, &FileInfo { hash: hash.clone(), date: Some(d), thumb: vec![2] });
    assert_eq!(db::all_files(&conn), vec![FileInfo { hash: hash.clone(), date: Some(d), thumb: vec![2] }]);
    // A different known date replaces it.
    db::upsert(&mut conn, marker, path, &FileInfo { hash: hash.clone(), date: Some(d2), thumb: vec![3] });
    assert_eq!(db::all_files(&conn), vec![FileInfo { hash: hash.clone(), date: Some(d2), thumb: vec![3] }]);
    // A null date never erases a known one; the thumbnail still follows.
    db::upsert(&mut conn, marker, path, &FileInfo { hash: hash.clone(), date: None, thumb: vec![4] });
    assert_eq!(db::all_files(&conn), vec![FileInfo { hash, date: Some(d2), thumb: vec![4] }]);
}

#[test]
fn dedup_two_paths_one_record() {
    let marker = "m";
    let hash = "same-content".to_string();
    let mut conn = db::init();
    db::upsert(&mut conn, marker, "one.jpg", &FileInfo { hash: hash.clone(), date: None, thumb: vec![9] });
    db::upsert(&mut conn, marker, "two/copy.jpg", &FileInfo { hash: hash.clone(), date: None, thumb: vec![9] });

    assert_eq!(db::all_files(&conn).len(), 1);
    assert!(db::location_exists(&conn, marker, "one.jpg"));
    assert!(db::location_exists(&conn, marker, "two/copy.jpg"));
    let items = db::hashes(&conn, marker);
    assert_eq!(
        items,
        vec![
            ("one.jpg".to_string(), hash.clone()),
            ("two/copy.jpg".to_string(), hash.clone()),
        ]
    );
}

#[test]
fn remove_keeps_file_record() {
    let marker = "m";
    let hash = "h1".to_string();
    let mut conn = db::init();
    db::upsert(&mut conn, marker, "a.jpg", &FileInfo { hash: hash.clone(), date: None, thumb: vec![] });
    db::upsert(&mut conn, marker, "b.jpg", &FileInfo { hash: hash.clone(), date: None, thumb: vec![] });
    db::remove(&mut conn, marker, "a.jpg");
    assert!(!db::location_exists(&conn, marker, "a.jpg"));
    assert!(db::location_exists(&conn, marker, "b.jpg"));
    assert_eq!(db::all_files(&conn).len(), 1);
    // Removing an unknown location is a quiet no-op.
    db::remove(&mut conn, marker, "a.jpg");
    assert_eq!(db::hashes(&conn, marker).len(), 1);
}

#[test]
fn visible_files_sorted_null_dates_first() {
    let marker = "m";
    let mut conn = db::init();
    // Row 1: a late date; row 2: no date; row 3: an early date.
    db::upsert(&mut conn, marker, "late.jpg", &FileInfo { hash: "hl".to_string(), date: Some(dt(2022, 5, 5, 0, 0, 0)), thumb: vec![] });
    db::upsert(&mut conn, marker, "none.jpg", &FileInfo { hash: "hn".to_string(), date: None, thumb: vec![] });
    db::upsert(&mut conn, marker, "early.jpg", &FileInfo { hash: "he".to_string(), date: Some(dt(2020, 1, 1, 0, 0, 0)), thumb: vec![] });

    let all = db::visible_files_rowids(&conn, db::OffsetAndLimit::new(0, -1));
    assert_eq!(all, vec![2, 3, 1]);

    // Paging: a window in the middle, and a limit past the end.
    assert_eq!(db::visible_files_rowids(&conn, db::OffsetAndLimit::new(1, 1)), vec![3]);
    assert_eq!(db::visible_files_rowids(&conn, db::OffsetAndLimit::new(2, 10)), vec![1]);
    assert_eq!(db::visible_files_rowids(&conn, db::OffsetAndLimit::new(5, 2)), Vec::<i64>::new());
}

#[test]
fn hidden_tag_excludes_from_visible() {
    let marker = "m";
    let mut conn = db::init();
    db::upsert(&mut conn, marker, "a.jpg", &FileInfo { hash: "ha".to_string(), date: None, thumb: vec![] });
    db::upsert(&mut conn, marker, "b.jpg", &FileInfo { hash: "hb".to_string(), date: None, thumb: vec![] });
    // The catalog is seeded with the well-known hidden tag at row 1.
    db::tag_file(&mut conn, 2, 1);
    let visible = db::visible_files_rowids(&conn, db::OffsetAndLimit::new(0, -1));
    assert_eq!(visible, vec![1]);

    // An ordinary (not hidden) tag does not exclude.
    db::add_tag(&mut conn, "holiday", false);
    db::tag_file(&mut conn, 1, 2);
    let visible = db::visible_files_rowids(&conn, db::OffsetAndLimit::new(0, -1));
    assert_eq!(visible, vec![1]);
}

#[test]
fn tag_counts_over_selection() {
    let marker = "m";
    let mut conn = db::init();
    db::upsert(&mut conn, marker, "a.jpg", &FileInfo { hash: "ha".to_string(), date: None, thumb: vec![] });
    db::upsert(&mut conn, marker, "b.jpg", &FileInfo { hash: "hb".to_string(), date: None, thumb: vec![] });
    db::add_tag(&mut conn, "holiday", false);
    db::tag_file(&mut conn, 1, 2);
    db::tag_file(&mut conn, 2, 2);
    db::tag_file(&mut conn, 1, 1);

    let counts = db::tags_for_file_ids(&conn, &vec![1, 2]);
    assert_eq!(
        counts,
        vec![
            ("hidden".to_string(), true, 1),
            ("holiday".to_string(), false, 2),
        ]
    );

    // Duplicate tagging stays unique; out-of-range identifiers are no-ops.
    db::tag_file(&mut conn, 1, 2);
    db::tag_file(&mut conn, 99, 1);
    db::tag_file(&mut conn, 0, 1);
    let counts = db::tags_for_file_ids(&conn, &vec![1]);
    assert_eq!(
        counts,
        vec![
            ("hidden".to_string(), true, 1),
            ("holiday".to_string(), false, 1),
        ]
    );
}

#[test]
fn add_tag_is_idempotent_on_name() {
    let mut conn = db::init();
    db::add_tag(&mut conn, "hidden", false);
    let counts = db::tags_for_file_ids(&conn, &vec![]);
    // Still the one seeded hidden tag, its flag untouched.
    assert_eq!(counts, vec![("hidden".to_string(), true, 0)]);
}

#[test]
fn visible_files_rows_carry_records() {
    let marker = "m";
    let mut conn = db::init();
    db::upsert(&mut conn, marker, "a.jpg", &FileInfo { hash: "ha".to_string(), date: None, thumb: vec![7, 8] });
    let rows = db::visible_files_in_limit_and_offset(&conn, -1, 0);
    assert_eq!(rows.len(), 1);
    assert_eq!(rows[0].0, 1);
    assert_eq!(rows[0].1, FileInfo { hash: "ha".to_string(), date: None, thumb: vec![7, 8] });
    assert_eq!(db::n_files(&conn), 1);
}
