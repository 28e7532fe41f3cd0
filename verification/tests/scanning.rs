//! The scan engine end to end: hashing, date resolution, the two stages,
//! and the coordinator, on in-memory trees.

use backer::config::DatePath;
use backer::datetime::{parse_datetime, DateTime};
use backer::db;
use backer::imaging::{ExifDateTime, ExifFields};
use backer::model::FileInfo;
use backer::pathwalk::{EntryKind, WalkEvent};
use backer::scanning::{
    hash, ingest_file, process_tree, scan, stage1, stage2, try_deduce_date, FsEntry, IngestOutcome,
    MarkerRead, OnExisting, ProcessOutcome, ReadResult, Tree, TreeError, TreeFailure, TreeInput,
};

fn dt(year: u16, month: u8, day: u8, hour: u8, minute: u8, second: u8) -> DateTime {
    DateTime::new(year, month, day, hour, minute, second).unwrap()
}

// --- a tiny PNG built by hand, optionally carrying an EXIF block ---

fn crc32(data: &[u8]) -> u32 {
    let mut crc: u32 = 0xFFFF_FFFF;
    for &b in data {
        crc ^= b as u32;
        for _ in 0..8 {
            if crc & 1 != 0 {
                crc = (crc >> 1) ^ 0xEDB8_8320;
            } else {
                crc >>= 1;
            }
        }
    }
    !crc
}

fn adler32(data: &[u8]) -> u32 {
    let mut a: u32 = 1;
    let mut b: u32 = 0;
    for &x in data {
        a = (a + x as u32) % 65521;
        b = (b + a) % 65521;
    }
    (b << 16) | a
}

fn png_chunk(ty: &[u8; 4], data: &[u8]) -> Vec<u8> {
    let mut out = Vec::new();
    out.extend_from_slice(&(data.len() as u32).to_be_bytes());
    out.extend_from_slice(ty);
    out.extend_from_slice(data);
    let mut crc_input = ty.to_vec();
    crc_input.extend_from_slice(data);
    out.extend_from_slice(&crc32(&crc_input).to_be_bytes());
    out
}

/// A 1x1 grey PNG; with `exif`, an eXIf chunk holding that TIFF block.
fn tiny_png(exif: Option<&[u8]>) -> Vec<u8> {
    let mut png = vec![0x89, b'P', b'N', b'G', 0x0d, 0x0a, 0x1a, 0x0a];
    let ihdr = [0, 0, 0, 1, 0, 0, 0, 1, 8, 0, 0, 0, 0];
    png.extend_from_slice(&png_chunk(b"IHDR", &ihdr));
    if let Some(tiff) = exif {
        png.extend_from_slice(&png_chunk(b"eXIf", tiff));
    }
    // One scanline: filter byte 0, one grey pixel; deflate "stored" block.
    let raw = [0u8, 128u8];
    let mut idat = vec![0x78, 0x01, 0x01, 2, 0, 0xfd, 0xff];
    idat.extend_from_slice(&raw);
    idat.extend_from_slice(&adler32(&raw).to_be_bytes());
    png.extend_from_slice(&png_chunk(b"IDAT", &idat));
    png.extend_from_slice(&png_chunk(b"IEND", &[]));
    png
}

/// A little-endian TIFF block whose one IFD entry is the DateTime tag with
/// the ASCII value `2021:03:04 05:06:07`.
fn exif_with_datetime() -> Vec<u8> {
    let mut t = vec![b'I', b'I', 42, 0, 8, 0, 0, 0];
    // IFD at offset 8: one entry, then a zero next-IFD offset.
    t.extend_from_slice(&1u16.to_le_bytes());
    t.extend_from_slice(&0x0132u16.to_le_bytes()); // DateTime
    t.extend_from_slice(&2u16.to_le_bytes()); // ASCII
    t.extend_from_slice(&20u32.to_le_bytes());
    t.extend_from_slice(&26u32.to_le_bytes()); // value offset
    t.extend_from_slice(&0u32.to_le_bytes());
    t.extend_from_slice(b"2021:03:04 05:06:07\0");
    t
}

fn data_entry(path: &str, data: Vec<u8>) -> FsEntry {
    FsEntry { path: path.to_string(), read: ReadResult::Data(data) }
}

fn plain_tree(marker: &str) -> Tree {
    Tree::open(
        "root/marker.json",
        MarkerRead::Found { root: "root".to_string(), id: marker.to_string() },
        &vec![],
    )
    .unwrap()
}

// --- content hashing ---

#[test]
fn sha1_hex_of_empty_input() {
    assert_eq!(hash(&[]), "da39a3ee5e6b4b0d3255bfef95601890afd80709");
    assert_eq!(hash(b"abc"), "a9993e364706816aba3e25717850c26c9cd0d89d");
}

// --- date parsing and resolution ---

#[test]
fn parse_datetime_layouts() {
    assert_eq!(parse_datetime("2022-01-22 16:53:14"), Some(dt(2022, 1, 22, 16, 53, 14)));
    assert_eq!(parse_datetime("2022-01-22"), Some(dt(2022, 1, 22, 0, 0, 0)));
    assert_eq!(parse_datetime("2020-02-29"), Some(dt(2020, 2, 29, 0, 0, 0)));
    assert_eq!(parse_datetime("2021-02-29"), None);
    assert_eq!(parse_datetime("2022-13-01"), None);
    assert_eq!(parse_datetime("2022-01-22 24:00:00"), None);
    assert_eq!(parse_datetime("2022-1-22"), None);
    assert_eq!(parse_datetime("not a date"), None);
    assert_eq!(parse_datetime(""), None);
}

#[test]
fn exif_beats_path_rules() {
    // A valid primary EXIF time, and a rule that would also match.
    let fields = ExifFields {
        datetime: Some(ExifDateTime { year: 2019, month: 8, day: 7, hour: 6, minute: 5, second: 4 }),
        datetime_original: None,
    };
    let rules = vec![DatePath {
        date: "$1-$2-$3".to_string(),
        path: r"(\d{4})-(\d{2})-(\d{2})".to_string(),
    }];
    let got = try_deduce_date(Some(&fields), "2001-02-03/pic.jpg", &rules);
    assert_eq!(got, Some(dt(2019, 8, 7, 6, 5, 4)));
}

#[test]
fn exif_falls_back_to_original_tag() {
    // An invalid primary field (month 13) but a valid original field.
    let fields = ExifFields {
        datetime: Some(ExifDateTime { year: 2019, month: 13, day: 7, hour: 6, minute: 5, second: 4 }),
        datetime_original: Some(ExifDateTime {
            year: 2018,
            month: 2,
            day: 3,
            hour: 4,
            minute: 5,
            second: 6,
        }),
    };
    let got = try_deduce_date(Some(&fields), "pic.jpg", &vec![]);
    assert_eq!(got, Some(dt(2018, 2, 3, 4, 5, 6)));
}

#[test]
fn path_rule_fallback_order() {
    // The first rule matches but expands to an unparsable string; the
    // second rule matches and parses.
    let rules = vec![
        DatePath { date: "month $1".to_string(), path: r"(\d{4})".to_string() },
        DatePath { date: "$1-$2-$3".to_string(), path: r"(\d{4})-(\d{2})-(\d{2})".to_string() },
    ];
    let got = try_deduce_date(None, "2001-02-03/pic.jpg", &rules);
    assert_eq!(got, Some(dt(2001, 2, 3, 0, 0, 0)));
}

#[test]
fn no_date_resolves_to_none() {
    let rules = vec![DatePath { date: "$1".to_string(), path: r"IMG_(\d+)".to_string() }];
    assert_eq!(try_deduce_date(None, "misc/pic.jpg", &rules), None);
}

// --- stage 1 ---

#[test]
fn ingest_catalogues_png_with_exif_date() {
    let mut conn = db::init();
    let tree = plain_tree("m");
    let exif = exif_with_datetime();
    let png = tiny_png(Some(&exif));
    let expected_hash = hash(&png);

    let entries = vec![data_entry("album/pic.jpeg", png)];
    let n = stage1(&mut conn, &tree, &entries, OnExisting::Skip);
    assert_eq!(n, 1);
    assert!(db::location_exists(&conn, "m", "album/pic.jpeg"));

    let files = db::all_files(&conn);
    assert_eq!(files.len(), 1);
    assert_eq!(files[0].hash, expected_hash);
    // The date came out of the EXIF block.
    assert_eq!(files[0].date, Some(dt(2021, 3, 4, 5, 6, 7)));
    // The stored thumbnail is a fresh JPEG, not the PNG input.
    assert_eq!(&files[0].thumb[0..2], &[0xff, 0xd8]);
}

#[test]
fn ingest_without_exif_uses_path_rules() {
    let mut conn = db::init();
    let tree = Tree::open(
        "root/marker.json",
        MarkerRead::Found { root: "root".to_string(), id: "m".to_string() },
        &vec![(
            "m".to_string(),
            vec![DatePath {
                date: "$1-$2-$3".to_string(),
                path: r"(\d{4})-(\d{2})-(\d{2})".to_string(),
            }],
        )],
    )
    .unwrap();
    let png = tiny_png(None);
    let entries = vec![data_entry("2004-05-06/pic.jpeg", png)];
    stage1(&mut conn, &tree, &entries, OnExisting::Skip);
    let files = db::all_files(&conn);
    assert_eq!(files[0].date, Some(dt(2004, 5, 6, 0, 0, 0)));
}

#[test]
fn undecodable_file_is_skipped_not_catalogued() {
    let mut conn = db::init();
    let tree = plain_tree("m");
    let entries = vec![
        data_entry("empty.jpeg", vec![]),
        data_entry("junk.jpeg", vec![1, 2, 3, 4]),
    ];
    let n = stage1(&mut conn, &tree, &entries, OnExisting::Skip);
    assert_eq!(n, 0);
    assert_eq!(db::n_files(&conn), 0);
    assert!(!db::location_exists(&conn, "m", "empty.jpeg"));
}

#[test]
fn read_failures_skip_the_file_alone() {
    let mut conn = db::init();
    let tree = plain_tree("m");
    let entries = vec![
        FsEntry { path: "gone.jpeg".to_string(), read: ReadResult::NotFound },
        FsEntry { path: "locked.jpeg".to_string(), read: ReadResult::Error("denied".to_string()) },
        data_entry("ok.jpeg", tiny_png(None)),
    ];
    let n = stage1(&mut conn, &tree, &entries, OnExisting::Skip);
    assert_eq!(n, 1);
    assert!(db::location_exists(&conn, "m", "ok.jpeg"));
    assert_eq!(db::n_files(&conn), 1);
}

#[test]
fn stage1_skip_mode_is_idempotent() {
    let mut conn = db::init();
    let tree = plain_tree("m");
    let entries = vec![
        data_entry("a/one.jpeg", tiny_png(None)),
        data_entry("b/two.jpeg", tiny_png(Some(&exif_with_datetime()))),
        data_entry("broken.jpeg", vec![0, 1]),
    ];
    stage1(&mut conn, &tree, &entries, OnExisting::Skip);
    let first_files = db::all_files(&conn);
    let first_items = db::hashes(&conn, "m");

    // The second pass over the unchanged tree ingests nothing and mutates
    // nothing.
    let n = stage1(&mut conn, &tree, &entries, OnExisting::Skip);
    assert_eq!(n, 0);
    assert_eq!(db::all_files(&conn), first_files);
    assert_eq!(db::hashes(&conn, "m"), first_items);
}

#[test]
fn ingest_skip_and_refresh_modes() {
    let mut conn = db::init();
    let png = tiny_png(None);
    let rules: Vec<DatePath> = vec![];
    let r = ingest_file(&mut conn, "m", "p.jpeg", &png, &rules, OnExisting::Skip);
    assert_eq!(r, IngestOutcome::Ingested);
    let r = ingest_file(&mut conn, "m", "p.jpeg", &png, &rules, OnExisting::Skip);
    assert_eq!(r, IngestOutcome::SkippedExisting);
    let r = ingest_file(&mut conn, "m", "p.jpeg", &png, &rules, OnExisting::Refresh);
    assert_eq!(r, IngestOutcome::Ingested);
    let r = ingest_file(&mut conn, "m", "bad.jpeg", &vec![7], &rules, OnExisting::Skip);
    assert_eq!(r, IngestOutcome::DecodeFailed);
    assert_eq!(db::n_files(&conn), 1);
}

// --- stage 2 ---

#[test]
fn stage2_stage2_file_not_found() {
    // arrange

    let marker: &str = "foo-marker";
    let relative_path: &str = "foo-dir/foo-file.jpeg";
    let tree = plain_tree(marker);

    let mut conn = db::init();
    db::upsert(
        &mut conn,
        marker,
        relative_path,
        &FileInfo { hash: hash(&Vec::new()), date: None, thumb: Vec::new() },
    );
    assert_eq!(db::location_exists(&conn, marker, relative_path), true);

    // act

    let res = stage2(&mut conn, &tree, &vec![]);

    // assert

    assert!(res.is_ok(), "stage2 == {:?}", &res);
    assert_eq!(db::location_exists(&conn, marker, relative_path), false);
}

#[test]
fn scanning_stage2_file_not_found() {
    // arrange

    let marker: &str = "foo-marker";
    let relative_path: &str = "foo-dir/foo-file.jpeg";
    let tree = plain_tree(marker);

    let mut conn = db::init();
    db::upsert(
        &mut conn,
        marker,
        relative_path,
        &FileInfo { hash: hash(&Vec::new()), date: None, thumb: Vec::new() },
    );
    assert_eq!(db::location_exists(&conn, marker, relative_path), true);

    // act

    let res = stage2(&mut conn, &tree, &vec![]);

    // assert

    assert!(res.is_ok(), "stage2 == {:?}", &res);
    assert_eq!(db::location_exists(&conn, marker, relative_path), false);
}

#[test]
fn stage2_removes_missing_preserves_shared_record() {
    let marker = "m";
    let mut conn = db::init();
    let png = tiny_png(None);
    let h = hash(&png);
    db::upsert(&mut conn, marker, "keep.jpeg", &FileInfo { hash: h.clone(), date: None, thumb: vec![] });
    db::upsert(&mut conn, marker, "gone.jpeg", &FileInfo { hash: h.clone(), date: None, thumb: vec![] });

    let tree = plain_tree(marker);
    let entries = vec![data_entry("keep.jpeg", png)];
    let res = stage2(&mut conn, &tree, &entries);
    assert!(res.is_ok());
    assert_eq!(res.unwrap().len(), 0);

    assert!(!db::location_exists(&conn, marker, "gone.jpeg"));
    assert!(db::location_exists(&conn, marker, "keep.jpeg"));
    // The shared content record survives untouched.
    assert_eq!(db::all_files(&conn).len(), 1);
    assert_eq!(db::all_files(&conn)[0].hash, h);
}

#[test]
fn stage2_reports_hash_mismatch_without_repair() {
    let marker = "m";
    let mut conn = db::init();
    db::upsert(&mut conn, marker, "a.jpeg", &FileInfo { hash: "old-hash".to_string(), date: None, thumb: vec![] });
    let tree = plain_tree(marker);
    let entries = vec![data_entry("a.jpeg", b"new bytes".to_vec())];
    let warnings = stage2(&mut conn, &tree, &entries).unwrap();
    assert_eq!(warnings.len(), 1);
    assert_eq!(warnings[0].path, "a.jpeg");
    assert_eq!(warnings[0].db_hash, "old-hash");
    assert_eq!(warnings[0].disk_hash, hash(b"new bytes"));
    // The catalog is left untouched: no repair, no removal.
    assert!(db::location_exists(&conn, marker, "a.jpeg"));
    assert_eq!(db::all_files(&conn)[0].hash, "old-hash");
}

#[test]
fn stage2_ambiguous_error_fails_the_tree() {
    let marker = "m";
    let mut conn = db::init();
    db::upsert(&mut conn, marker, "a.jpeg", &FileInfo { hash: "h".to_string(), date: None, thumb: vec![] });
    let tree = plain_tree(marker);
    let entries = vec![FsEntry {
        path: "a.jpeg".to_string(),
        read: ReadResult::Error("permission denied".to_string()),
    }];
    let res = stage2(&mut conn, &tree, &entries);
    assert_eq!(res.unwrap_err(), "permission denied");
    // A permissions error is not mistaken for deletion.
    assert!(db::location_exists(&conn, marker, "a.jpeg"));
}

// --- opening trees and the coordinator ---

#[test]
fn tree_open_resolves_rules_per_marker() {
    let dpm = vec![
        ("other".to_string(), vec![DatePath { date: "x".to_string(), path: "y".to_string() }]),
        ("m".to_string(), vec![DatePath { date: "$1".to_string(), path: r"(\d{4})".to_string() }]),
    ];
    let tree = Tree::open(
        "somewhere/marker.json",
        MarkerRead::Found { root: "somewhere".to_string(), id: "m".to_string() },
        &dpm,
    )
    .unwrap();
    assert_eq!(tree.marker, "m");
    assert_eq!(tree.root, "somewhere");
    assert_eq!(tree.date_paths.len(), 1);
    assert_eq!(tree.date_paths[0].date, "$1");

    let not_found = Tree::open("gone/marker.json", MarkerRead::NotFound, &dpm);
    assert!(matches!(not_found, Err(TreeError::NotFound(p)) if p == "gone/marker.json"));

    let bad = Tree::open(
        "bad/marker.json",
        MarkerRead::Unreadable(vec!["open failed".to_string(), "no permission".to_string()]),
        &dpm,
    );
    match bad {
        Err(TreeError::Other { path, chain }) => {
            assert_eq!(path, "bad/marker.json");
            assert_eq!(backer::interlude::error_chain(&chain), "open failed: no permission");
        }
        other => panic!("expected a malformed-marker error, got {:?}", other),
    }
}

#[test]
fn tree_walker_matches_jpegs_under_root() {
    let tree = plain_tree("m");
    let walker = tree.walker();
    let hit = walker.classify(&WalkEvent::Entry {
        path: "root/sub/a.JPEG".to_string(),
        kind: EntryKind::File,
    });
    assert_eq!(hit.unwrap().unwrap().relative_path(), "sub/a.JPEG");
    let miss = walker.classify(&WalkEvent::Entry {
        path: "root/sub/a.txt".to_string(),
        kind: EntryKind::File,
    });
    assert!(miss.is_none());
}

#[test]
fn marker_not_found_does_not_abort_siblings() {
    let mut conn = db::init();
    let png = tiny_png(None);
    let inputs = vec![
        TreeInput {
            marker_path: "offline/marker.json".to_string(),
            read: MarkerRead::NotFound,
            entries: vec![],
        },
        TreeInput {
            marker_path: "live/marker.json".to_string(),
            read: MarkerRead::Found { root: "live".to_string(), id: "live-m".to_string() },
            entries: vec![data_entry("pic.jpeg", png)],
        },
    ];
    let results = scan(&mut conn, &inputs, &vec![]);
    assert_eq!(results.len(), 2);
    assert!(matches!(results[0], Ok(ProcessOutcome::Skipped)));
    assert!(matches!(results[1], Ok(ProcessOutcome::Completed(_))));
    // The sibling tree was fully scanned.
    assert!(db::location_exists(&conn, "live-m", "pic.jpeg"));
    assert_eq!(db::n_files(&conn), 1);
}

#[test]
fn malformed_marker_fails_only_its_tree() {
    let mut conn = db::init();
    let inputs = vec![
        TreeInput {
            marker_path: "bad/marker.json".to_string(),
            read: MarkerRead::Unreadable(vec!["garbled".to_string()]),
            entries: vec![],
        },
        TreeInput {
            marker_path: "live/marker.json".to_string(),
            read: MarkerRead::Found { root: "live".to_string(), id: "live-m".to_string() },
            entries: vec![data_entry("pic.jpeg", tiny_png(None))],
        },
    ];
    let results = scan(&mut conn, &inputs, &vec![]);
    assert!(matches!(
        &results[0],
        Err(TreeFailure::Marker(TreeError::Other { .. }))
    ));
    assert!(matches!(&results[1], Ok(ProcessOutcome::Completed(_))));
    assert!(db::location_exists(&conn, "live-m", "pic.jpeg"));
}

#[test]
fn process_tree_runs_both_stages() {
    let mut conn = db::init();
    // A file already catalogued whose backing file is gone, and a new file
    // on disk: one pass removes the first and ingests the second.
    db::upsert(&mut conn, "m", "stale.jpeg", &FileInfo { hash: "h-old".to_string(), date: None, thumb: vec![] });
    let read = MarkerRead::Found { root: "r".to_string(), id: "m".to_string() };
    let entries = vec![data_entry("fresh.jpeg", tiny_png(None))];
    let res = process_tree(&mut conn, "r/marker.json", &read, &vec![], &entries);
    assert!(matches!(res, Ok(ProcessOutcome::Completed(_))));
    assert!(!db::location_exists(&conn, "m", "stale.jpeg"));
    assert!(db::location_exists(&conn, "m", "fresh.jpeg"));
}
