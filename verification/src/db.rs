//! The catalog: the system of record for content-addressed file records,
//! per-marker locations, tags and file-tag associations.
//!
//! Every record is born and mutated through the operations here, which keep
//! the catalog invariants: one record per content hash, one location per
//! `(marker, path)` pair, unique non-empty tag names, unique associations.

use vstd::prelude::*;

use crate::datetime::{spec_dt_lt, DateTime};
use crate::model::{FileInfo, FileModel};
use crate::strutil::str_eq;

verus! {

/// Row identifier handed to callers: the position of a file record plus one,
/// so identifiers start at 1 and never change while the catalog lives.
pub type Rowid = i64;

#[derive(Copy, Clone, Debug)]
pub struct OffsetAndLimit {
    pub offset: i64,
    pub limit: i64,
}

impl OffsetAndLimit {
    pub fn new(offset: i64, limit: i64) -> (r: Self)
        ensures
            r.offset == offset,
            r.limit == limit,
    {
        Self { offset, limit }
    }
}

/// One physical location: a `(marker, path)` pair pointing at a file record.
pub struct LocationRecord {
    pub marker: String,
    pub path: String,
    pub file_id: usize,
}

pub struct LocModel {
    pub marker: Seq<char>,
    pub path: Seq<char>,
    pub file_id: int,
}

impl View for LocationRecord {
    type V = LocModel;

    open spec fn view(&self) -> LocModel {
        LocModel { marker: self.marker@, path: self.path@, file_id: self.file_id as int }
    }
}

/// A tag; `hidden` marks content to leave out of default listings.
pub struct TagRecord {
    pub name: String,
    pub hidden: bool,
}

pub struct TagModel {
    pub name: Seq<char>,
    pub hidden: bool,
}

impl View for TagRecord {
    type V = TagModel;

    open spec fn view(&self) -> TagModel {
        TagModel { name: self.name@, hidden: self.hidden }
    }
}

/// The whole catalog as plain mathematical values.
pub struct CatalogModel {
    pub files: Seq<FileModel>,
    pub locations: Seq<LocModel>,
    pub tags: Seq<TagModel>,
    pub file_tags: Seq<(int, int)>,
}

pub open spec fn has_file(files: Seq<FileModel>, hash: Seq<char>) -> bool {
    exists|i: int| 0 <= i < files.len() && files[i].hash == hash
}

/// The position of the record for `hash`, or -1. Under `wf` the position is
/// unique.
pub open spec fn file_index_of(files: Seq<FileModel>, hash: Seq<char>) -> int {
    if has_file(files, hash) {
        choose|i: int| 0 <= i < files.len() && files[i].hash == hash
    } else {
        -1
    }
}

pub open spec fn has_loc_in(locs: Seq<LocModel>, marker: Seq<char>, path: Seq<char>) -> bool {
    exists|i: int|
        0 <= i < locs.len() && locs[i].marker == marker && locs[i].path == path
}

/// The position of the location for `(marker, path)`, or -1. Under `wf` the
/// position is unique.
pub open spec fn loc_index_of(locs: Seq<LocModel>, marker: Seq<char>, path: Seq<char>) -> int {
    if has_loc_in(locs, marker, path) {
        choose|i: int| 0 <= i < locs.len() && locs[i].marker == marker && locs[i].path == path
    } else {
        -1
    }
}

pub open spec fn has_tag(tags: Seq<TagModel>, name: Seq<char>) -> bool {
    exists|i: int| 0 <= i < tags.len() && tags[i].name == name
}

impl CatalogModel {
    /// The catalog invariants: unique non-empty hashes, unique location
    /// pairs, locations pointing at real records, unique non-empty tag
    /// names, unique in-range associations.
    pub open spec fn wf(self) -> bool {
        &&& (forall|i: int, j: int|
            0 <= i < j < self.files.len() ==> self.files[i].hash != self.files[j].hash)
        &&& (forall|i: int| 0 <= i < self.files.len() ==> self.files[i].hash.len() > 0)
        &&& (forall|i: int, j: int|
            0 <= i < j < self.locations.len() ==> !(self.locations[i].marker
                == self.locations[j].marker && self.locations[i].path == self.locations[j].path))
        &&& (forall|i: int|
            0 <= i < self.locations.len() ==> 0 <= #[trigger] self.locations[i].file_id
                < self.files.len())
        &&& (forall|i: int, j: int|
            0 <= i < j < self.tags.len() ==> self.tags[i].name != self.tags[j].name)
        &&& (forall|i: int| 0 <= i < self.tags.len() ==> self.tags[i].name.len() > 0)
        &&& (forall|i: int, j: int|
            0 <= i < j < self.file_tags.len() ==> self.file_tags[i] != self.file_tags[j])
        &&& (forall|i: int|
            0 <= i < self.file_tags.len() ==> 0 <= #[trigger] self.file_tags[i].0
                < self.files.len() && 0 <= self.file_tags[i].1 < self.tags.len())
    }

    pub open spec fn has_loc(self, marker: Seq<char>, path: Seq<char>) -> bool {
        has_loc_in(self.locations, marker, path)
    }
}

/// What one upsert does to the file records: a new record for an unseen
/// hash; for a known hash the thumbnail is always replaced, and the date is
/// replaced only when the upsert supplies one — a null date never erases a
/// known date (fill-the-gap), while a fresh non-null date wins.
pub open spec fn upsert_files(
    files: Seq<FileModel>,
    hash: Seq<char>,
    date: Option<DateTime>,
    thumb: Seq<u8>,
) -> Seq<FileModel> {
    let i = file_index_of(files, hash);
    if i >= 0 {
        files.update(
            i,
            FileModel {
                hash,
                date: if date is Some {
                    date
                } else {
                    files[i].date
                },
                thumb,
            },
        )
    } else {
        files.push(FileModel { hash, date, thumb })
    }
}

/// What one upsert does to the whole catalog: the file record as in
/// `upsert_files`, and the `(marker, path)` location created or repointed at
/// that record; never a second record for one hash, never a second location
/// for one pair.
pub open spec fn upsert_model(
    c: CatalogModel,
    marker: Seq<char>,
    path: Seq<char>,
    hash: Seq<char>,
    date: Option<DateTime>,
    thumb: Seq<u8>,
) -> CatalogModel {
    let files = upsert_files(c.files, hash, date, thumb);
    let fid = file_index_of(files, hash);
    let li = loc_index_of(c.locations, marker, path);
    let locations = if li >= 0 {
        c.locations.update(li, LocModel { marker, path, file_id: fid })
    } else {
        c.locations.push(LocModel { marker, path, file_id: fid })
    };
    CatalogModel { files, locations, tags: c.tags, file_tags: c.file_tags }
}

/// Removing a location deletes only the `(marker, path)` pointer; the file
/// record stays, whatever other locations reference it.
pub open spec fn remove_model(c: CatalogModel, marker: Seq<char>, path: Seq<char>) -> CatalogModel {
    let li = loc_index_of(c.locations, marker, path);
    if li >= 0 {
        CatalogModel {
            files: c.files,
            locations: c.locations.remove(li),
            tags: c.tags,
            file_tags: c.file_tags,
        }
    } else {
        c
    }
}

/// The `(path, hash)` pairs catalogued under `marker`, among the first `n`
/// locations, in location order.
pub open spec fn marker_items_prefix(c: CatalogModel, marker: Seq<char>, n: int) -> Seq<
    (Seq<char>, Seq<char>),
>
    decreases n,
{
    if n <= 0 {
        Seq::empty()
    } else {
        let rest = marker_items_prefix(c, marker, n - 1);
        let l = c.locations[n - 1];
        if l.marker == marker {
            rest.push((l.path, c.files[l.file_id].hash))
        } else {
            rest
        }
    }
}

/// The `(path, hash)` pairs catalogued under `marker`, in location order.
pub open spec fn marker_items(c: CatalogModel, marker: Seq<char>) -> Seq<(Seq<char>, Seq<char>)> {
    marker_items_prefix(c, marker, c.locations.len() as int)
}

/// A fresh catalog: empty but for the seeded `hidden` tag.
pub open spec fn init_model() -> CatalogModel {
    CatalogModel {
        files: Seq::empty(),
        locations: Seq::empty(),
        tags: seq![TagModel { name: "hidden"@, hidden: true }],
        file_tags: Seq::empty(),
    }
}

/// The catalog. Its fields are reachable only through the operations below,
/// which keep `CatalogModel::wf`.
pub struct Catalog {
    files: Vec<FileInfo>,
    locations: Vec<LocationRecord>,
    tags: Vec<TagRecord>,
    file_tags: Vec<(usize, usize)>,
}

impl View for Catalog {
    type V = CatalogModel;

    closed spec fn view(&self) -> CatalogModel {
        CatalogModel {
            files: self.files@.map_values(|f: FileInfo| f@),
            locations: self.locations@.map_values(|l: LocationRecord| l@),
            tags: self.tags@.map_values(|t: TagRecord| t@),
            file_tags: self.file_tags@.map_values(|p: (usize, usize)| (p.0 as int, p.1 as int)),
        }
    }
}

/// Creates a fresh catalog, seeding the well-known `hidden` tag, as schema
/// initialization does on every start.
pub fn init() -> (db: Catalog)
    ensures
        db@ == init_model(),
        db@.wf(),
{
    let mut tags: Vec<TagRecord> = Vec::new();
    tags.push(TagRecord { name: "hidden".to_owned(), hidden: true });
    let db = Catalog { files: Vec::new(), locations: Vec::new(), tags, file_tags: Vec::new() };
    proof {
        reveal_strlit("hidden");
        assert(db@.files =~= init_model().files);
        assert(db@.locations =~= init_model().locations);
        assert(db@.tags =~= init_model().tags);
        assert(db@.file_tags =~= init_model().file_tags);
    }
    db
}

/// Position of the record for `hash` among the files, if any.
fn find_file(files: &Vec<FileInfo>, hash: &str) -> (r: Option<usize>)
    ensures
        match r {
            Some(i) => i < files@.len() && files@.map_values(|f: FileInfo| f@)[i as int].hash
                == hash@,
            None => !has_file(files@.map_values(|f: FileInfo| f@), hash@),
        },
{
    let ghost m = files@.map_values(|f: FileInfo| f@);
    let mut i: usize = 0;
    while i < files.len()
        invariant
            m == files@.map_values(|f: FileInfo| f@),
            i <= files@.len(),
            forall|j: int| 0 <= j < i ==> m[j].hash != hash@,
        decreases files@.len() - i,
    {
        if str_eq(files[i].hash.as_str(), hash) {
            return Some(i);
        }
        i = i + 1;
    }
    None
}

/// Position of the location for `(marker, path)`, if any.
fn find_loc(locs: &Vec<LocationRecord>, marker: &str, path: &str) -> (r: Option<usize>)
    ensures
        match r {
            Some(i) => {
                let m = locs@.map_values(|l: LocationRecord| l@);
                i < locs@.len() && m[i as int].marker == marker@ && m[i as int].path == path@
            },
            None => !has_loc_in(locs@.map_values(|l: LocationRecord| l@), marker@, path@),
        },
{
    let ghost m = locs@.map_values(|l: LocationRecord| l@);
    let mut i: usize = 0;
    while i < locs.len()
        invariant
            m == locs@.map_values(|l: LocationRecord| l@),
            i <= locs@.len(),
            forall|j: int| 0 <= j < i ==> !(m[j].marker == marker@ && m[j].path == path@),
        decreases locs@.len() - i,
    {
        if str_eq(locs[i].marker.as_str(), marker) && str_eq(locs[i].path.as_str(), path) {
            return Some(i);
        }
        i = i + 1;
    }
    None
}

/// Whether a location `(marker, relative)` is already catalogued.
pub fn location_exists(db: &Catalog, marker: &str, relative: &str) -> (r: bool)
    ensures
        r == db@.has_loc(marker@, relative@),
{
    find_loc(&db.locations, marker, relative).is_some()
}

/// Records the observation of content `info.hash` at `(marker, relative)`:
/// creates or updates the one file record for that hash (a null date never
/// erases a known date, a supplied date wins, the thumbnail is always
/// replaced) and creates or repoints the one location for that pair.
pub fn upsert(db: &mut Catalog, marker: &str, relative: &str, info: &FileInfo)
    requires
        old(db)@.wf(),
        info.hash@.len() > 0,
    ensures
        final(db)@ == upsert_model(old(db)@, marker@, relative@, info@.hash, info@.date, info@.thumb),
        final(db)@.wf(),
{
    let ghost old_model = db@;
    let ghost old_files = db@.files;

    // File record: update in place or append.
    let fid: usize = match find_file(&db.files, info.hash.as_str()) {
        Some(i) => {
            proof {
                assert(has_file(old_files, info.hash@));
                let w = file_index_of(old_files, info.hash@);
                assert(0 <= w < old_files.len() && old_files[w].hash == info.hash@);
                assert(w == i as int);
            }
            let new_date = match info.date {
                Some(d) => Some(d),
                None => db.files[i].date,
            };
            let hash = info.hash.clone();
            let thumb = crate::strutil::copy_bytes(&info.thumb);
            db.files[i] = FileInfo { hash, date: new_date, thumb };
            i
        },
        None => {
            proof {
                assert(file_index_of(old_files, info.hash@) == -1);
            }
            db.files.push(info.duplicate());
            db.files.len() - 1
        },
    };
    let ghost new_files = upsert_files(old_files, info.hash@, info@.date, info@.thumb);
    proof {
        assert(db@.files =~= new_files);
        assert(new_files[fid as int].hash == info.hash@);
        assert(has_file(new_files, info.hash@));
        let w = file_index_of(new_files, info.hash@);
        assert(0 <= w < new_files.len() && new_files[w].hash == info.hash@);
        assert(forall|i: int, j: int|
            0 <= i < j < new_files.len() ==> new_files[i].hash != new_files[j].hash);
        assert(w == fid as int);
    }

    // Location: repoint in place or append.
    match find_loc(&db.locations, marker, relative) {
        Some(li) => {
            proof {
                assert(has_loc_in(old_model.locations, marker@, relative@));
                let w = loc_index_of(old_model.locations, marker@, relative@);
                assert(0 <= w < old_model.locations.len() && old_model.locations[w].marker
                    == marker@ && old_model.locations[w].path == relative@);
                assert(w == li as int);
            }
            let m = marker.to_owned();
            let p = relative.to_owned();
            db.locations[li] = LocationRecord { marker: m, path: p, file_id: fid };
        },
        None => {
            proof {
                assert(loc_index_of(old_model.locations, marker@, relative@) == -1);
            }
            let m = marker.to_owned();
            let p = relative.to_owned();
            db.locations.push(LocationRecord { marker: m, path: p, file_id: fid });
        },
    }
    proof {
        let target = upsert_model(old_model, marker@, relative@, info@.hash, info@.date, info@.thumb);
        assert(db@.files =~= target.files);
        assert(db@.locations =~= target.locations);
        assert(db@.tags =~= target.tags);
        assert(db@.file_tags =~= target.file_tags);
        assert(db@ == target);
        lemma_upsert_wf(old_model, marker@, relative@, info@.hash, info@.date, info@.thumb);
    }
}

/// Upserting keeps the catalog invariants.
proof fn lemma_upsert_wf(
    c: CatalogModel,
    marker: Seq<char>,
    path: Seq<char>,
    hash: Seq<char>,
    date: Option<DateTime>,
    thumb: Seq<u8>,
)
    requires
        c.wf(),
        hash.len() > 0,
    ensures
        upsert_model(c, marker, path, hash, date, thumb).wf(),
{
    let files = upsert_files(c.files, hash, date, thumb);
    let t = upsert_model(c, marker, path, hash, date, thumb);

    // The file records still have unique, non-empty hashes.
    let i = file_index_of(c.files, hash);
    if i >= 0 {
        assert(0 <= i < c.files.len() && c.files[i].hash == hash);
        assert(forall|k: int| 0 <= k < files.len() && k != i ==> files[k] == c.files[k]);
    } else {
        assert(!has_file(c.files, hash));
        assert(forall|k: int| 0 <= k < c.files.len() ==> files[k] == c.files[k]);
    }
    assert(forall|k: int, l: int|
        0 <= k < l < files.len() ==> files[k].hash != files[l].hash);
    assert(forall|k: int| 0 <= k < files.len() ==> files[k].hash.len() > 0);

    // The record for `hash` is present, so the new location points in range.
    let fi = file_index_of(files, hash);
    assert(if i >= 0 {
        files[i].hash == hash
    } else {
        files[c.files.len() as int].hash == hash
    });
    assert(has_file(files, hash));
    assert(0 <= fi < files.len() && files[fi].hash == hash);

    // The locations still have unique pairs and in-range targets.
    let li = loc_index_of(c.locations, marker, path);
    if li >= 0 {
        assert(0 <= li < c.locations.len() && c.locations[li].marker == marker
            && c.locations[li].path == path);
        assert(forall|k: int|
            0 <= k < t.locations.len() && k != li ==> t.locations[k] == c.locations[k]);
        assert(forall|k: int|
            0 <= k < c.locations.len() && k != li ==> !(c.locations[k].marker == marker
                && c.locations[k].path == path));
    } else {
        assert(!has_loc_in(c.locations, marker, path));
        assert(forall|k: int|
            0 <= k < c.locations.len() ==> t.locations[k] == c.locations[k]);
    }
    assert(forall|k: int, l: int|
        0 <= k < l < t.locations.len() ==> !(t.locations[k].marker == t.locations[l].marker
            && t.locations[k].path == t.locations[l].path));
    assert(forall|k: int|
        0 <= k < t.locations.len() ==> 0 <= #[trigger] t.locations[k].file_id < t.files.len());
}

/// Deletes the location `(marker, relative)` if present; file records, tags
/// and associations stay.
pub fn remove(db: &mut Catalog, marker: &str, relative: &str)
    requires
        old(db)@.wf(),
    ensures
        final(db)@ == remove_model(old(db)@, marker@, relative@),
        final(db)@.wf(),
{
    let ghost old_model = db@;
    match find_loc(&db.locations, marker, relative) {
        Some(li) => {
            proof {
                assert(has_loc_in(old_model.locations, marker@, relative@));
                let w = loc_index_of(old_model.locations, marker@, relative@);
                assert(0 <= w < old_model.locations.len() && old_model.locations[w].marker
                    == marker@ && old_model.locations[w].path == relative@);
                assert(w == li as int);
            }
            db.locations.remove(li);
            proof {
                let target = remove_model(old_model, marker@, relative@);
                assert(db@.locations =~= target.locations);
                assert(db@.files =~= target.files);
                assert(db@.tags =~= target.tags);
                assert(db@.file_tags =~= target.file_tags);
            }
        },
        None => {
            proof {
                assert(loc_index_of(old_model.locations, marker@, relative@) == -1);
                assert(db@ == remove_model(old_model, marker@, relative@));
            }
        },
    }
}

/// All `(path, hash)` pairs catalogued under `marker`, in location order: a
/// stable snapshot for the reconciliation pass to walk.
pub fn hashes(db: &Catalog, marker: &str) -> (r: Vec<(String, String)>)
    requires
        db@.wf(),
    ensures
        r@.map_values(|p: (String, String)| (p.0@, p.1@)) == marker_items(db@, marker@),
{
    let mut r: Vec<(String, String)> = Vec::new();
    let mut i: usize = 0;
    while i < db.locations.len()
        invariant
            db@.wf(),
            i <= db.locations@.len(),
            db@.locations.len() == db.locations@.len(),
            r@.map_values(|p: (String, String)| (p.0@, p.1@)) =~= marker_items_prefix(
                db@,
                marker@,
                i as int,
            ),
        decreases db.locations@.len() - i,
    {
        proof {
            assert(db@.locations[i as int] == db.locations@[i as int]@);
        }
        if str_eq(db.locations[i].marker.as_str(), marker) {
            let fid = db.locations[i].file_id;
            proof {
                assert(0 <= db@.locations[i as int].file_id < db@.files.len());
                assert(db@.files[fid as int] == db.files@[fid as int]@);
            }
            let path = db.locations[i].path.clone();
            let hash = db.files[fid].hash.clone();
            r.push((path, hash));
        }
        proof {
            assert(r@.map_values(|p: (String, String)| (p.0@, p.1@)) =~= marker_items_prefix(
                db@,
                marker@,
                i as int + 1,
            ));
        }
        i = i + 1;
    }
    proof {
        assert(marker_items_prefix(db@, marker@, db.locations@.len() as int) == marker_items(
            db@,
            marker@,
        ));
    }
    r
}

/// How many file records the catalog holds.
pub fn n_files(db: &Catalog) -> (r: usize)
    ensures
        r == db@.files.len(),
{
    db.files.len()
}

/// The file records, in record order, as fresh values.
pub fn all_files(db: &Catalog) -> (r: Vec<FileInfo>)
    ensures
        r@.map_values(|f: FileInfo| f@) == db@.files,
{
    let mut r: Vec<FileInfo> = Vec::new();
    let mut i: usize = 0;
    while i < db.files.len()
        invariant
            i <= db.files@.len(),
            r@.len() == i,
            forall|j: int| 0 <= j < i ==> r@[j]@ == db@.files[j],
        decreases db.files@.len() - i,
    {
        proof {
            assert(db@.files[i as int] == db.files@[i as int]@);
        }
        r.push(db.files[i].duplicate());
        i = i + 1;
    }
    proof {
        assert(r@.map_values(|f: FileInfo| f@) =~= db@.files);
    }
    r
}

// ---------------------------------------------------------------------------
// Tags and associations.
// ---------------------------------------------------------------------------
/// Adding a tag: a no-op when the name is already taken, as the seeding
/// insert behaves.
pub open spec fn add_tag_model(c: CatalogModel, name: Seq<char>, hidden: bool) -> CatalogModel {
    if has_tag(c.tags, name) {
        c
    } else {
        CatalogModel {
            files: c.files,
            locations: c.locations,
            tags: c.tags.push(TagModel { name, hidden }),
            file_tags: c.file_tags,
        }
    }
}

/// Creates a tag unless one of that name exists.
#[verifier::loop_isolation(false)]
pub fn add_tag(db: &mut Catalog, name: &str, hidden: bool)
    requires
        old(db)@.wf(),
        name@.len() > 0,
    ensures
        final(db)@ == add_tag_model(old(db)@, name@, hidden),
        final(db)@.wf(),
{
    let ghost old_model = db@;
    let mut i: usize = 0;
    while i < db.tags.len()
        invariant
            old_model == db@,
            i <= db.tags@.len(),
            forall|j: int| 0 <= j < i ==> db@.tags[j].name != name@,
        decreases db.tags@.len() - i,
    {
        proof {
            assert(db@.tags[i as int] == db.tags@[i as int]@);
        }
        if str_eq(db.tags[i].name.as_str(), name) {
            proof {
                assert(has_tag(old_model.tags, name@));
            }
            return ;
        }
        i = i + 1;
    }
    proof {
        assert(!has_tag(old_model.tags, name@));
    }
    db.tags.push(TagRecord { name: name.to_owned(), hidden });
    proof {
        assert(db@.tags =~= add_tag_model(old_model, name@, hidden).tags);
        assert(db@ == add_tag_model(old_model, name@, hidden));
    }
}

/// Associating a file with a tag, both named by their row identifiers: a
/// no-op when either identifier is out of range or the pair already exists.
pub open spec fn tag_file_model(c: CatalogModel, file_rowid: int, tag_rowid: int) -> CatalogModel {
    let fid = file_rowid - 1;
    let tid = tag_rowid - 1;
    if 0 <= fid < c.files.len() && 0 <= tid < c.tags.len() && !c.file_tags.contains((fid, tid)) {
        CatalogModel {
            files: c.files,
            locations: c.locations,
            tags: c.tags,
            file_tags: c.file_tags.push((fid, tid)),
        }
    } else {
        c
    }
}

/// Associates the file at `file_rowid` with the tag at `tag_rowid`.
#[verifier::loop_isolation(false)]
pub fn tag_file(db: &mut Catalog, file_rowid: Rowid, tag_rowid: Rowid)
    requires
        old(db)@.wf(),
    ensures
        final(db)@ == tag_file_model(old(db)@, file_rowid as int, tag_rowid as int),
        final(db)@.wf(),
{
    let ghost old_model = db@;
    if file_rowid < 1 || tag_rowid < 1 {
        return ;
    }
    let fw: u64 = (file_rowid - 1) as u64;
    let tw: u64 = (tag_rowid - 1) as u64;
    if fw >= db.files.len() as u64 || tw >= db.tags.len() as u64 {
        return ;
    }
    let fid: usize = fw as usize;
    let tid: usize = tw as usize;
    let mut i: usize = 0;
    while i < db.file_tags.len()
        invariant
            old_model == db@,
            i <= db.file_tags@.len(),
            fid < db.files@.len(),
            tid < db.tags@.len(),
            forall|j: int| 0 <= j < i ==> db@.file_tags[j] != (fid as int, tid as int),
        decreases db.file_tags@.len() - i,
    {
        proof {
            assert(db@.file_tags[i as int] == (
                db.file_tags@[i as int].0 as int,
                db.file_tags@[i as int].1 as int,
            ));
        }
        if db.file_tags[i].0 == fid && db.file_tags[i].1 == tid {
            proof {
                assert(old_model.file_tags.contains((fid as int, tid as int)));
            }
            return ;
        }
        i = i + 1;
    }
    proof {
        assert(!old_model.file_tags.contains((fid as int, tid as int)));
    }
    db.file_tags.push((fid, tid));
    proof {
        let target = tag_file_model(old_model, file_rowid as int, tag_rowid as int);
        assert(db@.file_tags =~= target.file_tags);
        assert(db@ == target);
    }
}

// ---------------------------------------------------------------------------
// Laws of the catalog.
// ---------------------------------------------------------------------------
/// How many file records carry `hash`.
pub open spec fn count_files_with(files: Seq<FileModel>, hash: Seq<char>) -> nat
    decreases files.len(),
{
    if files.len() == 0 {
        0
    } else {
        count_files_with(files.drop_last(), hash) + if files.last().hash == hash {
            1nat
        } else {
            0nat
        }
    }
}

/// How many locations reference the file record at index `fid`.
pub open spec fn count_locs_to(locs: Seq<LocModel>, fid: int) -> nat
    decreases locs.len(),
{
    if locs.len() == 0 {
        0
    } else {
        count_locs_to(locs.drop_last(), fid) + if locs.last().file_id == fid {
            1nat
        } else {
            0nat
        }
    }
}

proof fn lemma_count_files_zero(files: Seq<FileModel>, hash: Seq<char>)
    requires
        forall|k: int| 0 <= k < files.len() ==> (#[trigger] files[k]).hash != hash,
    ensures
        count_files_with(files, hash) == 0,
    decreases files.len(),
{
    if files.len() > 0 {
        lemma_count_files_zero(files.drop_last(), hash);
    }
}

proof fn lemma_count_files_single(files: Seq<FileModel>, hash: Seq<char>, w: int)
    requires
        0 <= w < files.len(),
        files[w].hash == hash,
        forall|k: int| 0 <= k < files.len() && k != w ==> (#[trigger] files[k]).hash != hash,
    ensures
        count_files_with(files, hash) == 1,
    decreases files.len(),
{
    if w == files.len() - 1 {
        lemma_count_files_zero(files.drop_last(), hash);
    } else {
        lemma_count_files_single(files.drop_last(), hash, w);
    }
}

proof fn lemma_count_locs_zero(locs: Seq<LocModel>, fid: int)
    requires
        forall|k: int| 0 <= k < locs.len() ==> (#[trigger] locs[k]).file_id != fid,
    ensures
        count_locs_to(locs, fid) == 0,
    decreases locs.len(),
{
    if locs.len() > 0 {
        lemma_count_locs_zero(locs.drop_last(), fid);
    }
}

/// For a hash the catalog does not know yet, an upsert appends its record at
/// the end, and that is where the hash is then found.
proof fn lemma_upsert_fresh_index(
    c: CatalogModel,
    marker: Seq<char>,
    path: Seq<char>,
    hash: Seq<char>,
    date: Option<DateTime>,
    thumb: Seq<u8>,
)
    requires
        c.wf(),
        hash.len() > 0,
        !has_file(c.files, hash),
    ensures
        ({
            let c1 = upsert_model(c, marker, path, hash, date, thumb);
            &&& c1.files == c.files.push(FileModel { hash, date, thumb })
            &&& file_index_of(c1.files, hash) == c.files.len()
        }),
{
    let c1 = upsert_model(c, marker, path, hash, date, thumb);
    assert(file_index_of(c.files, hash) == -1);
    assert(c1.files == c.files.push(FileModel { hash, date, thumb }));
    assert(c1.files[c.files.len() as int].hash == hash);
    assert(has_file(c1.files, hash));
    let w = file_index_of(c1.files, hash);
    assert(0 <= w < c1.files.len() && c1.files[w].hash == hash);
    if w < c.files.len() {
        assert(c1.files[w] == c.files[w]);
        assert(has_file(c.files, hash));
    }
}

/// For a hash the catalog knows, an upsert updates its record in place: the
/// position, and every other record, stay as they were.
proof fn lemma_upsert_known_index(
    c: CatalogModel,
    marker: Seq<char>,
    path: Seq<char>,
    hash: Seq<char>,
    date: Option<DateTime>,
    thumb: Seq<u8>,
)
    requires
        c.wf(),
        hash.len() > 0,
        has_file(c.files, hash),
    ensures
        ({
            let i = file_index_of(c.files, hash);
            let c1 = upsert_model(c, marker, path, hash, date, thumb);
            &&& 0 <= i < c.files.len()
            &&& c1.files.len() == c.files.len()
            &&& file_index_of(c1.files, hash) == i
            &&& c1.files[i].hash == hash
            &&& c1.files[i].thumb == thumb
            &&& c1.files[i].date == (if date is Some {
                date
            } else {
                c.files[i].date
            })
            &&& forall|k: int| 0 <= k < c.files.len() && k != i ==> c1.files[k] == c.files[k]
        }),
{
    let i = file_index_of(c.files, hash);
    assert(0 <= i < c.files.len() && c.files[i].hash == hash);
    let c1 = upsert_model(c, marker, path, hash, date, thumb);
    assert(c1.files[i].hash == hash);
    assert(has_file(c1.files, hash));
    let w = file_index_of(c1.files, hash);
    assert(0 <= w < c1.files.len() && c1.files[w].hash == hash);
    if w != i {
        assert(c1.files[w] == c.files[w]);
        assert(c.files[w].hash == c.files[i].hash);
    }
}

/// Dedup law: after ingesting byte-identical content (one hash) at two
/// distinct paths, exactly one file record carries the shared hash and
/// exactly two locations reference it, and both paths are catalogued.
pub proof fn lemma_dedup_invariant(
    c: CatalogModel,
    marker: Seq<char>,
    p1: Seq<char>,
    p2: Seq<char>,
    hash: Seq<char>,
    d1: Option<DateTime>,
    t1: Seq<u8>,
    d2: Option<DateTime>,
    t2: Seq<u8>,
)
    requires
        c.wf(),
        hash.len() > 0,
        p1 != p2,
        !has_file(c.files, hash),
        !c.has_loc(marker, p1),
        !c.has_loc(marker, p2),
    ensures
        ({
            let c2 = upsert_model(
                upsert_model(c, marker, p1, hash, d1, t1),
                marker,
                p2,
                hash,
                d2,
                t2,
            );
            &&& count_files_with(c2.files, hash) == 1
            &&& count_locs_to(c2.locations, file_index_of(c2.files, hash)) == 2
            &&& c2.has_loc(marker, p1)
            &&& c2.has_loc(marker, p2)
        }),
{
    let fid = c.files.len() as int;
    let c1 = upsert_model(c, marker, p1, hash, d1, t1);
    lemma_upsert_fresh_index(c, marker, p1, hash, d1, t1);
    lemma_upsert_wf(c, marker, p1, hash, d1, t1);
    assert(loc_index_of(c.locations, marker, p1) == -1);
    assert(c1.locations == c.locations.push(LocModel { marker, path: p1, file_id: fid }));

    let c2 = upsert_model(c1, marker, p2, hash, d2, t2);
    lemma_upsert_known_index(c1, marker, p2, hash, d2, t2);
    lemma_upsert_wf(c1, marker, p2, hash, d2, t2);
    assert(file_index_of(c1.files, hash) == fid);
    assert(!c1.has_loc(marker, p2));
    assert(loc_index_of(c1.locations, marker, p2) == -1);
    assert(c2.locations == c1.locations.push(LocModel { marker, path: p2, file_id: fid }));

    // Exactly one record for the hash.
    assert(file_index_of(c2.files, hash) == fid);
    assert(forall|k: int|
        0 <= k < c2.files.len() && k != fid ==> (#[trigger] c2.files[k]).hash != hash);
    lemma_count_files_single(c2.files, hash, fid);

    // Exactly the two new locations reference it.
    assert(forall|k: int|
        0 <= k < c.locations.len() ==> (#[trigger] c.locations[k]).file_id != fid);
    lemma_count_locs_zero(c.locations, fid);
    assert(c1.locations.drop_last() =~= c.locations);
    assert(c1.locations.last().file_id == fid);
    assert(count_locs_to(c1.locations, fid) == 1);
    assert(c2.locations.drop_last() =~= c1.locations);
    assert(c2.locations.last().file_id == fid);
    assert(count_locs_to(c2.locations, fid) == 2);

    // Both paths are present.
    assert(c2.locations[c.locations.len() as int].marker == marker && c2.locations[c.locations.len() as int].path == p1);
    assert(c2.locations[c.locations.len() as int + 1].marker == marker && c2.locations[c.locations.len() as int + 1].path == p2);
}

/// Date fill-gap law: a record born without a date takes the first date a
/// later upsert supplies; a further upsert with a different date replaces
/// it; an upsert with no date never erases a known date. The thumbnail
/// always follows the latest upsert.
pub proof fn lemma_date_fill_gap(
    c: CatalogModel,
    marker: Seq<char>,
    path: Seq<char>,
    hash: Seq<char>,
    d: DateTime,
    d2: DateTime,
    ta: Seq<u8>,
    tb: Seq<u8>,
    tc: Seq<u8>,
    td: Seq<u8>,
)
    requires
        c.wf(),
        hash.len() > 0,
        d2 != d,
        !has_file(c.files, hash),
    ensures
        ({
            let c1 = upsert_model(c, marker, path, hash, None, ta);
            let c2 = upsert_model(c1, marker, path, hash, Some(d), tb);
            let c3 = upsert_model(c2, marker, path, hash, Some(d2), tc);
            let c4 = upsert_model(c3, marker, path, hash, None, td);
            let i = c.files.len() as int;
            &&& c1.files[i].date is None && c1.files[i].thumb == ta
            &&& c2.files[i].date == Some(d) && c2.files[i].thumb == tb
            &&& c3.files[i].date == Some(d2) && c3.files[i].thumb == tc
            &&& c4.files[i].date == Some(d2) && c4.files[i].thumb == td
        }),
{
    let i = c.files.len() as int;
    let c1 = upsert_model(c, marker, path, hash, None, ta);
    lemma_upsert_fresh_index(c, marker, path, hash, None, ta);
    lemma_upsert_wf(c, marker, path, hash, None, ta);
    let c2 = upsert_model(c1, marker, path, hash, Some(d), tb);
    lemma_upsert_known_index(c1, marker, path, hash, Some(d), tb);
    lemma_upsert_wf(c1, marker, path, hash, Some(d), tb);
    let c3 = upsert_model(c2, marker, path, hash, Some(d2), tc);
    lemma_upsert_known_index(c2, marker, path, hash, Some(d2), tc);
    lemma_upsert_wf(c2, marker, path, hash, Some(d2), tc);
    lemma_upsert_known_index(c3, marker, path, hash, None, td);
}

/// Whether the file at index `fid` carries some tag whose `hidden` flag is
/// set: the rule that keeps content out of default listings.
pub open spec fn is_hidden(c: CatalogModel, fid: int) -> bool {
    exists|k: int|
        0 <= k < c.file_tags.len() && #[trigger] c.file_tags[k].0 == fid && c.tags[c.file_tags[k].1].hidden
}

fn is_hidden_file(db: &Catalog, fid: usize) -> (r: bool)
    requires
        db@.wf(),
    ensures
        r == is_hidden(db@, fid as int),
{
    let mut k: usize = 0;
    while k < db.file_tags.len()
        invariant
            db@.wf(),
            k <= db.file_tags@.len(),
            forall|j: int|
                0 <= j < k ==> !(#[trigger] db@.file_tags[j].0 == fid as int
                    && db@.tags[db@.file_tags[j].1].hidden),
        decreases db.file_tags@.len() - k,
    {
        proof {
            assert(db@.file_tags[k as int] == (
                db.file_tags@[k as int].0 as int,
                db.file_tags@[k as int].1 as int,
            ));
        }
        if db.file_tags[k].0 == fid {
            let tid = db.file_tags[k].1;
            proof {
                assert(db@.tags[tid as int] == db.tags@[tid as int]@);
            }
            if db.tags[tid].hidden {
                return true;
            }
        }
        k = k + 1;
    }
    false
}

// ---------------------------------------------------------------------------
// The visible listing: by date, null dates first, hidden content left out.
// ---------------------------------------------------------------------------
/// Null sorts before any date; dates compare chronologically.
pub open spec fn date_key_lt(a: Option<DateTime>, b: Option<DateTime>) -> bool {
    match (a, b) {
        (Option::None, Option::Some(_)) => true,
        (Option::Some(x), Option::Some(y)) => spec_dt_lt(x, y),
        _ => false,
    }
}

/// The listing order on file indices: by date with null first, ties broken
/// by the older record first.
pub open spec fn key_lt(c: CatalogModel, a: int, b: int) -> bool {
    date_key_lt(c.files[a].date, c.files[b].date) || (c.files[a].date == c.files[b].date && a < b)
}

proof fn lemma_key_total(c: CatalogModel, a: int, b: int)
    ensures
        a != b ==> (key_lt(c, a, b) <==> !key_lt(c, b, a)),
        !key_lt(c, a, a),
{
}

proof fn lemma_key_trans(c: CatalogModel, a: int, b: int, d: int)
    requires
        key_lt(c, a, b),
        key_lt(c, b, d),
    ensures
        key_lt(c, a, d),
{
}

pub open spec fn sorted_ids(c: CatalogModel, s: Seq<int>) -> bool {
    forall|k: int, l: int| 0 <= k < l < s.len() ==> key_lt(c, s[k], s[l])
}

/// The visible file indices among the first `n` records, in record order.
pub open spec fn visible_ids_prefix(c: CatalogModel, n: int) -> Seq<int>
    decreases n,
{
    if n <= 0 {
        Seq::empty()
    } else if is_hidden(c, n - 1) {
        visible_ids_prefix(c, n - 1)
    } else {
        visible_ids_prefix(c, n - 1).push(n - 1)
    }
}

/// Insertion into a listing ordered by `key_lt`.
pub open spec fn insert_sorted(c: CatalogModel, s: Seq<int>, x: int) -> Seq<int>
    decreases s.len(),
{
    if s.len() == 0 {
        seq![x]
    } else if key_lt(c, x, s[0]) {
        seq![x] + s
    } else {
        seq![s[0]] + insert_sorted(c, s.drop_first(), x)
    }
}

pub open spec fn sort_ids(c: CatalogModel, ids: Seq<int>) -> Seq<int>
    decreases ids.len(),
{
    if ids.len() == 0 {
        Seq::empty()
    } else {
        insert_sorted(c, sort_ids(c, ids.drop_last()), ids.last())
    }
}

/// The full visible listing: every visible record exactly once, ordered by
/// `key_lt`.
pub open spec fn visible_sorted(c: CatalogModel) -> Seq<int> {
    sort_ids(c, visible_ids_prefix(c, c.files.len() as int))
}

/// Ordered insertion of a fresh element keeps the listing ordered, adds
/// exactly that element, and keeps everything that was there.
proof fn lemma_insert_sorted_props(c: CatalogModel, s: Seq<int>, x: int)
    requires
        sorted_ids(c, s),
        forall|k: int| 0 <= k < s.len() ==> s[k] != x,
    ensures
        sorted_ids(c, insert_sorted(c, s, x)),
        insert_sorted(c, s, x).len() == s.len() + 1,
        insert_sorted(c, s, x).contains(x),
        forall|j: int|
            0 <= j < insert_sorted(c, s, x).len() ==> (s.contains(
                #[trigger] insert_sorted(c, s, x)[j],
            ) || insert_sorted(c, s, x)[j] == x),
        forall|e: int| s.contains(e) ==> insert_sorted(c, s, x).contains(e),
    decreases s.len(),
{
    let t = insert_sorted(c, s, x);
    if s.len() == 0 {
        assert(t =~= seq![x]);
        assert(t[0] == x);
    } else if key_lt(c, x, s[0]) {
        assert(t =~= seq![x] + s);
        assert(t[0] == x);
        assert forall|k: int, l: int| 0 <= k < l < t.len() implies key_lt(c, t[k], t[l]) by {
            if k == 0 {
                if l == 1 {
                } else {
                    assert(key_lt(c, s[0], s[l - 1]));
                    lemma_key_trans(c, x, s[0], s[l - 1]);
                }
            } else {
                assert(t[k] == s[k - 1] && t[l] == s[l - 1]);
            }
        }
        assert forall|e: int| s.contains(e) implies t.contains(e) by {
            let w = choose|w: int| 0 <= w < s.len() && s[w] == e;
            assert(t[w + 1] == e);
        }
    } else {
        lemma_key_total(c, x, s[0]);
        assert(s[0] != x);
        assert(key_lt(c, s[0], x));
        let rest = s.drop_first();
        assert(forall|k: int, l: int| 0 <= k < l < rest.len() ==> key_lt(c, rest[k], rest[l]));
        lemma_insert_sorted_props(c, rest, x);
        let inner = insert_sorted(c, rest, x);
        assert(t =~= seq![s[0]] + inner);
        assert forall|k: int, l: int| 0 <= k < l < t.len() implies key_lt(c, t[k], t[l]) by {
            if k == 0 {
                assert(t[l] == inner[l - 1]);
                if rest.contains(inner[l - 1]) {
                    let w = choose|w: int| 0 <= w < rest.len() && rest[w] == inner[l - 1];
                    assert(key_lt(c, s[0], s[w + 1]));
                } else {
                    assert(inner[l - 1] == x);
                }
            } else {
                assert(t[k] == inner[k - 1] && t[l] == inner[l - 1]);
            }
        }
        assert forall|j: int|
            0 <= j < t.len() implies (s.contains(#[trigger] t[j]) || t[j] == x) by {
            if j == 0 {
                assert(s[0] == t[0]);
            } else {
                assert(t[j] == inner[j - 1]);
                if rest.contains(inner[j - 1]) {
                    let w = choose|w: int| 0 <= w < rest.len() && rest[w] == inner[j - 1];
                    assert(s[w + 1] == t[j]);
                }
            }
        }
        let wx = choose|w: int| 0 <= w < inner.len() && inner[w] == x;
        assert(t[wx + 1] == x);
        assert forall|e: int| s.contains(e) implies t.contains(e) by {
            let w = choose|w: int| 0 <= w < s.len() && s[w] == e;
            if w == 0 {
                assert(t[0] == e);
            } else {
                assert(rest[w - 1] == e);
                assert(rest.contains(e));
                assert(inner.contains(e));
                let v = choose|v: int| 0 <= v < inner.len() && inner[v] == e;
                assert(t[v + 1] == e);
            }
        }
    }
}

/// Sorting a listing of distinct identifiers orders it and keeps exactly
/// its elements.
proof fn lemma_sort_ids_props(c: CatalogModel, ids: Seq<int>)
    requires
        forall|i: int, j: int| 0 <= i < j < ids.len() ==> ids[i] != ids[j],
    ensures
        sorted_ids(c, sort_ids(c, ids)),
        sort_ids(c, ids).len() == ids.len(),
        forall|j: int|
            0 <= j < sort_ids(c, ids).len() ==> ids.contains(#[trigger] sort_ids(c, ids)[j]),
        forall|e: int| ids.contains(e) ==> sort_ids(c, ids).contains(e),
    decreases ids.len(),
{
    if ids.len() > 0 {
        let head = ids.drop_last();
        let x = ids.last();
        assert(forall|i: int, j: int| 0 <= i < j < head.len() ==> head[i] != head[j]);
        lemma_sort_ids_props(c, head);
        let sorted_head = sort_ids(c, head);
        assert forall|k: int| 0 <= k < sorted_head.len() implies sorted_head[k] != x by {
            assert(head.contains(sorted_head[k]));
            let w = choose|w: int| 0 <= w < head.len() && head[w] == sorted_head[k];
            assert(ids[w] != ids[ids.len() - 1]);
        }
        lemma_insert_sorted_props(c, sorted_head, x);
        let t = sort_ids(c, ids);
        assert forall|j: int| 0 <= j < t.len() implies ids.contains(#[trigger] t[j]) by {
            if sorted_head.contains(t[j]) {
                assert(head.contains(t[j]));
                let w = choose|w: int| 0 <= w < head.len() && head[w] == t[j];
                assert(ids[w] == t[j]);
            } else {
                assert(t[j] == x);
                assert(ids[ids.len() - 1] == x);
            }
        }
        assert forall|e: int| ids.contains(e) implies t.contains(e) by {
            let w = choose|w: int| 0 <= w < ids.len() && ids[w] == e;
            if w < ids.len() - 1 {
                assert(head[w] == e);
                assert(head.contains(e));
            } else {
                assert(e == x);
            }
        }
    }
}

/// The visible identifiers among the first `n` are exactly the not-hidden
/// ones below `n`, listed increasing.
proof fn lemma_visible_prefix_props(c: CatalogModel, n: int)
    ensures
        forall|j: int|
            0 <= j < visible_ids_prefix(c, n).len() ==> 0 <= #[trigger] visible_ids_prefix(c, n)[j]
                < n && !is_hidden(c, visible_ids_prefix(c, n)[j]),
        forall|id: int|
            0 <= id < n && !is_hidden(c, id) ==> visible_ids_prefix(c, n).contains(id),
        forall|i: int, j: int|
            0 <= i < j < visible_ids_prefix(c, n).len() ==> visible_ids_prefix(c, n)[i]
                < visible_ids_prefix(c, n)[j],
    decreases n,
{
    if n > 0 {
        lemma_visible_prefix_props(c, n - 1);
        let prev = visible_ids_prefix(c, n - 1);
        let cur = visible_ids_prefix(c, n);
        if !is_hidden(c, n - 1) {
            assert(cur =~= prev.push(n - 1));
            assert forall|id: int|
                0 <= id < n && !is_hidden(c, id) implies cur.contains(id) by {
                if id < n - 1 {
                    let w = choose|w: int| 0 <= w < prev.len() && prev[w] == id;
                    assert(cur[w] == id);
                } else {
                    assert(cur[cur.len() - 1] == id);
                }
            }
        } else {
            assert forall|id: int|
                0 <= id < n && !is_hidden(c, id) implies cur.contains(id) by {
                let w = choose|w: int| 0 <= w < prev.len() && prev[w] == id;
                assert(cur[w] == id);
            }
        }
    }
}

/// The visible listing is what it says: ordered by `key_lt`, containing
/// every file record not carrying a hidden tag exactly once, and nothing
/// else.
pub proof fn lemma_visible_listing(c: CatalogModel)
    ensures
        sorted_ids(c, visible_sorted(c)),
        forall|j: int|
            0 <= j < visible_sorted(c).len() ==> 0 <= #[trigger] visible_sorted(c)[j]
                < c.files.len() && !is_hidden(c, visible_sorted(c)[j]),
        forall|id: int|
            0 <= id < c.files.len() && !is_hidden(c, id) ==> visible_sorted(c).contains(id),
{
    let n = c.files.len() as int;
    lemma_visible_prefix_props(c, n);
    let ids = visible_ids_prefix(c, n);
    lemma_sort_ids_props(c, ids);
    let t = visible_sorted(c);
    assert forall|j: int|
        0 <= j < t.len() implies 0 <= #[trigger] t[j] < c.files.len() && !is_hidden(c, t[j]) by {
        assert(ids.contains(t[j]));
        let w = choose|w: int| 0 <= w < ids.len() && ids[w] == t[j];
        assert(0 <= ids[w] < n && !is_hidden(c, ids[w]));
    }
}

/// Inserting at the position the scan found is the ordered insertion.
proof fn lemma_insert_sorted_at(c: CatalogModel, s: Seq<int>, x: int, p: int)
    requires
        sorted_ids(c, s),
        0 <= p <= s.len(),
        forall|k: int| 0 <= k < p ==> key_lt(c, #[trigger] s[k], x),
        p < s.len() ==> key_lt(c, x, s[p]),
    ensures
        insert_sorted(c, s, x) == s.insert(p, x),
    decreases s.len(),
{
    if s.len() == 0 {
        assert(insert_sorted(c, s, x) =~= s.insert(0, x));
    } else if p == 0 {
        assert(key_lt(c, x, s[0]));
        assert(insert_sorted(c, s, x) =~= s.insert(0, x));
    } else {
        assert(key_lt(c, s[0], x));
        lemma_key_total(c, x, s[0]);
        assert(!key_lt(c, x, s[0]));
        let t = s.drop_first();
        assert(forall|k: int| 0 <= k < p - 1 ==> key_lt(c, #[trigger] t[k], x));
        lemma_insert_sorted_at(c, t, x, p - 1);
        assert(seq![s[0]] + t.insert(p - 1, x) =~= s.insert(p, x));
    }
}

/// The visible listing, as positions of file records, ordered by `key_lt`.
#[verifier::loop_isolation(false)]
fn visible_sorted_ids(db: &Catalog) -> (r: Vec<usize>)
    requires
        db@.wf(),
    ensures
        r@.map_values(|u: usize| u as int) == visible_sorted(db@),
        forall|k: int| 0 <= k < r@.len() ==> (#[trigger] r@[k]) < db@.files.len(),
{
    let ghost c = db@;
    let mut r: Vec<usize> = Vec::new();
    let mut fid: usize = 0;
    while fid < db.files.len()
        invariant
            db@.wf(),
            c == db@,
            fid <= db.files@.len(),
            c.files.len() == db.files@.len(),
            r@.map_values(|u: usize| u as int) =~= sort_ids(c, visible_ids_prefix(c, fid as int)),
            sorted_ids(c, r@.map_values(|u: usize| u as int)),
            forall|k: int| 0 <= k < r@.len() ==> (#[trigger] r@[k]) < fid,
        decreases db.files@.len() - fid,
    {
        let ghost rm = r@.map_values(|u: usize| u as int);
        if !is_hidden_file(db, fid) {
            // Find the first position whose key is past the new one.
            let mut p: usize = 0;
            while p < r.len() && !file_key_lt(db, fid, r[p])
                invariant
                    db@.wf(),
                    c == db@,
                    fid < c.files.len(),
                    rm == r@.map_values(|u: usize| u as int),
                    sorted_ids(c, rm),
                    forall|k: int| 0 <= k < r@.len() ==> (#[trigger] r@[k]) < fid,
                    p <= r@.len(),
                    forall|k: int| 0 <= k < p ==> !key_lt(c, fid as int, #[trigger] rm[k]),
                decreases r@.len() - p,
            {
                p = p + 1;
            }
            proof {
                assert forall|k: int| 0 <= k < p implies key_lt(c, #[trigger] rm[k], fid as int) by {
                    lemma_key_total(c, fid as int, rm[k]);
                }
                if p < rm.len() {
                    assert(key_lt(c, fid as int, rm[p as int]));
                }
                lemma_insert_sorted_at(c, rm, fid as int, p as int);
            }
            r.insert(p, fid);
            proof {
                let rm2 = r@.map_values(|u: usize| u as int);
                assert(rm2 =~= rm.insert(p as int, fid as int));
                assert(visible_ids_prefix(c, fid as int + 1) =~= visible_ids_prefix(
                    c,
                    fid as int,
                ).push(fid as int));
                let ids2 = visible_ids_prefix(c, fid as int + 1);
                assert(ids2.drop_last() =~= visible_ids_prefix(c, fid as int));
                assert(sort_ids(c, ids2) == insert_sorted(
                    c,
                    sort_ids(c, visible_ids_prefix(c, fid as int)),
                    fid as int,
                ));
                assert(rm2 =~= sort_ids(c, ids2));
                // The listing stays ordered around the insertion point.
                assert forall|k: int, l: int| 0 <= k < l < rm2.len() implies key_lt(
                    c,
                    rm2[k],
                    rm2[l],
                ) by {
                    if l < p {
                    } else if k > p {
                    } else if k == p && l > p {
                        assert(rm2[k] == fid as int);
                        assert(rm2[l] == rm[l - 1]);
                        if l - 1 > p {
                            assert(key_lt(c, rm[p as int], rm[l - 1]));
                            lemma_key_trans(c, fid as int, rm[p as int], rm[l - 1]);
                        }
                    } else if l == p {
                        assert(rm2[l] == fid as int);
                        assert(rm2[k] == rm[k]);
                        assert(key_lt(c, rm[k], fid as int));
                    } else if k < p && l > p {
                        assert(rm2[k] == rm[k]);
                        assert(rm2[l] == rm[l - 1]);
                        if l - 1 == p {
                            assert(key_lt(c, rm[k], fid as int));
                        } else {
                            assert(key_lt(c, rm[k], rm[l - 1]));
                        }
                    }
                }
            }
        } else {
            proof {
                assert(visible_ids_prefix(c, fid as int + 1) =~= visible_ids_prefix(
                    c,
                    fid as int,
                ));
            }
        }
        fid = fid + 1;
    }
    proof {
        assert(fid as int == c.files.len());
    }
    r
}

fn file_key_lt(db: &Catalog, a: usize, b: usize) -> (r: bool)
    requires
        a < db@.files.len(),
        b < db@.files.len(),
    ensures
        r == key_lt(db@, a as int, b as int),
{
    proof {
        assert(db@.files[a as int] == db.files@[a as int]@);
        assert(db@.files[b as int] == db.files@[b as int]@);
    }
    let da = db.files[a].date;
    let dbd = db.files[b].date;
    let date_lt = match (da, dbd) {
        (None, Some(_)) => true,
        (Some(x), Some(y)) => crate::datetime::dt_lt(&x, &y),
        _ => false,
    };
    let date_eq = match (da, dbd) {
        (None, None) => true,
        (Some(x), Some(y)) => x == y,
        _ => false,
    };
    date_lt || (date_eq && a < b)
}

/// Clamped window `[offset, offset + limit)` of a listing; a negative limit
/// means no limit and a negative offset means the start, as the storage
/// engine's paging treats them.
pub open spec fn window(s: Seq<int>, limit: i64, offset: i64) -> Seq<int> {
    let off = if offset < 0 {
        0
    } else if offset as int > s.len() {
        s.len() as int
    } else {
        offset as int
    };
    let end = if limit < 0 {
        s.len() as int
    } else if off + limit as int > s.len() {
        s.len() as int
    } else {
        off + limit as int
    };
    s.subrange(off, end)
}

/// The visible rows in the given window: row identifier and record, ordered
/// by date with null dates first, files carrying a hidden tag left out.
#[verifier::loop_isolation(false)]
pub fn visible_files_in_limit_and_offset(db: &Catalog, limit: i64, offset: i64) -> (r: Vec<
    (Rowid, FileInfo),
>)
    requires
        db@.wf(),
        db@.files.len() < i64::MAX,
    ensures
        r@.map_values(|p: (Rowid, FileInfo)| (p.0 as int, p.1@)) == window(
            visible_sorted(db@),
            limit,
            offset,
        ).map_values(|i: int| (i + 1, db@.files[i])),
{
    let full = visible_sorted_ids(db);
    let ghost s = full@.map_values(|u: usize| u as int);
    let off: usize = if offset < 0 {
        0
    } else if (offset as u64) > (full.len() as u64) {
        full.len()
    } else {
        offset as usize
    };
    let end: usize = if limit < 0 {
        full.len()
    } else if (off as u128) + (limit as u128) > (full.len() as u128) {
        full.len()
    } else {
        off + (limit as usize)
    };
    let ghost target = window(s, limit, offset).map_values(|i: int| (i + 1, db@.files[i]));
    proof {
        assert(window(s, limit, offset) =~= s.subrange(off as int, end as int));
    }
    let mut r: Vec<(Rowid, FileInfo)> = Vec::new();
    let mut k: usize = off;
    while k < end
        invariant
            db@.wf(),
            db@.files.len() < i64::MAX,
            s == full@.map_values(|u: usize| u as int),
            off <= k <= end <= full@.len(),
            forall|j: int| 0 <= j < full@.len() ==> (#[trigger] s[j]) < db@.files.len() && s[j] >= 0,
            target == window(s, limit, offset).map_values(|i: int| (i + 1, db@.files[i])),
            target.len() == end - off,
            r@.len() == k - off,
            forall|j: int|
                0 <= j < r@.len() ==> (#[trigger] r@[j].0) as int == target[j].0 && r@[j].1@
                    == target[j].1,
        decreases end - k,
    {
        let fid = full[k];
        proof {
            assert(s[k as int] == fid as int);
            assert(db@.files[fid as int] == db.files@[fid as int]@);
        }
        let rowid: i64 = (fid as i64) + 1;
        r.push((rowid, db.files[fid].duplicate()));
        k = k + 1;
    }
    proof {
        assert(r@.map_values(|p: (Rowid, FileInfo)| (p.0 as int, p.1@)) =~= target);
    }
    r
}

/// The row identifiers of the visible window, as the gallery pages them.
#[verifier::loop_isolation(false)]
pub fn visible_files_rowids(db: &Catalog, oal: OffsetAndLimit) -> (r: Vec<Rowid>)
    requires
        db@.wf(),
        db@.files.len() < i64::MAX,
    ensures
        r@.map_values(|x: Rowid| x as int) == window(
            visible_sorted(db@),
            oal.limit,
            oal.offset,
        ).map_values(|i: int| i + 1),
{
    let rows = visible_files_in_limit_and_offset(db, oal.limit, oal.offset);
    let ghost target = window(visible_sorted(db@), oal.limit, oal.offset).map_values(
        |i: int| i + 1,
    );
    let mut r: Vec<Rowid> = Vec::new();
    let mut k: usize = 0;
    while k < rows.len()
        invariant
            k <= rows@.len(),
            rows@.map_values(|p: (Rowid, FileInfo)| (p.0 as int, p.1@)) == window(
                visible_sorted(db@),
                oal.limit,
                oal.offset,
            ).map_values(|i: int| (i + 1, db@.files[i])),
            target == window(visible_sorted(db@), oal.limit, oal.offset).map_values(|i: int| i + 1),
            r@.len() == k,
            forall|j: int| 0 <= j < k ==> (#[trigger] r@[j]) as int == target[j],
        decreases rows@.len() - k,
    {
        proof {
            let w = window(visible_sorted(db@), oal.limit, oal.offset);
            let wm = w.map_values(|i: int| (i + 1, db@.files[i]));
            let rm = rows@.map_values(|p: (Rowid, FileInfo)| (p.0 as int, p.1@));
            assert(rm.len() == rows@.len());
            assert(rm[k as int] == wm[k as int]);
            assert(rm[k as int] == (rows@[k as int].0 as int, rows@[k as int].1@));
            assert(wm[k as int] == (w[k as int] + 1, db@.files[w[k as int]]));
            assert(target[k as int] == w[k as int] + 1);
        }
        r.push(rows[k].0);
        k = k + 1;
    }
    proof {
        assert(rows@.map_values(|p: (Rowid, FileInfo)| (p.0 as int, p.1@)).len() == window(
            visible_sorted(db@),
            oal.limit,
            oal.offset,
        ).map_values(|i: int| (i + 1, db@.files[i])).len());
        assert(r@.map_values(|x: Rowid| x as int) =~= target);
    }
    r
}

// ---------------------------------------------------------------------------
// Tag counts over a selection.
// ---------------------------------------------------------------------------
/// Whether a selection of row identifiers names the file at index `fid`.
pub open spec fn ids_contain_file(ids: Seq<i64>, fid: int) -> bool {
    exists|j: int| 0 <= j < ids.len() && ids[j] == fid + 1
}

/// Among the first `n` associations, how many pair a selected file with tag
/// `t`.
pub open spec fn tag_count_prefix(c: CatalogModel, ids: Seq<i64>, t: int, n: int) -> nat
    decreases n,
{
    if n <= 0 {
        0
    } else {
        tag_count_prefix(c, ids, t, n - 1) + if c.file_tags[n - 1].1 == t && ids_contain_file(
            ids,
            c.file_tags[n - 1].0,
        ) {
            1nat
        } else {
            0nat
        }
    }
}

/// How many of the selected files carry tag `t`. Associations are unique
/// pairs, so this counts files, not rows.
pub open spec fn tag_count(c: CatalogModel, ids: Seq<i64>, t: int) -> nat {
    tag_count_prefix(c, ids, t, c.file_tags.len() as int)
}

fn ids_have_file(ids: &Vec<Rowid>, fid: usize) -> (r: bool)
    ensures
        r == ids_contain_file(ids@, fid as int),
{
    let mut j: usize = 0;
    while j < ids.len()
        invariant
            j <= ids@.len(),
            forall|l: int| 0 <= l < j ==> ids@[l] != fid as int + 1,
        decreases ids@.len() - j,
    {
        if ids[j] >= 1 && ((ids[j] - 1) as u64) == (fid as u64) {
            return true;
        }
        j = j + 1;
    }
    false
}

/// For every tag, in tag order: its name, its hidden flag, and how many of
/// the given rows carry it — the tri-state source for a selection panel.
#[verifier::loop_isolation(false)]
pub fn tags_for_file_ids(db: &Catalog, ids: &Vec<Rowid>) -> (r: Vec<(String, bool, usize)>)
    requires
        db@.wf(),
    ensures
        r@.len() == db@.tags.len(),
        forall|t: int|
            0 <= t < r@.len() ==> (#[trigger] r@[t]).0@ == db@.tags[t].name && r@[t].1
                == db@.tags[t].hidden && r@[t].2 as nat == tag_count(db@, ids@, t),
{
    let mut r: Vec<(String, bool, usize)> = Vec::new();
    let mut t: usize = 0;
    while t < db.tags.len()
        invariant
            db@.wf(),
            t <= db.tags@.len(),
            r@.len() == t,
            forall|u: int|
                0 <= u < t ==> (#[trigger] r@[u]).0@ == db@.tags[u].name && r@[u].1
                    == db@.tags[u].hidden && r@[u].2 as nat == tag_count(db@, ids@, u),
        decreases db.tags@.len() - t,
    {
        proof {
            assert(db@.tags[t as int] == db.tags@[t as int]@);
        }
        let mut count: usize = 0;
        let mut k: usize = 0;
        while k < db.file_tags.len()
            invariant
                db@.wf(),
                t < db.tags@.len(),
                k <= db.file_tags@.len(),
                count as nat == tag_count_prefix(db@, ids@, t as int, k as int),
                count <= k,
            decreases db.file_tags@.len() - k,
        {
            proof {
                assert(db@.file_tags[k as int] == (
                    db.file_tags@[k as int].0 as int,
                    db.file_tags@[k as int].1 as int,
                ));
            }
            if db.file_tags[k].1 == t {
                if ids_have_file(ids, db.file_tags[k].0) {
                    count = count + 1;
                }
            }
            k = k + 1;
        }
        r.push((db.tags[t].name.clone(), db.tags[t].hidden, count));
        t = t + 1;
    }
    r
}

} // verus!
