//! The scan engine: content hashing, capture-date resolution, the two scan
//! stages over one tree, and the coordinator that runs every configured
//! tree.
//!
//! The filesystem enters as plain values: what the marker decoder found, and
//! each matched file's bytes (or the failure reading them). Everything
//! decided about those values is verified; the digest, EXIF, thumbnail and
//! regular-expression computations stand behind trusted wrappers.

use vstd::prelude::*;

use crate::config::{rules_view, spec_rules_for, DatePath, DatePathModel, DatePathsPerMarker};
use crate::datetime::{spec_parse_datetime, parse_datetime, DateTime};
use crate::db::{self, remove_model, upsert_model, Catalog, CatalogModel};
use crate::imaging::{
    exif_datetime, exif_datetime_of, exif_datetime_original, exif_datetime_original_of, ExifFields,
};
use crate::model::FileInfo;
use crate::strutil::{lemma_hex_lower_len, spec_hex_lower, str_eq, to_hex_lower};

verus! {

// ---------------------------------------------------------------------------
// The outside computations the engine relies on.
// ---------------------------------------------------------------------------
/// The SHA-1 digest of a byte string; a function of the bytes alone.
pub uninterp spec fn sha1_of(data: Seq<u8>) -> Seq<u8>;

/// Relies on sha1::Sha1::digest: the digest depends on the bytes alone, and
/// SHA-1 output is 20 bytes.
#[verifier::external_body]
fn sha1_digest(data: &[u8]) -> (r: Vec<u8>)
    ensures
        r@ == sha1_of(data@),
        r@.len() == 20,
{
    <sha1::Sha1 as sha1::Digest>::digest(data).to_vec()
}

/// The stored form of a content hash: the digest pretty-printed as
/// lower-case hex.
pub open spec fn spec_content_hash(data: Seq<u8>) -> Seq<char> {
    spec_hex_lower(sha1_of(data))
}

/// Calculates the hash of the buffer's contents, in the pretty-printed form
/// the catalog stores.
pub fn hash(buf: &[u8]) -> (r: String)
    ensures
        r@ == spec_content_hash(buf@),
        r@.len() == 40,
{
    let d = sha1_digest(buf);
    proof {
        lemma_hex_lower_len(d@);
    }
    to_hex_lower(&d)
}

/// What the thumbnail codec yields for these bytes: decoded as an image
/// (format guessed from the bytes), resized within `w` by `h`, re-encoded as
/// JPEG at `quality`; none when the bytes do not decode. A function of the
/// arguments alone.
pub uninterp spec fn thumbnail_of(data: Seq<u8>, w: u32, h: u32, quality: u8) -> Option<Seq<u8>>;

/// Relies on image::ImageReader::with_guessed_format and decode,
/// DynamicImage::resize with the Catmull-Rom filter, and
/// jpeg::JpegEncoder::new_with_quality: the result depends on the bytes and
/// bounds alone; any decode or encode failure yields none.
#[verifier::external_body]
fn make_thumbnail(data: &[u8], w: u32, h: u32, quality: u8) -> (r: Option<Vec<u8>>)
    ensures
        match r {
            Some(t) => thumbnail_of(data@, w, h, quality) == Some(t@),
            None => thumbnail_of(data@, w, h, quality) is None,
        },
{
    let reader = image::ImageReader::new(std::io::Cursor::new(data)).with_guessed_format().ok()?;
    let img = reader.decode().ok()?;
    let thumb = img.resize(w, h, image::imageops::FilterType::CatmullRom);
    let mut out = Vec::new();
    let mut enc = image::codecs::jpeg::JpegEncoder::new_with_quality(&mut out, quality);
    enc.encode_image(&thumb).ok()?;
    Some(out)
}

/// What expanding one date-path rule yields: compile `pattern`, match it
/// against `text`, and expand `template` from the captures; none when the
/// pattern does not compile or does not match. A function of the arguments
/// alone.
pub uninterp spec fn rule_expansion(
    pattern: Seq<char>,
    text: Seq<char>,
    template: Seq<char>,
) -> Option<Seq<char>>;

/// Relies on regex::Regex::new, Regex::captures and Captures::expand: the
/// expansion depends on the pattern, the text and the template alone.
#[verifier::external_body]
fn expand_rule(pattern: &str, text: &str, template: &str) -> (r: Option<String>)
    ensures
        match r {
            Some(s) => rule_expansion(pattern@, text@, template@) == Some(s@),
            None => rule_expansion(pattern@, text@, template@) is None,
        },
{
    let re = regex::Regex::new(pattern).ok()?;
    let caps = re.captures(text)?;
    let mut buf = String::new();
    caps.expand(template, &mut buf);
    Some(buf)
}

// ---------------------------------------------------------------------------
// Capture-date resolution: EXIF first, then the path rules, in order.
// ---------------------------------------------------------------------------
/// The date an EXIF block yields: the primary capture-time tag first, then
/// the original-time tag; the first whose fields form a real calendar
/// moment.
pub open spec fn spec_exif_resolved(f: ExifFields) -> Option<DateTime> {
    if f.datetime is Some && f.datetime.unwrap().spec_to_naive() is Some {
        f.datetime.unwrap().spec_to_naive()
    } else if f.datetime_original is Some && f.datetime_original.unwrap().spec_to_naive() is Some {
        f.datetime_original.unwrap().spec_to_naive()
    } else {
        None
    }
}

/// The date the path rules yield: the rules are tried in the caller's
/// order; the first whose expansion parses wins. A rule whose pattern does
/// not match, or whose expansion parses under neither layout, is passed
/// over.
pub open spec fn spec_rules_resolved(rules: Seq<DatePathModel>, path: Seq<char>) -> Option<
    DateTime,
>
    decreases rules.len(),
{
    if rules.len() == 0 {
        None
    } else {
        let head = match rule_expansion(rules[0].path, path, rules[0].date) {
            Option::Some(s) => spec_parse_datetime(s),
            Option::None => None,
        };
        if head is Some {
            head
        } else {
            spec_rules_resolved(rules.drop_first(), path)
        }
    }
}

/// The resolved capture date: EXIF beats the path rules; no date at all is a
/// valid outcome, not an error.
pub open spec fn spec_deduced_date(
    exif: Option<ExifFields>,
    path: Seq<char>,
    rules: Seq<DatePathModel>,
) -> Option<DateTime> {
    match exif {
        Option::Some(f) => {
            if spec_exif_resolved(f) is Some {
                spec_exif_resolved(f)
            } else {
                spec_rules_resolved(rules, path)
            }
        },
        Option::None => spec_rules_resolved(rules, path),
    }
}

/// Tries hard to find some datetime info, from the EXIF fields or from the
/// file's relative path, as `spec_deduced_date` says.
#[verifier::loop_isolation(false)]
pub fn try_deduce_date(
    exif: Option<&ExifFields>,
    relative_path: &str,
    date_paths: &Vec<DatePath>,
) -> (r: Option<DateTime>)
    ensures
        r == spec_deduced_date(
            match exif {
                Option::Some(f) => Some(*f),
                Option::None => None::<ExifFields>,
            },
            relative_path@,
            rules_view(date_paths@),
        ),
{
    if let Some(f) = exif {
        if let Some(e) = f.datetime {
            if let Some(d) = e.to_naive_opt() {
                return Some(d);
            }
        }
        if let Some(e) = f.datetime_original {
            if let Some(d) = e.to_naive_opt() {
                return Some(d);
            }
        }
    }
    let ghost rules = rules_view(date_paths@);
    proof {
        assert(rules.skip(0) =~= rules);
    }
    let mut i: usize = 0;
    while i < date_paths.len()
        invariant
            i <= date_paths@.len(),
            spec_rules_resolved(rules, relative_path@) == spec_rules_resolved(
                rules.skip(i as int),
                relative_path@,
            ),
        decreases date_paths@.len() - i,
    {
        proof {
            assert(rules[i as int] == date_paths@[i as int]@);
            assert(rules.skip(i as int)[0] == rules[i as int]);
            assert(rules.skip(i as int).drop_first() =~= rules.skip(i as int + 1));
        }
        if let Some(buf) = expand_rule(
            date_paths[i].path.as_str(),
            relative_path,
            date_paths[i].date.as_str(),
        ) {
            if let Some(d) = parse_datetime(buf.as_str()) {
                return Some(d);
            }
        }
        i = i + 1;
    }
    None
}

/// Date-resolution priority law: when the EXIF block carries a valid
/// primary capture time, the resolved date is that EXIF date, whatever the
/// path rules would say.
pub proof fn lemma_exif_beats_rules(f: ExifFields, path: Seq<char>, rules: Seq<DatePathModel>)
    requires
        f.datetime is Some,
        f.datetime.unwrap().spec_to_naive() is Some,
    ensures
        spec_deduced_date(Some(f), path, rules) == f.datetime.unwrap().spec_to_naive(),
{
}

/// Path-rule fallback law: a rule whose pattern matches but whose expansion
/// parses under neither layout is passed over, and the next rule that
/// parses supplies the date.
pub proof fn lemma_rule_fallback(
    r1: DatePathModel,
    r2: DatePathModel,
    path: Seq<char>,
    s1: Seq<char>,
    s2: Seq<char>,
)
    requires
        rule_expansion(r1.path, path, r1.date) == Some(s1),
        spec_parse_datetime(s1) is None,
        rule_expansion(r2.path, path, r2.date) == Some(s2),
        spec_parse_datetime(s2) is Some,
    ensures
        spec_rules_resolved(seq![r1, r2], path) == spec_parse_datetime(s2),
        spec_deduced_date(None, path, seq![r1, r2]) == spec_parse_datetime(s2),
{
    let rs = seq![r1, r2];
    assert(rs[0] == r1);
    assert(rs.drop_first() =~= seq![r2]);
    assert(seq![r2][0] == r2);
    assert(spec_rules_resolved(seq![r2], path) == spec_parse_datetime(s2));
    assert(spec_rules_resolved(rs, path) == spec_rules_resolved(rs.drop_first(), path));
}

// ---------------------------------------------------------------------------
// Trees and how they fail to open.
// ---------------------------------------------------------------------------
/// Why a tree cannot be opened: its marker identity file is absent (the
/// tree is offline — routine, not fatal to sibling trees), or present but
/// unreadable or malformed (a real error), with the causes as a message
/// chain.
#[derive(Debug)]
pub enum TreeError {
    NotFound(String),
    Other { path: String, chain: Vec<String> },
}

pub enum TreeErrorModel {
    NotFound(Seq<char>),
    Other { path: Seq<char>, chain: Seq<Seq<char>> },
}

impl View for TreeError {
    type V = TreeErrorModel;

    open spec fn view(&self) -> TreeErrorModel {
        match self {
            TreeError::NotFound(p) => TreeErrorModel::NotFound(p@),
            TreeError::Other { path, chain } => TreeErrorModel::Other {
                path: path@,
                chain: chain@.map_values(|s: String| s@),
            },
        }
    }
}

/// What the marker identity decoder found at a marker path: nothing there;
/// a file that would not read or decode, with the causes; or the decoded
/// identity, together with the tree root (the marker file's parent).
#[derive(Debug)]
pub enum MarkerRead {
    NotFound,
    Unreadable(Vec<String>),
    Found { root: String, id: String },
}

/// One tree to scan: its stable marker identity, its current root on disk,
/// and the date-path rules configured for the marker.
#[derive(Debug)]
pub struct Tree {
    pub marker: String,
    pub root: String,
    pub date_paths: Vec<DatePath>,
}

impl Tree {
    /// Turns what the marker decoder found into a tree: an absent identity
    /// file is `NotFound` (skip the tree, do not fail the run); an
    /// unreadable one is `Other`; otherwise the tree gets the rules
    /// configured for its identity.
    pub fn open(
        marker_path: &str,
        read: MarkerRead,
        date_paths_per_marker: &DatePathsPerMarker,
    ) -> (r: Result<Tree, TreeError>)
        ensures
            match read {
                MarkerRead::NotFound => r matches Err(e) && e@ == TreeErrorModel::NotFound(
                    marker_path@,
                ),
                MarkerRead::Unreadable(chain) => r matches Err(e) && e@ == (
                TreeErrorModel::Other {
                    path: marker_path@,
                    chain: chain@.map_values(|s: String| s@),
                }),
                MarkerRead::Found { root, id } => r matches Ok(t) && t.marker@ == id@ && t.root@
                    == root@ && rules_view(t.date_paths@) == spec_rules_for(
                    crate::config::dpm_view(date_paths_per_marker@),
                    id@,
                ),
            },
    {
        match read {
            MarkerRead::NotFound => Err(TreeError::NotFound(marker_path.to_owned())),
            MarkerRead::Unreadable(chain) => Err(
                TreeError::Other { path: marker_path.to_owned(), chain },
            ),
            MarkerRead::Found { root, id } => {
                let date_paths = crate::config::rules_for(date_paths_per_marker, id.as_str());
                Ok(Tree { marker: id, root, date_paths })
            },
        }
    }

    /// The walker configuration for this tree: its root, with the JPEG
    /// extension matcher.
    pub fn walker(&self) -> (r: crate::pathwalk::Files)
        ensures
            r@.root == self.root@,
            r@.matchers.len() == 1,
            r@.matchers[0] == seq!["jpg"@, "jpeg"@],
    {
        let mut exts: Vec<String> = Vec::new();
        exts.push("jpg".to_owned());
        exts.push("jpeg".to_owned());
        let mut matchers: Vec<Box<crate::pathwalk::CaseInsensitiveExtensions>> = Vec::new();
        matchers.push(crate::pathwalk::CaseInsensitiveExtensions::boxed(exts));
        let files = crate::pathwalk::Files::new(self.root.as_str(), matchers);
        proof {
            assert(files@.matchers[0] =~= seq!["jpg"@, "jpeg"@]);
            assert(files@.matchers =~= seq![seq!["jpg"@, "jpeg"@]]);
        }
        files
    }
}

// ---------------------------------------------------------------------------
// Stage 1: ingest and refresh.
// ---------------------------------------------------------------------------
/// How reading one file from disk went: its bytes, or the file was not
/// there, or some other I/O failure with its description.
#[derive(Debug)]
pub enum ReadResult {
    Data(Vec<u8>),
    NotFound,
    Error(String),
}

pub enum ReadModel {
    Data(Seq<u8>),
    NotFound,
    Error(Seq<char>),
}

impl View for ReadResult {
    type V = ReadModel;

    open spec fn view(&self) -> ReadModel {
        match self {
            ReadResult::Data(d) => ReadModel::Data(d@),
            ReadResult::NotFound => ReadModel::NotFound,
            ReadResult::Error(m) => ReadModel::Error(m@),
        }
    }
}

/// One matched file of a scanned tree: its root-relative slash path, and how
/// reading its bytes went.
#[derive(Debug)]
pub struct FsEntry {
    pub path: String,
    pub read: ReadResult,
}

pub struct FsEntryModel {
    pub path: Seq<char>,
    pub read: ReadModel,
}

impl View for FsEntry {
    type V = FsEntryModel;

    open spec fn view(&self) -> FsEntryModel {
        FsEntryModel { path: self.path@, read: self.read@ }
    }
}

pub open spec fn entries_view(v: Seq<FsEntry>) -> Seq<FsEntryModel> {
    v.map_values(|e: FsEntry| e@)
}

/// Whether a file already catalogued at its location is skipped cheaply or
/// refreshed in place.
#[derive(Clone, Copy, Debug, PartialEq, Eq, Structural)]
pub enum OnExisting {
    Skip,
    Refresh,
}

/// The thumbnail bounds and JPEG quality the scanner uses.
pub const THUMB_WIDTH: u32 = 200;

pub const THUMB_HEIGHT: u32 = 200;

pub const THUMB_QUALITY: u8 = 90;

/// What one matched, readable file does to the catalog in one stage-1 step:
/// nothing when its location is already catalogued in skip mode; nothing
/// (the file is never catalogued) when its bytes do not decode as an image;
/// otherwise an upsert under its content hash, with the resolved date and
/// the fresh thumbnail.
pub open spec fn spec_ingest(
    c: CatalogModel,
    marker: Seq<char>,
    rules: Seq<DatePathModel>,
    mode: OnExisting,
    path: Seq<char>,
    data: Seq<u8>,
) -> CatalogModel {
    if mode is Skip && c.has_loc(marker, path) {
        c
    } else {
        match thumbnail_of(data, 200, 200, 90) {
            Option::None => c,
            Option::Some(t) => upsert_model(
                c,
                marker,
                path,
                spec_content_hash(data),
                spec_deduced_date(
                    Some(
                        ExifFields {
                            datetime: exif_datetime_of(data),
                            datetime_original: exif_datetime_original_of(data),
                        },
                    ),
                    path,
                    rules,
                ),
                t,
            ),
        }
    }
}

/// How one stage-1 step went for a file whose bytes were readable.
#[derive(Clone, Copy, Debug, PartialEq, Eq, Structural)]
pub enum IngestOutcome {
    SkippedExisting,
    DecodeFailed,
    Ingested,
}

/// Ingests one matched file, as `spec_ingest` says: the catalog mutates
/// exactly there, and the outcome names which branch was taken.
pub fn ingest_file(
    db: &mut Catalog,
    marker: &str,
    relative: &str,
    data: &Vec<u8>,
    date_paths: &Vec<DatePath>,
    on_existing: OnExisting,
) -> (r: IngestOutcome)
    requires
        old(db)@.wf(),
    ensures
        final(db)@ == spec_ingest(
            old(db)@,
            marker@,
            rules_view(date_paths@),
            on_existing,
            relative@,
            data@,
        ),
        final(db)@.wf(),
        r is SkippedExisting <==> (on_existing is Skip && old(db)@.has_loc(marker@, relative@)),
        r is DecodeFailed <==> (!(on_existing is Skip && old(db)@.has_loc(marker@, relative@))
            && thumbnail_of(data@, 200, 200, 90) is None),
{
    if on_existing == OnExisting::Skip && db::location_exists(db, marker, relative) {
        return IngestOutcome::SkippedExisting;
    }
    let h = hash(data.as_slice());
    let fields = ExifFields {
        datetime: exif_datetime(data.as_slice()),
        datetime_original: exif_datetime_original(data.as_slice()),
    };
    let date = try_deduce_date(Some(&fields), relative, date_paths);
    let thumb = match make_thumbnail(data.as_slice(), THUMB_WIDTH, THUMB_HEIGHT, THUMB_QUALITY) {
        Some(t) => t,
        None => {
            return IngestOutcome::DecodeFailed;
        },
    };
    let info = FileInfo { hash: h, date, thumb };
    db::upsert(db, marker, relative, &info);
    IngestOutcome::Ingested
}

/// What stage 1 does to the catalog over a tree's matched files, in walk
/// order: each readable file as `spec_ingest` says; a file whose bytes could
/// not be read is skipped alone, never failing the tree.
pub open spec fn spec_stage1(
    c: CatalogModel,
    marker: Seq<char>,
    rules: Seq<DatePathModel>,
    mode: OnExisting,
    entries: Seq<FsEntryModel>,
) -> CatalogModel
    decreases entries.len(),
{
    if entries.len() == 0 {
        c
    } else {
        let c1 = match entries[0].read {
            ReadModel::Data(d) => spec_ingest(c, marker, rules, mode, entries[0].path, d),
            _ => c,
        };
        spec_stage1(c1, marker, rules, mode, entries.drop_first())
    }
}

/// Stage 1 over one tree: adds not-yet-known files to the catalog (or
/// refreshes known ones), as `spec_stage1` says. Returns how many files were
/// ingested, for progress reporting.
#[verifier::loop_isolation(false)]
pub fn stage1(db: &mut Catalog, tree: &Tree, entries: &Vec<FsEntry>, on_existing: OnExisting) -> (n:
    usize)
    requires
        old(db)@.wf(),
    ensures
        final(db)@ == spec_stage1(
            old(db)@,
            tree.marker@,
            rules_view(tree.date_paths@),
            on_existing,
            entries_view(entries@),
        ),
        final(db)@.wf(),
{
    let ghost c0 = db@;
    let ghost evs = entries_view(entries@);
    proof {
        assert(evs.skip(0) =~= evs);
    }
    let mut ingested: usize = 0;
    let mut i: usize = 0;
    while i < entries.len()
        invariant
            i <= entries@.len(),
            db@.wf(),
            ingested <= i,
            spec_stage1(c0, tree.marker@, rules_view(tree.date_paths@), on_existing, evs)
                == spec_stage1(
                db@,
                tree.marker@,
                rules_view(tree.date_paths@),
                on_existing,
                evs.skip(i as int),
            ),
        decreases entries@.len() - i,
    {
        proof {
            assert(evs[i as int] == entries@[i as int]@);
            assert(evs.skip(i as int)[0] == evs[i as int]);
            assert(evs.skip(i as int).drop_first() =~= evs.skip(i as int + 1));
        }
        match &entries[i].read {
            ReadResult::Data(d) => {
                let outcome = ingest_file(
                    db,
                    tree.marker.as_str(),
                    entries[i].path.as_str(),
                    d,
                    &tree.date_paths,
                    on_existing,
                );
                if outcome == IngestOutcome::Ingested {
                    ingested = ingested + 1;
                }
            },
            _ => {},
        }
        i = i + 1;
    }
    ingested
}

// ---------------------------------------------------------------------------
// Stage 2: reconciliation against what is still on disk.
// ---------------------------------------------------------------------------
/// How reading the file at `path` went, in a tree given as entries: the
/// first entry under that path decides; a path with no entry was not found
/// on disk.
pub open spec fn spec_read_of(entries: Seq<FsEntryModel>, path: Seq<char>) -> ReadModel
    decreases entries.len(),
{
    if entries.len() == 0 {
        ReadModel::NotFound
    } else if entries[0].path == path {
        entries[0].read
    } else {
        spec_read_of(entries.drop_first(), path)
    }
}

/// A reconciliation warning: the bytes now at `path` hash to `disk_hash`,
/// not the catalogued `db_hash`. Reported for the operator; never repaired
/// automatically.
#[derive(Debug)]
pub struct HashMismatch {
    pub path: String,
    pub disk_hash: String,
    pub db_hash: String,
}

impl View for HashMismatch {
    type V = (Seq<char>, Seq<char>, Seq<char>);

    open spec fn view(&self) -> (Seq<char>, Seq<char>, Seq<char>) {
        (self.path@, self.disk_hash@, self.db_hash@)
    }
}

pub open spec fn mismatches_view(v: Seq<HashMismatch>) -> Seq<(Seq<char>, Seq<char>, Seq<char>)> {
    v.map_values(|m: HashMismatch| m@)
}

/// How far one reconciliation pass got: the catalog it left behind, the
/// hash mismatches it saw, and the ambiguous I/O failure that stopped it,
/// if one did (the catalog keeps the removals made up to that point).
pub struct Stage2Model {
    pub catalog: CatalogModel,
    pub mismatches: Seq<(Seq<char>, Seq<char>, Seq<char>)>,
    pub failure: Option<Seq<char>>,
}

/// What reconciling the listed locations does, in order: a location whose
/// file is gone is removed (the content record stays); a readable file with
/// a changed hash is reported, the catalog untouched; any other read
/// failure stops the pass as a tree-level error — a permissions error must
/// never be mistaken for deletion.
pub open spec fn spec_stage2_items(
    c: CatalogModel,
    marker: Seq<char>,
    items: Seq<(Seq<char>, Seq<char>)>,
    entries: Seq<FsEntryModel>,
) -> Stage2Model
    decreases items.len(),
{
    if items.len() == 0 {
        Stage2Model { catalog: c, mismatches: Seq::empty(), failure: None }
    } else {
        let path = items[0].0;
        let db_hash = items[0].1;
        match spec_read_of(entries, path) {
            ReadModel::Data(d) => {
                let rest = spec_stage2_items(c, marker, items.drop_first(), entries);
                if spec_content_hash(d) == db_hash {
                    rest
                } else {
                    Stage2Model {
                        catalog: rest.catalog,
                        mismatches: seq![(path, spec_content_hash(d), db_hash)] + rest.mismatches,
                        failure: rest.failure,
                    }
                }
            },
            ReadModel::NotFound => spec_stage2_items(
                remove_model(c, marker, path),
                marker,
                items.drop_first(),
                entries,
            ),
            ReadModel::Error(m) => Stage2Model { catalog: c, mismatches: Seq::empty(), failure: Some(m) },
        }
    }
}

/// What stage 2 does: reconcile every location catalogued under the tree's
/// marker, in catalog order, against the tree's files.
pub open spec fn spec_stage2(
    c: CatalogModel,
    marker: Seq<char>,
    entries: Seq<FsEntryModel>,
) -> Stage2Model {
    spec_stage2_items(c, marker, db::marker_items(c, marker), entries)
}

/// The position of the first entry under `path`, if any.
fn find_entry(entries: &Vec<FsEntry>, path: &str) -> (r: Option<usize>)
    ensures
        match r {
            Some(i) => i < entries@.len() && entries@[i as int].path@ == path@ && (forall|j: int|
                0 <= j < i ==> (#[trigger] entries@[j])@.path != path@),
            None => forall|j: int|
                0 <= j < entries@.len() ==> (#[trigger] entries@[j])@.path != path@,
        },
{
    let mut i: usize = 0;
    while i < entries.len()
        invariant
            i <= entries@.len(),
            forall|j: int| 0 <= j < i ==> (#[trigger] entries@[j])@.path != path@,
        decreases entries@.len() - i,
    {
        if str_eq(entries[i].path.as_str(), path) {
            return Some(i);
        }
        i = i + 1;
    }
    None
}

/// The first entry under `path` decides how the read went.
proof fn lemma_read_of_found(entries: Seq<FsEntryModel>, path: Seq<char>, i: int)
    requires
        0 <= i < entries.len(),
        entries[i].path == path,
        forall|j: int| 0 <= j < i ==> (#[trigger] entries[j]).path != path,
    ensures
        spec_read_of(entries, path) == entries[i].read,
    decreases entries.len(),
{
    if i > 0 {
        lemma_read_of_found(entries.drop_first(), path, i - 1);
    }
}

proof fn lemma_read_of_absent(entries: Seq<FsEntryModel>, path: Seq<char>)
    requires
        forall|j: int| 0 <= j < entries.len() ==> (#[trigger] entries[j]).path != path,
    ensures
        spec_read_of(entries, path) is NotFound,
    decreases entries.len(),
{
    if entries.len() > 0 {
        lemma_read_of_absent(entries.drop_first(), path);
    }
}

/// Stage 2 over one tree: checks every catalogued location of the tree's
/// marker against the disk, as `spec_stage2` says; missing files lose their
/// location (content records stay), changed hashes come back as warnings,
/// and any other read failure surfaces as the tree-level error.
#[verifier::loop_isolation(false)]
pub fn stage2(db: &mut Catalog, tree: &Tree, entries: &Vec<FsEntry>) -> (r: Result<
    Vec<HashMismatch>,
    String,
>)
    requires
        old(db)@.wf(),
    ensures
        final(db)@ == spec_stage2(old(db)@, tree.marker@, entries_view(entries@)).catalog,
        final(db)@.wf(),
        match r {
            Ok(w) => spec_stage2(old(db)@, tree.marker@, entries_view(entries@)).failure is None
                && mismatches_view(w@) == spec_stage2(
                old(db)@,
                tree.marker@,
                entries_view(entries@),
            ).mismatches,
            Err(e) => spec_stage2(old(db)@, tree.marker@, entries_view(entries@)).failure == Some(
                e@,
            ),
        },
{
    let ghost c0 = db@;
    let ghost evs = entries_view(entries@);
    let items = db::hashes(db, tree.marker.as_str());
    let ghost items_v = db::marker_items(c0, tree.marker@);
    let ghost m0 = spec_stage2_items(c0, tree.marker@, items_v, evs);
    proof {
        assert(items_v.skip(0) =~= items_v);
    }
    let mut warnings: Vec<HashMismatch> = Vec::new();
    let mut k: usize = 0;
    while k < items.len()
        invariant
            k <= items@.len(),
            db@.wf(),
            items@.map_values(|p: (String, String)| (p.0@, p.1@)) == items_v,
            m0 == ({
                let rest = spec_stage2_items(db@, tree.marker@, items_v.skip(k as int), evs);
                Stage2Model {
                    catalog: rest.catalog,
                    mismatches: mismatches_view(warnings@) + rest.mismatches,
                    failure: rest.failure,
                }
            }),
        decreases items@.len() - k,
    {
        proof {
            assert(items_v[k as int] == (items@[k as int].0@, items@[k as int].1@));
            assert(items_v.skip(k as int)[0] == items_v[k as int]);
            assert(items_v.skip(k as int).drop_first() =~= items_v.skip(k as int + 1));
        }
        let ghost cpre = db@;
        let ghost rest_k = spec_stage2_items(cpre, tree.marker@, items_v.skip(k as int), evs);
        let path = &items[k].0;
        let db_hash = &items[k].1;
        let found = find_entry(entries, path.as_str());
        match found {
            None => {
                proof {
                    assert forall|j: int| 0 <= j < evs.len() implies (#[trigger] evs[j]).path
                        != path@ by {
                        assert(evs[j] == entries@[j]@);
                    }
                    lemma_read_of_absent(evs, path@);
                }
                db::remove(db, tree.marker.as_str(), path.as_str());
                proof {
                    assert(rest_k == spec_stage2_items(
                        db@,
                        tree.marker@,
                        items_v.skip(k as int + 1),
                        evs,
                    ));
                }
            },
            Some(i) => {
                proof {
                    assert(evs[i as int] == entries@[i as int]@);
                    assert forall|j: int| 0 <= j < i implies (#[trigger] evs[j]).path != path@ by {
                        assert(evs[j] == entries@[j]@);
                    }
                    lemma_read_of_found(evs, path@, i as int);
                }
                match &entries[i].read {
                    ReadResult::Data(d) => {
                        let disk_hash = hash(d.as_slice());
                        proof {
                            assert(spec_read_of(evs, path@) == ReadModel::Data(d@));
                        }
                        if !str_eq(disk_hash.as_str(), db_hash.as_str()) {
                            let w = HashMismatch {
                                path: path.clone(),
                                disk_hash,
                                db_hash: db_hash.clone(),
                            };
                            let ghost wpre = warnings@;
                            let ghost wm = w@;
                            warnings.push(w);
                            proof {
                                let rest = spec_stage2_items(
                                    db@,
                                    tree.marker@,
                                    items_v.skip(k as int + 1),
                                    evs,
                                );
                                assert(wm == (path@, spec_content_hash(d@), db_hash@));
                                assert(mismatches_view(warnings@) =~= mismatches_view(wpre)
                                    + seq![wm]);
                                assert(rest_k.catalog == rest.catalog);
                                assert(rest_k.failure == rest.failure);
                                assert(rest_k.mismatches == seq![wm] + rest.mismatches);
                                assert(mismatches_view(wpre) + rest_k.mismatches
                                    =~= mismatches_view(warnings@) + rest.mismatches);
                                assert(m0 == Stage2Model {
                                    catalog: rest.catalog,
                                    mismatches: mismatches_view(warnings@) + rest.mismatches,
                                    failure: rest.failure,
                                });
                            }
                        } else {
                            proof {
                                assert(rest_k == spec_stage2_items(
                                    db@,
                                    tree.marker@,
                                    items_v.skip(k as int + 1),
                                    evs,
                                ));
                            }
                        }
                    },
                    ReadResult::NotFound => {
                        db::remove(db, tree.marker.as_str(), path.as_str());
                        proof {
                            assert(rest_k == spec_stage2_items(
                                db@,
                                tree.marker@,
                                items_v.skip(k as int + 1),
                                evs,
                            ));
                        }
                    },
                    ReadResult::Error(m) => {
                        proof {
                            let rest = spec_stage2_items(
                                db@,
                                tree.marker@,
                                items_v.skip(k as int),
                                evs,
                            );
                            assert(rest.failure == Some(m@));
                            assert(mismatches_view(warnings@) + rest.mismatches =~= mismatches_view(
                                warnings@,
                            ) + rest.mismatches);
                        }
                        return Err(m.clone());
                    },
                }
            },
        }
        k = k + 1;
    }
    proof {
        assert(items_v.skip(items@.len() as int).len() == 0);
        assert(mismatches_view(warnings@) + Seq::<(Seq<char>, Seq<char>, Seq<char>)>::empty()
            =~= mismatches_view(warnings@));
    }
    Ok(warnings)
}

// ---------------------------------------------------------------------------
// Processing one tree, and the coordinator over all of them.
// ---------------------------------------------------------------------------
pub struct TreeModel {
    pub marker: Seq<char>,
    pub root: Seq<char>,
    pub rules: Seq<DatePathModel>,
}

impl View for Tree {
    type V = TreeModel;

    open spec fn view(&self) -> TreeModel {
        TreeModel { marker: self.marker@, root: self.root@, rules: rules_view(self.date_paths@) }
    }
}

pub enum MarkerReadModel {
    NotFound,
    Unreadable(Seq<Seq<char>>),
    Found { root: Seq<char>, id: Seq<char> },
}

impl View for MarkerRead {
    type V = MarkerReadModel;

    open spec fn view(&self) -> MarkerReadModel {
        match self {
            MarkerRead::NotFound => MarkerReadModel::NotFound,
            MarkerRead::Unreadable(chain) => MarkerReadModel::Unreadable(
                chain@.map_values(|s: String| s@),
            ),
            MarkerRead::Found { root, id } => MarkerReadModel::Found { root: root@, id: id@ },
        }
    }
}

/// What processing one opened tree does: stage 1 in skip mode, then
/// reconciliation, then — unless reconciliation failed — stage 1 again in
/// refresh mode.
pub open spec fn spec_process_tree(
    c: CatalogModel,
    t: TreeModel,
    entries: Seq<FsEntryModel>,
) -> Stage2Model {
    let c1 = spec_stage1(c, t.marker, t.rules, OnExisting::Skip, entries);
    let m2 = spec_stage2(c1, t.marker, entries);
    if m2.failure is Some {
        m2
    } else {
        Stage2Model {
            catalog: spec_stage1(m2.catalog, t.marker, t.rules, OnExisting::Refresh, entries),
            mismatches: m2.mismatches,
            failure: None,
        }
    }
}

/// One tree's inputs to a scan run: where its marker file was looked for,
/// what the marker decoder found there, and the tree's matched files as
/// read from disk.
#[derive(Debug)]
pub struct TreeInput {
    pub marker_path: String,
    pub read: MarkerRead,
    pub entries: Vec<FsEntry>,
}

pub struct TreeInputModel {
    pub marker_path: Seq<char>,
    pub read: MarkerReadModel,
    pub entries: Seq<FsEntryModel>,
}

impl View for TreeInput {
    type V = TreeInputModel;

    open spec fn view(&self) -> TreeInputModel {
        TreeInputModel {
            marker_path: self.marker_path@,
            read: self.read@,
            entries: entries_view(self.entries@),
        }
    }
}

pub open spec fn inputs_view(v: Seq<TreeInput>) -> Seq<TreeInputModel> {
    v.map_values(|i: TreeInput| i@)
}

/// How one tree ended: skipped because its marker file is absent, or
/// completed with the reconciliation warnings.
#[derive(Debug)]
pub enum ProcessOutcome {
    Skipped,
    Completed(Vec<HashMismatch>),
}

/// The failure one tree surfaces: its marker file was present but
/// malformed, or reconciliation hit an ambiguous I/O error.
#[derive(Debug)]
pub enum TreeFailure {
    Marker(TreeError),
    Stage2(String),
}

/// One tree's outcome as plain values.
pub enum TreeResultModel {
    Skipped,
    Completed(Seq<(Seq<char>, Seq<char>, Seq<char>)>),
    MarkerFailed(TreeErrorModel),
    TreeFailed(Seq<char>),
}

pub open spec fn tree_result_view(r: Result<ProcessOutcome, TreeFailure>) -> TreeResultModel {
    match r {
        Ok(ProcessOutcome::Skipped) => TreeResultModel::Skipped,
        Ok(ProcessOutcome::Completed(w)) => TreeResultModel::Completed(mismatches_view(w@)),
        Err(TreeFailure::Marker(e)) => TreeResultModel::MarkerFailed(e@),
        Err(TreeFailure::Stage2(m)) => TreeResultModel::TreeFailed(m@),
    }
}

pub open spec fn results_view(v: Seq<Result<ProcessOutcome, TreeFailure>>) -> Seq<
    TreeResultModel,
> {
    v.map_values(|r: Result<ProcessOutcome, TreeFailure>| tree_result_view(r))
}

/// What one tree does to the catalog and reports back: an absent marker
/// file skips the tree without touching the catalog; a malformed one fails
/// the tree without touching the catalog; otherwise the tree is processed
/// as `spec_process_tree` says.
pub open spec fn spec_tree_step(
    c: CatalogModel,
    dpm: Seq<(Seq<char>, Seq<DatePathModel>)>,
    inp: TreeInputModel,
) -> (CatalogModel, TreeResultModel) {
    match inp.read {
        MarkerReadModel::NotFound => (c, TreeResultModel::Skipped),
        MarkerReadModel::Unreadable(chain) => (
            c,
            TreeResultModel::MarkerFailed(
                TreeErrorModel::Other { path: inp.marker_path, chain },
            ),
        ),
        MarkerReadModel::Found { root, id } => {
            let t = TreeModel { marker: id, root, rules: spec_rules_for(dpm, id) };
            let pm = spec_process_tree(c, t, inp.entries);
            (
                pm.catalog,
                if pm.failure is Some {
                    TreeResultModel::TreeFailed(pm.failure.unwrap())
                } else {
                    TreeResultModel::Completed(pm.mismatches)
                },
            )
        },
    }
}

/// Processes one tree: opens it from what the marker decoder found, then
/// runs stage 1 (skip mode), reconciliation, and stage 1 again (refresh
/// mode). An absent marker file skips the tree; per-file problems never
/// escalate past their file; only a malformed marker file or an ambiguous
/// reconciliation read error fails the tree.
pub fn process_tree(
    db: &mut Catalog,
    marker_path: &str,
    read: &MarkerRead,
    date_paths_per_marker: &DatePathsPerMarker,
    entries: &Vec<FsEntry>,
) -> (r: Result<ProcessOutcome, TreeFailure>)
    requires
        old(db)@.wf(),
    ensures
        final(db)@.wf(),
        ({
            let step = spec_tree_step(
                old(db)@,
                crate::config::dpm_view(date_paths_per_marker@),
                TreeInputModel {
                    marker_path: marker_path@,
                    read: read@,
                    entries: entries_view(entries@),
                },
            );
            final(db)@ == step.0 && tree_result_view(r) == step.1
        }),
{
    let owned_read = match read {
        MarkerRead::NotFound => MarkerRead::NotFound,
        MarkerRead::Unreadable(chain) => MarkerRead::Unreadable(
            crate::strutil::clone_strings(chain),
        ),
        MarkerRead::Found { root, id } => MarkerRead::Found {
            root: root.clone(),
            id: id.clone(),
        },
    };
    proof {
        assert(owned_read@ == read@);
    }
    let opened = Tree::open(marker_path, owned_read, date_paths_per_marker);
    let tree = match opened {
        Err(e) => {
            return match e {
                TreeError::NotFound(_) => Ok(ProcessOutcome::Skipped),
                other => Err(TreeFailure::Marker(other)),
            };
        },
        Ok(t) => t,
    };
    stage1(db, &tree, entries, OnExisting::Skip);
    let warnings = match stage2(db, &tree, entries) {
        Ok(w) => w,
        Err(e) => {
            return Err(TreeFailure::Stage2(e));
        },
    };
    stage1(db, &tree, entries, OnExisting::Refresh);
    Ok(ProcessOutcome::Completed(warnings))
}

/// What a whole scan run does: every configured tree in order, each step as
/// `spec_tree_step` says; one tree's failure never cancels another's scan.
pub open spec fn spec_scan(
    c: CatalogModel,
    dpm: Seq<(Seq<char>, Seq<DatePathModel>)>,
    inputs: Seq<TreeInputModel>,
) -> (CatalogModel, Seq<TreeResultModel>)
    decreases inputs.len(),
{
    if inputs.len() == 0 {
        (c, Seq::empty())
    } else {
        let first = spec_tree_step(c, dpm, inputs[0]);
        let rest = spec_scan(first.0, dpm, inputs.drop_first());
        (rest.0, seq![first.1] + rest.1)
    }
}

/// Runs stage 1 and stage 2 for every configured tree, collecting each
/// tree's result independently: a failure in one tree is reported in its
/// slot and does not cancel or fail the others.
#[verifier::loop_isolation(false)]
pub fn scan(
    db: &mut Catalog,
    inputs: &Vec<TreeInput>,
    date_paths_per_marker: &DatePathsPerMarker,
) -> (r: Vec<Result<ProcessOutcome, TreeFailure>>)
    requires
        old(db)@.wf(),
    ensures
        final(db)@.wf(),
        final(db)@ == spec_scan(
            old(db)@,
            crate::config::dpm_view(date_paths_per_marker@),
            inputs_view(inputs@),
        ).0,
        results_view(r@) == spec_scan(
            old(db)@,
            crate::config::dpm_view(date_paths_per_marker@),
            inputs_view(inputs@),
        ).1,
{
    let ghost c0 = db@;
    let ghost dpm = crate::config::dpm_view(date_paths_per_marker@);
    let ghost iv = inputs_view(inputs@);
    proof {
        assert(iv.skip(0) =~= iv);
    }
    let mut results: Vec<Result<ProcessOutcome, TreeFailure>> = Vec::new();
    let mut k: usize = 0;
    while k < inputs.len()
        invariant
            k <= inputs@.len(),
            db@.wf(),
            results@.len() == k,
            spec_scan(c0, dpm, iv).0 == spec_scan(db@, dpm, iv.skip(k as int)).0,
            spec_scan(c0, dpm, iv).1 == results_view(results@) + spec_scan(
                db@,
                dpm,
                iv.skip(k as int),
            ).1,
        decreases inputs@.len() - k,
    {
        proof {
            assert(iv[k as int] == inputs@[k as int]@);
            assert(iv.skip(k as int)[0] == iv[k as int]);
            assert(iv.skip(k as int).drop_first() =~= iv.skip(k as int + 1));
        }
        let ghost cpre = db@;
        let res = process_tree(
            db,
            inputs[k].marker_path.as_str(),
            &inputs[k].read,
            date_paths_per_marker,
            &inputs[k].entries,
        );
        let ghost rv = tree_result_view(res);
        results.push(res);
        proof {
            assert(results_view(results@) =~= results_view(results@.drop_last()) + seq![rv]);
            let step = spec_tree_step(cpre, dpm, iv[k as int]);
            assert(db@ == step.0 && rv == step.1);
            assert((results_view(results@.drop_last()) + seq![rv]) + spec_scan(
                db@,
                dpm,
                iv.skip(k as int + 1),
            ).1 =~= results_view(results@.drop_last()) + (seq![rv] + spec_scan(
                db@,
                dpm,
                iv.skip(k as int + 1),
            ).1));
        }
        k = k + 1;
    }
    proof {
        assert(iv.skip(inputs@.len() as int).len() == 0);
        assert(results_view(results@) + Seq::<TreeResultModel>::empty() =~= results_view(
            results@,
        ));
    }
    results
}

// ---------------------------------------------------------------------------
// Laws of the scan engine.
// ---------------------------------------------------------------------------
proof fn lemma_upsert_adds_loc(
    c: CatalogModel,
    marker: Seq<char>,
    path: Seq<char>,
    hash: Seq<char>,
    date: Option<DateTime>,
    thumb: Seq<u8>,
)
    ensures
        upsert_model(c, marker, path, hash, date, thumb).has_loc(marker, path),
{
    let t = upsert_model(c, marker, path, hash, date, thumb);
    let li = db::loc_index_of(c.locations, marker, path);
    if li >= 0 {
        assert(0 <= li < c.locations.len());
        assert(t.locations[li].marker == marker && t.locations[li].path == path);
    } else {
        assert(t.locations[c.locations.len() as int].marker == marker
            && t.locations[c.locations.len() as int].path == path);
    }
}

proof fn lemma_upsert_keeps_loc(
    c: CatalogModel,
    marker: Seq<char>,
    path: Seq<char>,
    hash: Seq<char>,
    date: Option<DateTime>,
    thumb: Seq<u8>,
    m2: Seq<char>,
    p2: Seq<char>,
)
    requires
        c.has_loc(m2, p2),
    ensures
        upsert_model(c, marker, path, hash, date, thumb).has_loc(m2, p2),
{
    let t = upsert_model(c, marker, path, hash, date, thumb);
    let w = choose|w: int|
        0 <= w < c.locations.len() && c.locations[w].marker == m2 && c.locations[w].path == p2;
    let li = db::loc_index_of(c.locations, marker, path);
    if li >= 0 && w == li {
        assert(m2 == marker && p2 == path);
        assert(t.locations[li].marker == m2 && t.locations[li].path == p2);
    } else {
        assert(t.locations[w].marker == m2 && t.locations[w].path == p2);
    }
}

/// Whether one walked entry is already settled in the catalog: a readable,
/// decodable file whose location is catalogued (a file that cannot be read
/// or decoded is settled by definition — it is never catalogued).
pub open spec fn spec_entry_settled(c: CatalogModel, marker: Seq<char>, e: FsEntryModel) -> bool {
    match e.read {
        ReadModel::Data(d) => thumbnail_of(d, 200, 200, 90) is Some ==> c.has_loc(marker, e.path),
        _ => true,
    }
}

proof fn lemma_ingest_settles(
    c: CatalogModel,
    marker: Seq<char>,
    rules: Seq<DatePathModel>,
    mode: OnExisting,
    path: Seq<char>,
    data: Seq<u8>,
)
    ensures
        thumbnail_of(data, 200, 200, 90) is Some ==> spec_ingest(
            c,
            marker,
            rules,
            mode,
            path,
            data,
        ).has_loc(marker, path),
{
    if thumbnail_of(data, 200, 200, 90) is Some {
        if mode is Skip && c.has_loc(marker, path) {
        } else {
            lemma_upsert_adds_loc(
                c,
                marker,
                path,
                spec_content_hash(data),
                spec_deduced_date(
                    Some(
                        ExifFields {
                            datetime: exif_datetime_of(data),
                            datetime_original: exif_datetime_original_of(data),
                        },
                    ),
                    path,
                    rules,
                ),
                thumbnail_of(data, 200, 200, 90).unwrap(),
            );
        }
    }
}

proof fn lemma_ingest_keeps_loc(
    c: CatalogModel,
    marker: Seq<char>,
    rules: Seq<DatePathModel>,
    mode: OnExisting,
    path: Seq<char>,
    data: Seq<u8>,
    m2: Seq<char>,
    p2: Seq<char>,
)
    requires
        c.has_loc(m2, p2),
    ensures
        spec_ingest(c, marker, rules, mode, path, data).has_loc(m2, p2),
{
    if mode is Skip && c.has_loc(marker, path) {
    } else {
        match thumbnail_of(data, 200, 200, 90) {
            Option::None => {},
            Option::Some(t) => {
                lemma_upsert_keeps_loc(
                    c,
                    marker,
                    path,
                    spec_content_hash(data),
                    spec_deduced_date(
                        Some(
                            ExifFields {
                                datetime: exif_datetime_of(data),
                                datetime_original: exif_datetime_original_of(data),
                            },
                        ),
                        path,
                        rules,
                    ),
                    t,
                    m2,
                    p2,
                );
            },
        }
    }
}

proof fn lemma_stage1_keeps_loc(
    c: CatalogModel,
    marker: Seq<char>,
    rules: Seq<DatePathModel>,
    mode: OnExisting,
    entries: Seq<FsEntryModel>,
    m2: Seq<char>,
    p2: Seq<char>,
)
    requires
        c.has_loc(m2, p2),
    ensures
        spec_stage1(c, marker, rules, mode, entries).has_loc(m2, p2),
    decreases entries.len(),
{
    if entries.len() > 0 {
        let c1 = match entries[0].read {
            ReadModel::Data(d) => spec_ingest(c, marker, rules, mode, entries[0].path, d),
            _ => c,
        };
        match entries[0].read {
            ReadModel::Data(d) => {
                lemma_ingest_keeps_loc(c, marker, rules, mode, entries[0].path, d, m2, p2);
            },
            _ => {},
        }
        lemma_stage1_keeps_loc(c1, marker, rules, mode, entries.drop_first(), m2, p2);
    }
}

/// After a stage-1 pass, every readable, decodable file of the pass has its
/// location catalogued.
proof fn lemma_stage1_settles(
    c: CatalogModel,
    marker: Seq<char>,
    rules: Seq<DatePathModel>,
    mode: OnExisting,
    entries: Seq<FsEntryModel>,
    k: int,
)
    requires
        0 <= k < entries.len(),
    ensures
        spec_entry_settled(spec_stage1(c, marker, rules, mode, entries), marker, entries[k]),
    decreases entries.len(),
{
    let c1 = match entries[0].read {
        ReadModel::Data(d) => spec_ingest(c, marker, rules, mode, entries[0].path, d),
        _ => c,
    };
    if k == 0 {
        match entries[0].read {
            ReadModel::Data(d) => {
                lemma_ingest_settles(c, marker, rules, mode, entries[0].path, d);
                if thumbnail_of(d, 200, 200, 90) is Some {
                    lemma_stage1_keeps_loc(
                        c1,
                        marker,
                        rules,
                        mode,
                        entries.drop_first(),
                        marker,
                        entries[0].path,
                    );
                }
            },
            _ => {},
        }
    } else {
        lemma_stage1_settles(c1, marker, rules, mode, entries.drop_first(), k - 1);
        assert(entries.drop_first()[k - 1] == entries[k]);
    }
}

/// A skip-mode pass over entries that are all settled changes nothing.
proof fn lemma_stage1_skip_noop(
    c: CatalogModel,
    marker: Seq<char>,
    rules: Seq<DatePathModel>,
    entries: Seq<FsEntryModel>,
)
    requires
        forall|k: int|
            0 <= k < entries.len() ==> spec_entry_settled(c, marker, #[trigger] entries[k]),
    ensures
        spec_stage1(c, marker, rules, OnExisting::Skip, entries) == c,
    decreases entries.len(),
{
    if entries.len() > 0 {
        assert(spec_entry_settled(c, marker, entries[0]));
        let c1 = match entries[0].read {
            ReadModel::Data(d) => spec_ingest(
                c,
                marker,
                rules,
                OnExisting::Skip,
                entries[0].path,
                d,
            ),
            _ => c,
        };
        assert(c1 == c);
        assert(forall|k: int|
            0 <= k < entries.drop_first().len() ==> spec_entry_settled(
                c,
                marker,
                #[trigger] entries.drop_first()[k],
            ));
        lemma_stage1_skip_noop(c, marker, rules, entries.drop_first());
    }
}

/// Idempotence law: running the stage-1 ingest twice in a row over an
/// unchanged tree in skip mode mutates the catalog exactly as running it
/// once — the second pass changes nothing.
pub proof fn lemma_stage1_skip_idempotent(
    c: CatalogModel,
    marker: Seq<char>,
    rules: Seq<DatePathModel>,
    entries: Seq<FsEntryModel>,
)
    ensures
        spec_stage1(
            spec_stage1(c, marker, rules, OnExisting::Skip, entries),
            marker,
            rules,
            OnExisting::Skip,
            entries,
        ) == spec_stage1(c, marker, rules, OnExisting::Skip, entries),
{
    let c1 = spec_stage1(c, marker, rules, OnExisting::Skip, entries);
    assert forall|k: int|
        0 <= k < entries.len() implies spec_entry_settled(c1, marker, #[trigger] entries[k]) by {
        lemma_stage1_settles(c, marker, rules, OnExisting::Skip, entries, k);
    }
    lemma_stage1_skip_noop(c1, marker, rules, entries);
}

proof fn lemma_remove_wf(c: CatalogModel, marker: Seq<char>, path: Seq<char>)
    requires
        c.wf(),
    ensures
        remove_model(c, marker, path).wf(),
{
    let li = db::loc_index_of(c.locations, marker, path);
    if li >= 0 {
        assert(0 <= li < c.locations.len());
        let t = remove_model(c, marker, path);
        assert(forall|k: int|
            0 <= k < t.locations.len() ==> #[trigger] t.locations[k] == (if k < li {
                c.locations[k]
            } else {
                c.locations[k + 1]
            }));
    }
}

proof fn lemma_remove_kills(c: CatalogModel, marker: Seq<char>, path: Seq<char>)
    requires
        c.wf(),
    ensures
        !remove_model(c, marker, path).has_loc(marker, path),
{
    let li = db::loc_index_of(c.locations, marker, path);
    let t = remove_model(c, marker, path);
    if li >= 0 {
        assert(0 <= li < c.locations.len() && c.locations[li].marker == marker
            && c.locations[li].path == path);
        assert(forall|k: int|
            0 <= k < t.locations.len() ==> #[trigger] t.locations[k] == (if k < li {
                c.locations[k]
            } else {
                c.locations[k + 1]
            }));
        if t.has_loc(marker, path) {
            let w = choose|w: int|
                0 <= w < t.locations.len() && t.locations[w].marker == marker && t.locations[w].path
                    == path;
            if w < li {
                assert(c.locations[w].marker == marker && c.locations[w].path == path);
            } else {
                assert(c.locations[w + 1].marker == marker && c.locations[w + 1].path == path);
            }
        }
    }
}

proof fn lemma_remove_keeps_others(
    c: CatalogModel,
    marker: Seq<char>,
    path: Seq<char>,
    m2: Seq<char>,
    p2: Seq<char>,
)
    requires
        c.has_loc(m2, p2),
        !(m2 == marker && p2 == path),
    ensures
        remove_model(c, marker, path).has_loc(m2, p2),
{
    let li = db::loc_index_of(c.locations, marker, path);
    let t = remove_model(c, marker, path);
    if li >= 0 {
        assert(0 <= li < c.locations.len() && c.locations[li].marker == marker
            && c.locations[li].path == path);
        let w = choose|w: int|
            0 <= w < c.locations.len() && c.locations[w].marker == m2 && c.locations[w].path == p2;
        assert(w != li);
        if w < li {
            assert(t.locations[w].marker == m2 && t.locations[w].path == p2);
        } else {
            assert(t.locations[w - 1] == c.locations[w]);
            assert(t.locations[w - 1].marker == m2 && t.locations[w - 1].path == p2);
        }
    }
}

proof fn lemma_remove_no_new(
    c: CatalogModel,
    marker: Seq<char>,
    path: Seq<char>,
    m2: Seq<char>,
    p2: Seq<char>,
)
    requires
        !c.has_loc(m2, p2),
    ensures
        !remove_model(c, marker, path).has_loc(m2, p2),
{
    let li = db::loc_index_of(c.locations, marker, path);
    let t = remove_model(c, marker, path);
    if li >= 0 && t.has_loc(m2, p2) {
        assert(0 <= li < c.locations.len());
        let w = choose|w: int|
            0 <= w < t.locations.len() && t.locations[w].marker == m2 && t.locations[w].path == p2;
        if w < li {
            assert(c.locations[w].marker == m2 && c.locations[w].path == p2);
        } else {
            assert(t.locations[w] == c.locations[w + 1]);
            assert(c.locations[w + 1].marker == m2 && c.locations[w + 1].path == p2);
        }
    }
}

/// Reconciliation never touches the file records, tags or associations, and
/// keeps the catalog invariants.
proof fn lemma_stage2_files_untouched(
    c: CatalogModel,
    marker: Seq<char>,
    items: Seq<(Seq<char>, Seq<char>)>,
    entries: Seq<FsEntryModel>,
)
    requires
        c.wf(),
    ensures
        ({
            let m = spec_stage2_items(c, marker, items, entries);
            m.catalog.files == c.files && m.catalog.tags == c.tags && m.catalog.file_tags
                == c.file_tags && m.catalog.wf()
        }),
    decreases items.len(),
{
    if items.len() > 0 {
        match spec_read_of(entries, items[0].0) {
            ReadModel::Data(_) => {
                lemma_stage2_files_untouched(c, marker, items.drop_first(), entries);
            },
            ReadModel::NotFound => {
                lemma_remove_wf(c, marker, items[0].0);
                lemma_stage2_files_untouched(
                    remove_model(c, marker, items[0].0),
                    marker,
                    items.drop_first(),
                    entries,
                );
            },
            ReadModel::Error(_) => {},
        }
    }
}

/// A location whose file is still readable survives reconciliation.
proof fn lemma_stage2_keeps_present(
    c: CatalogModel,
    marker: Seq<char>,
    items: Seq<(Seq<char>, Seq<char>)>,
    entries: Seq<FsEntryModel>,
    p2: Seq<char>,
)
    requires
        c.wf(),
        c.has_loc(marker, p2),
        spec_read_of(entries, p2) is Data,
    ensures
        spec_stage2_items(c, marker, items, entries).catalog.has_loc(marker, p2),
    decreases items.len(),
{
    if items.len() > 0 {
        let path = items[0].0;
        match spec_read_of(entries, path) {
            ReadModel::Data(_) => {
                lemma_stage2_keeps_present(c, marker, items.drop_first(), entries, p2);
            },
            ReadModel::NotFound => {
                assert(path != p2);
                lemma_remove_keeps_others(c, marker, path, marker, p2);
                lemma_remove_wf(c, marker, path);
                lemma_stage2_keeps_present(
                    remove_model(c, marker, path),
                    marker,
                    items.drop_first(),
                    entries,
                    p2,
                );
            },
            ReadModel::Error(_) => {},
        }
    }
}

/// Once a location is gone, reconciliation never brings it back.
proof fn lemma_stage2_no_new(
    c: CatalogModel,
    marker: Seq<char>,
    items: Seq<(Seq<char>, Seq<char>)>,
    entries: Seq<FsEntryModel>,
    p: Seq<char>,
)
    requires
        !c.has_loc(marker, p),
    ensures
        !spec_stage2_items(c, marker, items, entries).catalog.has_loc(marker, p),
    decreases items.len(),
{
    if items.len() > 0 {
        let path = items[0].0;
        match spec_read_of(entries, path) {
            ReadModel::Data(_) => {
                lemma_stage2_no_new(c, marker, items.drop_first(), entries, p);
            },
            ReadModel::NotFound => {
                lemma_remove_no_new(c, marker, path, marker, p);
                lemma_stage2_no_new(
                    remove_model(c, marker, path),
                    marker,
                    items.drop_first(),
                    entries,
                    p,
                );
            },
            ReadModel::Error(_) => {},
        }
    }
}

/// A listed location whose file is gone does not survive a reconciliation
/// pass that completed.
proof fn lemma_stage2_removes_listed(
    c: CatalogModel,
    marker: Seq<char>,
    items: Seq<(Seq<char>, Seq<char>)>,
    entries: Seq<FsEntryModel>,
    p: Seq<char>,
)
    requires
        c.wf(),
        spec_read_of(entries, p) is NotFound,
        exists|k: int| 0 <= k < items.len() && (#[trigger] items[k]).0 == p,
        spec_stage2_items(c, marker, items, entries).failure is None,
    ensures
        !spec_stage2_items(c, marker, items, entries).catalog.has_loc(marker, p),
    decreases items.len(),
{
    let path = items[0].0;
    match spec_read_of(entries, path) {
        ReadModel::Data(_) => {
            assert(path != p);
            let w = choose|k: int| 0 <= k < items.len() && (#[trigger] items[k]).0 == p;
            assert(w != 0);
            assert(items.drop_first()[w - 1].0 == p);
            lemma_stage2_removes_listed(c, marker, items.drop_first(), entries, p);
        },
        ReadModel::NotFound => {
            let c1 = remove_model(c, marker, path);
            lemma_remove_wf(c, marker, path);
            if path == p {
                lemma_remove_kills(c, marker, p);
                lemma_stage2_no_new(c1, marker, items.drop_first(), entries, p);
            } else {
                let w = choose|k: int| 0 <= k < items.len() && (#[trigger] items[k]).0 == p;
                assert(w != 0);
                assert(items.drop_first()[w - 1].0 == p);
                lemma_stage2_removes_listed(c1, marker, items.drop_first(), entries, p);
            }
        },
        ReadModel::Error(_) => {},
    }
}

/// Every catalogued location of the marker is in the reconciliation list.
proof fn lemma_marker_items_prefix_has(
    c: CatalogModel,
    marker: Seq<char>,
    p: Seq<char>,
    w: int,
    n: int,
)
    requires
        0 <= w < n <= c.locations.len(),
        c.locations[w].marker == marker,
        c.locations[w].path == p,
    ensures
        exists|k: int|
            0 <= k < db::marker_items_prefix(c, marker, n).len() && (#[trigger] db::marker_items_prefix(
                c,
                marker,
                n,
            )[k]).0 == p,
    decreases n,
{
    let items = db::marker_items_prefix(c, marker, n);
    if w == n - 1 {
        assert(items[items.len() - 1].0 == p);
    } else {
        lemma_marker_items_prefix_has(c, marker, p, w, n - 1);
        let prev = db::marker_items_prefix(c, marker, n - 1);
        let k = choose|k: int| 0 <= k < prev.len() && (#[trigger] prev[k]).0 == p;
        assert(items[k].0 == p);
    }
}

/// Reconciliation law: with two catalogued locations sharing content, one
/// whose file is gone and one whose file is still readable, a completed
/// reconciliation removes the first location, keeps the second, and leaves
/// every file record — the shared content and its date and thumbnail —
/// intact.
pub proof fn lemma_stage2_removes_missing_preserves_hash(
    c: CatalogModel,
    marker: Seq<char>,
    p: Seq<char>,
    p2: Seq<char>,
    entries: Seq<FsEntryModel>,
)
    requires
        c.wf(),
        c.has_loc(marker, p),
        c.has_loc(marker, p2),
        spec_read_of(entries, p) is NotFound,
        spec_read_of(entries, p2) is Data,
        spec_stage2(c, marker, entries).failure is None,
    ensures
        ({
            let m = spec_stage2(c, marker, entries);
            &&& m.catalog.files == c.files
            &&& !m.catalog.has_loc(marker, p)
            &&& m.catalog.has_loc(marker, p2)
        }),
{
    let items = db::marker_items(c, marker);
    lemma_stage2_files_untouched(c, marker, items, entries);
    lemma_stage2_keeps_present(c, marker, items, entries, p2);
    let w = choose|w: int|
        0 <= w < c.locations.len() && c.locations[w].marker == marker && c.locations[w].path == p;
    lemma_marker_items_prefix_has(c, marker, p, w, c.locations.len() as int);
    lemma_stage2_removes_listed(c, marker, items, entries, p);
}

/// Marker-not-found is non-fatal law: when the first of two configured
/// trees has no marker identity file, the run still completes; the first
/// tree's slot reports it skipped, the catalog is untouched by it, and the
/// second tree is scanned exactly as it would have been alone.
pub proof fn lemma_marker_not_found_non_fatal(
    c: CatalogModel,
    dpm: Seq<(Seq<char>, Seq<DatePathModel>)>,
    first: TreeInputModel,
    second: TreeInputModel,
)
    requires
        first.read is NotFound,
    ensures
        ({
            let out = spec_scan(c, dpm, seq![first, second]);
            let alone = spec_tree_step(c, dpm, second);
            &&& out.1.len() == 2
            &&& out.1[0] is Skipped
            &&& out.1[1] == alone.1
            &&& out.0 == alone.0
        }),
{
    let inputs = seq![first, second];
    assert(inputs[0] == first);
    assert(inputs.drop_first() =~= seq![second]);
    assert(seq![second][0] == second);
    assert(seq![second].drop_first() =~= Seq::<TreeInputModel>::empty());
    let step1 = spec_tree_step(c, dpm, first);
    assert(step1.0 == c && step1.1 is Skipped);
    let alone = spec_tree_step(c, dpm, second);
    let empty_in = Seq::<TreeInputModel>::empty();
    assert(seq![second].drop_first() == empty_in);
    assert(spec_scan(alone.0, dpm, empty_in).0 == alone.0);
    assert(spec_scan(alone.0, dpm, empty_in).1 == Seq::<TreeResultModel>::empty());
    let rest = spec_scan(c, dpm, seq![second]);
    assert(rest.0 == spec_scan(alone.0, dpm, empty_in).0);
    assert(rest.1 =~= seq![alone.1]);
    assert(inputs.drop_first() == seq![second]);
    let out = spec_scan(c, dpm, inputs);
    assert(out.0 == rest.0);
    assert(out.1 =~= seq![step1.1] + rest.1);
}

} // verus!
