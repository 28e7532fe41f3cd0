//! Tree walking and path matching on plain values.
//!
//! The filesystem hands in raw walk events (a path with its kind, or an
//! access error); everything decided about them — skipping directories,
//! erroring on symbolic links, taking the root-relative path, and the
//! case-insensitive extension match — is verified here. Paths are slash
//! separated strings wherever they enter, so catalog keys stay portable.

use vstd::prelude::*;

use crate::strutil::str_eq;

verus! {

/// ASCII case folding: the only case rule extension matching uses.
pub open spec fn spec_lower(c: char) -> int {
    if 'A' <= c && c <= 'Z' {
        c as int + 32
    } else {
        c as int
    }
}

/// Strings equal up to ASCII case.
pub open spec fn spec_eq_ci(a: Seq<char>, b: Seq<char>) -> bool {
    a.len() == b.len() && forall|i: int| 0 <= i < a.len() ==> spec_lower(a[i]) == spec_lower(b[i])
}

fn eq_ci(a: &str, b: &str) -> (r: bool)
    ensures
        r == spec_eq_ci(a@, b@),
{
    let na = a.unicode_len();
    let nb = b.unicode_len();
    if na != nb {
        return false;
    }
    let mut i: usize = 0;
    while i < na
        invariant
            na == a@.len(),
            na == b@.len(),
            i <= na,
            forall|j: int| 0 <= j < i ==> spec_lower(a@[j]) == spec_lower(b@[j]),
        decreases na - i,
    {
        let ca = a.get_char(i);
        let cb = b.get_char(i);
        let la: u32 = if 'A' <= ca && ca <= 'Z' {
            ca as u32 + 32
        } else {
            ca as u32
        };
        let lb: u32 = if 'A' <= cb && cb <= 'Z' {
            cb as u32 + 32
        } else {
            cb as u32
        };
        if la != lb {
            return false;
        }
        i = i + 1;
    }
    true
}

/// The index just past the last occurrence of `c` in `s`; 0 when `c` does
/// not occur.
pub open spec fn spec_after_last(s: Seq<char>, c: char) -> int
    decreases s.len(),
{
    if s.len() == 0 {
        0
    } else if s.last() == c {
        s.len() as int
    } else {
        spec_after_last(s.drop_last(), c)
    }
}

fn after_last(s: &str, c: char) -> (r: usize)
    ensures
        r as int == spec_after_last(s@, c),
{
    let n = s.unicode_len();
    proof {
        assert(s@.subrange(0, n as int) =~= s@);
    }
    let mut i: usize = n;
    while i > 0
        invariant
            n == s@.len(),
            i <= n,
            spec_after_last(s@, c) == spec_after_last(s@.subrange(0, i as int), c),
        decreases i,
    {
        if s.get_char(i - 1) == c {
            proof {
                assert(s@.subrange(0, i as int).last() == s@[i as int - 1]);
            }
            return i;
        }
        proof {
            assert(s@.subrange(0, i as int).last() == s@[i as int - 1]);
            assert(s@.subrange(0, i as int).drop_last() =~= s@.subrange(0, i as int - 1));
        }
        i = i - 1;
    }
    proof {
        assert(s@.subrange(0, 0) =~= Seq::<char>::empty());
    }
    0
}

/// The extension of the file named by a slash path, as the standard library
/// reads one: the part of the file name after its last dot, none when there
/// is no dot or the name's only dot leads it.
pub open spec fn spec_extension(p: Seq<char>) -> Option<Seq<char>> {
    let name = p.subrange(spec_after_last(p, '/'), p.len() as int);
    let dot = spec_after_last(name, '.');
    if dot <= 1 {
        None
    } else {
        Some(name.subrange(dot, name.len() as int))
    }
}

/// Reads the extension off a slash-separated relative path.
pub fn extension_of(p: &str) -> (r: Option<&str>)
    ensures
        match r {
            Some(e) => spec_extension(p@) == Some(e@),
            None => spec_extension(p@) is None,
        },
{
    let n = p.unicode_len();
    let start = after_last(p, '/');
    proof {
        assert(0 <= spec_after_last(p@, '/') <= p@.len()) by {
            lemma_after_last_bounds(p@, '/');
        }
    }
    let name = p.substring_char(start, n);
    let name_len = name.unicode_len();
    let dot = after_last(name, '.');
    proof {
        assert(0 <= spec_after_last(name@, '.') <= name@.len()) by {
            lemma_after_last_bounds(name@, '.');
        }
    }
    if dot <= 1 {
        None
    } else {
        Some(name.substring_char(dot, name_len))
    }
}

proof fn lemma_after_last_bounds(s: Seq<char>, c: char)
    ensures
        0 <= spec_after_last(s, c) <= s.len(),
    decreases s.len(),
{
    if s.len() > 0 && s.last() != c {
        lemma_after_last_bounds(s.drop_last(), c);
    }
}

/// A matcher accepting entries whose extension equals one of a fixed list,
/// up to ASCII case.
pub struct CaseInsensitiveExtensions(pub Vec<String>);

impl View for CaseInsensitiveExtensions {
    type V = Seq<Seq<char>>;

    open spec fn view(&self) -> Seq<Seq<char>> {
        self.0@.map_values(|s: String| s@)
    }
}

/// Whether an entry with the given extension qualifies under one matcher: an
/// entry lacking an extension never matches.
pub open spec fn spec_matches(exts: Seq<Seq<char>>, ext: Option<Seq<char>>) -> bool {
    match ext {
        Option::None => false,
        Option::Some(e) => exists|i: int| 0 <= i < exts.len() && spec_eq_ci(e, #[trigger] exts[i]),
    }
}

impl CaseInsensitiveExtensions {
    /// The matcher, boxed as the walker stores it.
    pub fn boxed(extensions: Vec<String>) -> (r: Box<CaseInsensitiveExtensions>)
        ensures
            r@ == extensions@.map_values(|s: String| s@),
    {
        Box::new(CaseInsensitiveExtensions(extensions))
    }

    /// Whether an entry with extension `ext` qualifies.
    #[verifier::loop_isolation(false)]
    pub fn matches(&self, ext: Option<&str>) -> (r: bool)
        ensures
            r == spec_matches(
                self@,
                match ext {
                    Option::Some(e) => Some(e@),
                    Option::None => None::<Seq<char>>,
                },
            ),
    {
        let e = match ext {
            Some(e) => e,
            None => {
                return false;
            },
        };
        let mut i: usize = 0;
        while i < self.0.len()
            invariant
                i <= self.0@.len(),
                forall|j: int| 0 <= j < i ==> !spec_eq_ci(e@, #[trigger] self@[j]),
            decreases self.0@.len() - i,
        {
            proof {
                assert(self@[i as int] == self.0@[i as int]@);
            }
            if eq_ci(e, self.0[i].as_str()) {
                proof {
                    assert(self@.len() == self.0@.len());
                    assert(spec_eq_ci(e@, self@[i as int]));
                    assert(spec_matches(self@, Some(e@)));
                }
                return true;
            }
            i = i + 1;
        }
        false
    }
}

/// One raw event from walking a tree: a directory entry with its kind, or an
/// access error. The path is the full slash-separated path.
pub enum WalkEvent {
    Entry { path: String, kind: EntryKind },
    Error(String),
}

#[derive(Clone, Copy, Debug, PartialEq, Eq, Structural)]
pub enum EntryKind {
    File,
    Dir,
    Symlink,
}

/// A file entry the walker yields: its path relative to the walked root.
#[derive(Debug)]
pub struct DirEntry {
    relative_path: String,
}

impl View for DirEntry {
    type V = Seq<char>;

    closed spec fn view(&self) -> Seq<char> {
        self.relative_path@
    }
}

impl DirEntry {
    pub fn relative_path(&self) -> (r: &str)
        ensures
            r@ == self@,
    {
        self.relative_path.as_str()
    }
}

/// The root-relative remainder of `path`, if `path` lies under `root`.
pub open spec fn spec_strip_root(root: Seq<char>, path: Seq<char>) -> Option<Seq<char>> {
    if path == root {
        Some(Seq::empty())
    } else if path.len() > root.len() && path.subrange(0, root.len() as int) == root && path[root.len() as int]
        == '/' {
        Some(path.subrange(root.len() as int + 1, path.len() as int))
    } else {
        None
    }
}

/// What walking does with one raw event: errors pass through; directories
/// are skipped silently; a symbolic link is an error item, neither followed
/// nor dropped; a file is taken relative to the root and yielded only when a
/// matcher accepts its extension.
pub open spec fn spec_classify(
    root: Seq<char>,
    matchers: Seq<Seq<Seq<char>>>,
    ev: WalkEvent,
) -> Option<Result<Seq<char>, Seq<char>>> {
    match ev {
        WalkEvent::Error(m) => Some(Err(m@)),
        WalkEvent::Entry { path, kind } => {
            if kind is Dir {
                None
            } else if kind is Symlink {
                Some(Err("symbolic link not followed: "@ + path@))
            } else {
                match spec_strip_root(root, path@) {
                    Option::None => Some(Err("path not under root: "@ + path@)),
                    Option::Some(rel) => {
                        if exists|i: int|
                            0 <= i < matchers.len() && spec_matches(
                                #[trigger] matchers[i],
                                spec_extension(rel),
                            ) {
                            Some(Ok(rel))
                        } else {
                            None
                        }
                    },
                }
            }
        },
    }
}

/// The walker's configuration: the root it is rooted at and the matchers
/// that decide which files qualify.
pub struct Files {
    root: String,
    matchers: Vec<Box<CaseInsensitiveExtensions>>,
}

pub struct FilesView {
    pub root: Seq<char>,
    pub matchers: Seq<Seq<Seq<char>>>,
}

impl View for Files {
    type V = FilesView;

    closed spec fn view(&self) -> FilesView {
        FilesView {
            root: self.root@,
            matchers: self.matchers@.map_values(|m: Box<CaseInsensitiveExtensions>| m@),
        }
    }
}

impl Files {
    pub fn new(root: &str, matchers: Vec<Box<CaseInsensitiveExtensions>>) -> (r: Self)
        ensures
            r@.root == root@,
            r@.matchers == matchers@.map_values(|m: Box<CaseInsensitiveExtensions>| m@),
    {
        Self { root: root.to_owned(), matchers }
    }

    /// Strips the root off a path that lies under it.
    fn strip_root<'a>(&self, path: &'a str) -> (r: Option<&'a str>)
        ensures
            match r {
                Some(rel) => spec_strip_root(self@.root, path@) == Some(rel@),
                None => spec_strip_root(self@.root, path@) is None,
            },
    {
        let rn = self.root.as_str().unicode_len();
        let pn = path.unicode_len();
        if str_eq(path, self.root.as_str()) {
            let rel = path.substring_char(pn, pn);
            proof {
                assert(rel@ =~= Seq::<char>::empty());
            }
            return Some(rel);
        }
        if pn > rn && path.get_char(rn) == '/' {
            let prefix = path.substring_char(0, rn);
            if str_eq(prefix, self.root.as_str()) {
                return Some(path.substring_char(rn + 1, pn));
            }
        }
        None
    }

    /// Decides one raw walk event, as `spec_classify` says.
    #[verifier::loop_isolation(false)]
    pub fn classify(&self, ev: &WalkEvent) -> (r: Option<Result<DirEntry, String>>)
        ensures
            match r {
                Option::None => spec_classify(self@.root, self@.matchers, *ev) is None,
                Option::Some(Ok(entry)) => spec_classify(self@.root, self@.matchers, *ev) == Some(
                    Result::<Seq<char>, Seq<char>>::Ok(entry@),
                ),
                Option::Some(Err(msg)) => spec_classify(self@.root, self@.matchers, *ev) == Some(
                    Result::<Seq<char>, Seq<char>>::Err(msg@),
                ),
            },
    {
        match ev {
            WalkEvent::Error(m) => Some(Err(m.clone())),
            WalkEvent::Entry { path, kind } => {
                match kind {
                    EntryKind::Dir => None,
                    EntryKind::Symlink => {
                        let mut msg = "symbolic link not followed: ".to_owned();
                        msg.append(path.as_str());
                        Some(Err(msg))
                    },
                    EntryKind::File => {
                        let rel = match self.strip_root(path.as_str()) {
                            Some(rel) => rel,
                            None => {
                                let mut msg = "path not under root: ".to_owned();
                                msg.append(path.as_str());
                                return Some(Err(msg));
                            },
                        };
                        let ext = extension_of(rel);
                        let mut i: usize = 0;
                        let ghost spec_ext = match ext {
                            Option::Some(e) => Some(e@),
                            Option::None => None::<Seq<char>>,
                        };
                        proof {
                            if spec_ext is Some {
                                assert(spec_extension(rel@) == spec_ext);
                            } else {
                                assert(spec_extension(rel@) is None);
                            }
                        }
                        while i < self.matchers.len()
                            invariant
                                i <= self.matchers@.len(),
                                forall|j: int|
                                    0 <= j < i ==> !spec_matches(
                                        #[trigger] self@.matchers[j],
                                        spec_extension(rel@),
                                    ),
                            decreases self.matchers@.len() - i,
                        {
                            proof {
                                assert(self@.matchers[i as int] == self.matchers@[i as int]@);
                            }
                            if self.matchers[i].matches(ext) {
                                return Some(Ok(DirEntry { relative_path: rel.to_owned() }));
                            }
                            i = i + 1;
                        }
                        None
                    },
                }
            },
        }
    }
}

} // verus!
