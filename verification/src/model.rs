//! The content-addressed file record the catalog stores.

use vstd::prelude::*;

use crate::datetime::DateTime;

verus! {

/// One content-addressed record: the digest string that identifies the
/// content, the resolved capture date if one is known, and the thumbnail
/// bytes.
#[derive(Debug)]
pub struct FileInfo {
    pub hash: String,
    pub date: Option<DateTime>,
    pub thumb: Vec<u8>,
}

/// The record as plain mathematical values.
pub struct FileModel {
    pub hash: Seq<char>,
    pub date: Option<DateTime>,
    pub thumb: Seq<u8>,
}

impl View for FileInfo {
    type V = FileModel;

    open spec fn view(&self) -> FileModel {
        FileModel { hash: self.hash@, date: self.date, thumb: self.thumb@ }
    }
}

impl FileInfo {
    /// A fresh record with the same contents.
    pub fn duplicate(&self) -> (r: FileInfo)
        ensures
            r@ == self@,
    {
        FileInfo {
            hash: self.hash.clone(),
            date: self.date,
            thumb: crate::strutil::copy_bytes(&self.thumb),
        }
    }
}

impl PartialEq for FileInfo {
    fn eq(&self, other: &FileInfo) -> (r: bool) {
        let dates_eq = match (self.date, other.date) {
            (None, None) => true,
            (Some(a), Some(b)) => a == b,
            _ => false,
        };
        if !dates_eq {
            return false;
        }
        if !crate::strutil::str_eq(self.hash.as_str(), other.hash.as_str()) {
            return false;
        }
        let n = self.thumb.len();
        if n != other.thumb.len() {
            return false;
        }
        let mut i: usize = 0;
        while i < n
            invariant
                n == self.thumb@.len(),
                n == other.thumb@.len(),
                i <= n,
                forall|j: int| 0 <= j < i ==> self.thumb@[j] == other.thumb@[j],
            decreases n - i,
        {
            if self.thumb[i] != other.thumb[i] {
                return false;
            }
            i = i + 1;
        }
        proof {
            assert(self.thumb@ =~= other.thumb@);
        }
        true
    }
}

impl vstd::std_specs::cmp::PartialEqSpecImpl for FileInfo {
    open spec fn obeys_eq_spec() -> bool {
        true
    }

    open spec fn eq_spec(&self, other: &FileInfo) -> bool {
        self@ == other@
    }
}

} // verus!
