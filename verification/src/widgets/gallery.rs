//! The gallery's selection state: which catalog rows are selected.

use vstd::prelude::*;

use crate::db::Rowid;

verus! {

/// The rows selected in the gallery.
#[derive(Debug, Clone)]
pub struct Selection {
    pub rowids: Vec<Rowid>,
}

impl Selection {
    /// A selection of exactly one row.
    pub fn single(rowid: Rowid) -> (r: Self)
        ensures
            r.rowids@ == seq![rowid],
    {
        let mut rowids: Vec<Rowid> = Vec::new();
        rowids.push(rowid);
        proof {
            assert(rowids@ =~= seq![rowid]);
        }
        Self { rowids }
    }
}

impl Default for Selection {
    /// The empty selection.
    fn default() -> (r: Self)
        ensures
            r.rowids@ == Seq::<Rowid>::empty(),
    {
        Self { rowids: Vec::new() }
    }
}

} // verus!
