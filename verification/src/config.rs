//! Scan configuration as plain values: the marker roots to scan, and the
//! ordered date-path rules per marker. Reading the configuration file is the
//! host's job; the values arrive here already decoded.

use vstd::prelude::*;

verus! {

/// The marker identity files to scan, one per tree.
pub struct Markers {
    pub disk: Vec<String>,
}

/// One date-path rule: a regular-expression pattern over the relative path,
/// and the date template its captures expand.
#[derive(Debug)]
pub struct DatePath {
    pub date: String,
    pub path: String,
}

pub struct DatePathModel {
    pub date: Seq<char>,
    pub path: Seq<char>,
}

impl View for DatePath {
    type V = DatePathModel;

    open spec fn view(&self) -> DatePathModel {
        DatePathModel { date: self.date@, path: self.path@ }
    }
}

/// The ordered rule list of each marker, looked up by marker identity.
pub type DatePathsPerMarker = Vec<(String, Vec<DatePath>)>;

/// The whole scan configuration.
pub struct Config {
    pub markers: Markers,
    pub date_path: DatePathsPerMarker,
}

pub open spec fn rules_view(v: Seq<DatePath>) -> Seq<DatePathModel> {
    v.map_values(|d: DatePath| d@)
}

pub open spec fn dpm_view(v: Seq<(String, Vec<DatePath>)>) -> Seq<(Seq<char>, Seq<DatePathModel>)> {
    v.map_values(|p: (String, Vec<DatePath>)| (p.0@, rules_view(p.1@)))
}

/// The rules configured for a marker: the first entry under its name, empty
/// when none is configured.
pub open spec fn spec_rules_for(
    dpm: Seq<(Seq<char>, Seq<DatePathModel>)>,
    marker: Seq<char>,
) -> Seq<DatePathModel>
    decreases dpm.len(),
{
    if dpm.len() == 0 {
        Seq::empty()
    } else if dpm[0].0 == marker {
        dpm[0].1
    } else {
        spec_rules_for(dpm.drop_first(), marker)
    }
}

/// A fresh copy of a rule list.
pub fn clone_date_paths(v: &Vec<DatePath>) -> (r: Vec<DatePath>)
    ensures
        rules_view(r@) == rules_view(v@),
{
    let mut r: Vec<DatePath> = Vec::new();
    let mut i: usize = 0;
    while i < v.len()
        invariant
            i <= v@.len(),
            r@.len() == i,
            forall|j: int| 0 <= j < i ==> (#[trigger] r@[j])@ == v@[j]@,
        decreases v@.len() - i,
    {
        r.push(DatePath { date: v[i].date.clone(), path: v[i].path.clone() });
        i = i + 1;
    }
    proof {
        assert(rules_view(r@) =~= rules_view(v@));
    }
    r
}

/// The rules configured for `marker`, as a fresh list.
pub fn rules_for(dpm: &DatePathsPerMarker, marker: &str) -> (r: Vec<DatePath>)
    ensures
        rules_view(r@) == spec_rules_for(dpm_view(dpm@), marker@),
{
    proof {
        assert(dpm_view(dpm@).skip(0) =~= dpm_view(dpm@));
    }
    let mut i: usize = 0;
    while i < dpm.len()
        invariant
            i <= dpm@.len(),
            spec_rules_for(dpm_view(dpm@), marker@) == spec_rules_for(
                dpm_view(dpm@).skip(i as int),
                marker@,
            ),
        decreases dpm@.len() - i,
    {
        proof {
            assert(dpm_view(dpm@)[i as int] == (dpm@[i as int].0@, rules_view(dpm@[i as int].1@)));
            assert(dpm_view(dpm@).skip(i as int)[0] == dpm_view(dpm@)[i as int]);
        }
        if crate::strutil::str_eq(dpm[i].0.as_str(), marker) {
            return clone_date_paths(&dpm[i].1);
        }
        proof {
            assert(dpm_view(dpm@).skip(i as int).drop_first() =~= dpm_view(dpm@).skip(i as int + 1));
        }
        i = i + 1;
    }
    proof {
        assert(dpm_view(dpm@).skip(dpm@.len() as int).len() == 0);
    }
    Vec::new()
}

} // verus!
