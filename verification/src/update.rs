//! The index updater's choices before it walks: which paths, which database, and
//! whether an existing index can be extended.
use vstd::prelude::*;
use crate::index::trigram::string_views;
use crate::text::{append_str, str_chars, string_from_chars};

verus! {

/// The paths given, or the defaults when none were given.
pub fn paths_or_default(given: &Vec<String>, defaults: Vec<String>) -> (r: Vec<String>)
    ensures
        string_views(r@) == if given@.len() == 0 { string_views(defaults@) } else { string_views(given@) },
{
    if given.len() == 0 {
        return defaults;
    }
    let mut r: Vec<String> = Vec::new();
    let mut i: usize = 0;
    while i < given.len()
        invariant
            0 <= i <= given@.len(),
            string_views(r@) == string_views(given@).take(i as int),
        decreases given@.len() - i,
    {
        let s = string_from_chars(str_chars(given[i].as_str()).as_slice());
        let ghost before = r@;
        r.push(s);
        proof {
            assert(string_views(r@) =~= string_views(before).push(s@));
            assert(string_views(given@).take(i + 1) =~= string_views(given@).take(i as int).push(given@[i as int]@));
        }
        i = i + 1;
    }
    proof {
        assert(string_views(given@).take(given@.len() as int) =~= string_views(given@));
    }
    r
}

/// The lock file of a database: its path followed by `.lock`.
pub fn lock_path(db_path: &str) -> (r: String)
    ensures
        r@ == db_path@ + ".lock"@,
{
    let mut v = str_chars(db_path);
    append_str(&mut v, ".lock");
    string_from_chars(v.as_slice())
}

/// How the updater builds the index.
#[derive(Clone, Copy, PartialEq, Eq, Structural, Debug)]
pub enum BuildPlan {
    /// A full rebuild.
    Full,
    /// A full rebuild, because there is no index to extend.
    FullNoIndex,
    /// A full rebuild, because the existing index has no directory table.
    FullNoDirTable,
    /// The new entries together with those of the existing index's directories.
    Incremental,
}

/// The build asked for: incremental only when asked for and not forced, and only over an
/// existing index that has a directory table.
pub fn build_plan(incremental: bool, force: bool, index_exists: bool, has_dir_table: bool) -> (p: BuildPlan)
    ensures
        p == (if !incremental || force {
            BuildPlan::Full
        } else if !index_exists {
            BuildPlan::FullNoIndex
        } else if !has_dir_table {
            BuildPlan::FullNoDirTable
        } else {
            BuildPlan::Incremental
        }),
{
    if !incremental || force {
        BuildPlan::Full
    } else if !index_exists {
        BuildPlan::FullNoIndex
    } else if !has_dir_table {
        BuildPlan::FullNoDirTable
    } else {
        BuildPlan::Incremental
    }
}

} // verus!
