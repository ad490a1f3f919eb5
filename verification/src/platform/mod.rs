//! Where the index lives and what is indexed by default, per operating system.
pub mod path;

use vstd::prelude::*;
use crate::text::{append_str, string_from_chars, str_chars};

verus! {

/// The database path: the override when given, else `mlocate.db` in the default
/// directory.
pub fn db_path(override_path: Option<&str>, default_dir: &str) -> (r: String)
    ensures
        r@ == match override_path {
            Some(p) => p@,
            None => default_dir@ + "/mlocate.db"@,
        },
{
    if let Some(p) = override_path {
        return string_from_chars(str_chars(p).as_slice());
    }
    let mut v = str_chars(default_dir);
    append_str(&mut v, "/mlocate.db");
    string_from_chars(v.as_slice())
}

/// The temporary database path: the database path followed by `.tmp`.
pub fn tmp_db_path(override_path: Option<&str>, default_dir: &str) -> (r: String)
    ensures
        r@ == match override_path {
            Some(p) => p@,
            None => default_dir@ + "/mlocate.db"@,
        } + ".tmp"@,
{
    let base = db_path(override_path, default_dir);
    let mut v = str_chars(base.as_str());
    append_str(&mut v, ".tmp");
    string_from_chars(v.as_slice())
}

/// The number of extractor threads by default: 4, as the usage documents.
pub fn default_parallel() -> (n: usize)
    ensures
        n == 4,
{
    4
}

} // verus!
