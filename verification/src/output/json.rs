//! JSON output: the entries as an array, and the count object.
use vstd::prelude::*;
use crate::text::{append_str, append_chars, dec_i128, dec_int, string_from_chars};

verus! {

/// One result as the JSON output lists it.
#[derive(Debug, Clone)]
pub struct JsonFileEntry {
    pub path: String,
    pub size: i64,
    pub mtime: i64,
    pub mode: i32,
    pub mime_type: String,
}

/// `{"count": N}` for a count of `N`.
pub fn render_json_count(count: i64) -> (r: String)
    ensures
        r@ == "{\"count\": "@ + dec_int(count as int) + "}"@,
{
    let mut v: Vec<char> = Vec::new();
    append_str(&mut v, "{\"count\": ");
    append_chars(&mut v, dec_i128(count as i128).as_slice());
    append_str(&mut v, "}");
    string_from_chars(v.as_slice())
}

} // verus!
