//! File-type icons: a Nerd Font glyph, or a bracketed tag without one.
use vstd::prelude::*;
use crate::text::{str_chars, string_from_chars};

verus! {

/// The extension `std::path::Path::extension` finds in a path: what follows the last `.`
/// of the last component, unless that component has no `.` or begins with its only one.
pub uninterp spec fn path_extension(path: Seq<char>) -> Option<Seq<char>>;

/// `std::path::Path::new(path).extension()`, as text (a `&str` path's extension always
/// is).
#[verifier::external_body]
pub(crate) fn extension_of(path: &str) -> (r: Option<String>)
    ensures
        match r {
            Some(e) => path_extension(path@) == Some(e@),
            None => path_extension(path@) is None,
        },
{
    std::path::Path::new(path).extension().and_then(|e| e.to_str()).map(|s| s.to_string())
}

/// The icon of a file with extension `ext` (empty for none), or of a directory.
pub open spec fn icon_text(ext: Seq<char>, is_dir: bool, nerd: bool) -> Seq<char> {
    if is_dir {
        if nerd { "\u{fc6e} "@ } else { "[dir] "@ }
    } else if ext == "rs"@ {
        if nerd { "\u{e7a8} "@ } else { "[rs] "@ }
    } else if ext == "py"@ {
        if nerd { "\u{e606} "@ } else { "[py] "@ }
    } else if ext == "js"@ {
        if nerd { "\u{e74e} "@ } else { "[js] "@ }
    } else if ext == "ts"@ {
        if nerd { "\u{e628} "@ } else { "[ts] "@ }
    } else if ext == "json"@ {
        if nerd { "\u{e60b} "@ } else { "[json] "@ }
    } else if ext == "yaml"@ || ext == "yml"@ {
        if nerd { "\u{f16f} "@ } else { "[yaml] "@ }
    } else if ext == "md"@ {
        if nerd { "\u{f48a} "@ } else { "[md] "@ }
    } else if ext == "pdf"@ {
        if nerd { "\u{f724} "@ } else { "[pdf] "@ }
    } else if ext == "png"@ || ext == "jpg"@ || ext == "jpeg"@ || ext == "gif"@ || ext == "svg"@ {
        if nerd { "\u{f7e8} "@ } else { "[img] "@ }
    } else if ext == "zip"@ || ext == "tar"@ || ext == "gz"@ || ext == "bz2"@ {
        if nerd { "\u{f1c6} "@ } else { "[zip] "@ }
    } else if ext == "sh"@ || ext == "bash"@ || ext == "zsh"@ {
        if nerd { "\u{e795} "@ } else { "[sh] "@ }
    } else if ext == "c"@ || ext == "h"@ || ext == "cpp"@ || ext == "hpp"@ {
        if nerd { "\u{e61e} "@ } else { "[c] "@ }
    } else if ext == "go"@ {
        if nerd { "\u{e627} "@ } else { "[go] "@ }
    } else if ext == "rb"@ {
        if nerd { "\u{e791} "@ } else { "[rb] "@ }
    } else if ext == "css"@ {
        if nerd { "\u{e749} "@ } else { "[css] "@ }
    } else if ext == "html"@ {
        if nerd { "\u{f13b} "@ } else { "[html] "@ }
    } else if ext == "toml"@ {
        if nerd { "\u{e6b2} "@ } else { "[toml] "@ }
    } else if ext == "lock"@ {
        if nerd { "\u{f023} "@ } else { "[lock] "@ }
    } else {
        if nerd { "\u{f713} "@ } else { "[?] "@ }
    }
}

/// Whether the characters `a` spell `lit`.
fn spells(a: &[char], lit: &str) -> (b: bool)
    ensures
        b == (a@ == lit@),
{
    let l = str_chars(lit);
    if a.len() != l.len() {
        return false;
    }
    let mut i: usize = 0;
    while i < a.len()
        invariant
            a@.len() == l@.len(),
            l@ == lit@,
            0 <= i <= a@.len(),
            forall|q: int| 0 <= q < i ==> a@[q] == l@[q],
        decreases a@.len() - i,
    {
        if a[i] != l[i] {
            proof {
                assert(a@[i as int] != l@[i as int]);
            }
            return false;
        }
        i = i + 1;
    }
    proof {
        assert(a@ =~= l@);
    }
    true
}

/// Picks between the glyph and the tag.
fn pick(nerd: bool, glyph: &str, tag: &str) -> (r: String)
    ensures
        r@ == (if nerd { glyph@ } else { tag@ }),
{
    if nerd {
        string_from_chars(str_chars(glyph).as_slice())
    } else {
        string_from_chars(str_chars(tag).as_slice())
    }
}

/// The icon of a path: a directory's when `is_dir`, else by the path's extension (see
/// `icon_text`); the glyph when a Nerd Font is available, the tag otherwise.
pub fn get_icon(path: &str, mime_type: &str, is_dir: bool, has_nerd: bool) -> (r: String)
    ensures
        r@ == icon_text(
            match path_extension(path@) {
                Some(e) => e,
                None => Seq::empty(),
            },
            is_dir,
            has_nerd,
        ),
{
    if is_dir {
        return pick(has_nerd, "\u{fc6e} ", "[dir] ");
    }
    let ext: Vec<char> = match extension_of(path) {
        Some(e) => str_chars(e.as_str()),
        None => Vec::new(),
    };
    let e = ext.as_slice();
    if spells(e, "rs") {
        pick(has_nerd, "\u{e7a8} ", "[rs] ")
    } else if spells(e, "py") {
        pick(has_nerd, "\u{e606} ", "[py] ")
    } else if spells(e, "js") {
        pick(has_nerd, "\u{e74e} ", "[js] ")
    } else if spells(e, "ts") {
        pick(has_nerd, "\u{e628} ", "[ts] ")
    } else if spells(e, "json") {
        pick(has_nerd, "\u{e60b} ", "[json] ")
    } else if spells(e, "yaml") || spells(e, "yml") {
        pick(has_nerd, "\u{f16f} ", "[yaml] ")
    } else if spells(e, "md") {
        pick(has_nerd, "\u{f48a} ", "[md] ")
    } else if spells(e, "pdf") {
        pick(has_nerd, "\u{f724} ", "[pdf] ")
    } else if spells(e, "png") || spells(e, "jpg") || spells(e, "jpeg") || spells(e, "gif") || spells(e, "svg") {
        pick(has_nerd, "\u{f7e8} ", "[img] ")
    } else if spells(e, "zip") || spells(e, "tar") || spells(e, "gz") || spells(e, "bz2") {
        pick(has_nerd, "\u{f1c6} ", "[zip] ")
    } else if spells(e, "sh") || spells(e, "bash") || spells(e, "zsh") {
        pick(has_nerd, "\u{e795} ", "[sh] ")
    } else if spells(e, "c") || spells(e, "h") || spells(e, "cpp") || spells(e, "hpp") {
        pick(has_nerd, "\u{e61e} ", "[c] ")
    } else if spells(e, "go") {
        pick(has_nerd, "\u{e627} ", "[go] ")
    } else if spells(e, "rb") {
        pick(has_nerd, "\u{e791} ", "[rb] ")
    } else if spells(e, "css") {
        pick(has_nerd, "\u{e749} ", "[css] ")
    } else if spells(e, "html") {
        pick(has_nerd, "\u{f13b} ", "[html] ")
    } else if spells(e, "toml") {
        pick(has_nerd, "\u{e6b2} ", "[toml] ")
    } else if spells(e, "lock") {
        pick(has_nerd, "\u{f023} ", "[lock] ")
    } else {
        pick(has_nerd, "\u{f713} ", "[?] ")
    }
}

} // verus!
