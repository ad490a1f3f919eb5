//! The extraction pipeline's records and sizing.
use vstd::prelude::*;
use crate::output::icons::{extension_of, path_extension};

verus! {

/// A file as the crawler and extractor record it.
#[derive(Debug, Clone)]
pub struct FileEntry {
    pub full_path: String,
    pub size: i64,
    pub mtime: i64,
    pub mode: i32,
    pub mime_type: String,
    pub dir_path: String,
}

/// The capacities of the crawl-to-extract and extract-to-batch channels: 500 and 2000
/// per extractor thread.
pub fn channel_sizes(extractor_threads: usize, _batch_size: usize) -> (r: (usize, usize))
    requires
        extractor_threads * 2000 <= usize::MAX,
    ensures
        r.0 == extractor_threads * 500,
        r.1 == extractor_threads * 2000,
{
    let crawl_to_extract = extractor_threads * 500;
    let extract_to_batch = extractor_threads * 2000;
    (crawl_to_extract, extract_to_batch)
}

/// The MIME type recorded for a file: the type guessed from its name unless that is
/// `application/octet-stream`; then, for a name without extension, the type read from
/// its first bytes when one was found; `application/octet-stream` otherwise.
pub fn choose_mime(guessed: &str, has_extension: bool, sniffed: Option<String>) -> (r: String)
    ensures
        r@ == if guessed@ != "application/octet-stream"@ {
            guessed@
        } else if !has_extension && sniffed is Some {
            sniffed->0@
        } else {
            "application/octet-stream"@
        },
{
    let g = crate::text::str_chars(guessed);
    let o = crate::text::str_chars("application/octet-stream");
    let mut same = g.len() == o.len();
    let mut i: usize = 0;
    while same && i < g.len()
        invariant
            0 <= i <= g@.len(),
            o@ == "application/octet-stream"@,
            same ==> g@.len() == o@.len(),
            same ==> forall|q: int| 0 <= q < i ==> g@[q] == o@[q],
            !same ==> g@ != o@,
        decreases g@.len() - i,
    {
        if g[i] != o[i] {
            same = false;
            proof {
                assert(g@[i as int] != o@[i as int]);
            }
        }
        i = i + 1;
    }
    proof {
        if same {
            assert(g@ =~= o@);
        }
    }
    if !same {
        return crate::text::string_from_chars(g.as_slice());
    }
    if !has_extension {
        if let Some(m) = sniffed {
            return m;
        }
    }
    crate::text::string_from_chars(o.as_slice())
}


/// The essence (`type/subtype`) of `mime_guess::from_path(path).first_or_octet_stream()`:
/// the first type registered for the path's extension, `application/octet-stream` when
/// there is none.
pub uninterp spec fn mime_guess_of(path: Seq<char>) -> Seq<char>;

/// What `infer::get` recognises in the leading bytes `head`: the MIME type of the first
/// matcher that accepts them, or `None`.
pub uninterp spec fn sniffed_mime_of(head: Seq<u8>) -> Option<Seq<char>>;

/// `mime_guess::from_path(path).first_or_octet_stream()`, as its essence text.
#[verifier::external_body]
fn guess_mime(path: &str) -> (r: String)
    ensures
        r@ == mime_guess_of(path@),
{
    mime_guess::from_path(path).first_or_octet_stream().essence_str().to_string()
}

/// `infer::get(head)`, as the MIME type text of what it recognises.
#[verifier::external_body]
fn sniff_mime(head: &[u8]) -> (r: Option<String>)
    ensures
        match r {
            Some(m) => sniffed_mime_of(head@) == Some(m@),
            None => sniffed_mime_of(head@) is None,
        },
{
    infer::get(head).map(|k| k.mime_type().to_string())
}

/// The MIME type recorded for a file at `path` whose leading bytes (up to 4096) are
/// `head` where they were read: the type guessed from the name unless that is
/// `application/octet-stream`; then, for a name without extension, the type recognised
/// in non-empty leading bytes; `application/octet-stream` otherwise.
pub open spec fn detected_mime(path: Seq<char>, head: Option<Seq<u8>>) -> Seq<char> {
    let g = mime_guess_of(path);
    if g != "application/octet-stream"@ {
        g
    } else if path_extension(path) is None && (head matches Some(h) && h.len() > 0 && sniffed_mime_of(h) is Some) {
        sniffed_mime_of(head->0)->0
    } else {
        "application/octet-stream"@
    }
}

/// Whether the leading bytes of the file at `path` are looked at: its name has no
/// extension, so the name gives no type (see `detected_mime`).
pub fn needs_sniff(path: &str) -> (b: bool)
    ensures
        b == (path_extension(path@) is None),
{
    extension_of(path).is_none()
}

/// The MIME type of the file at `path`, with `head` its leading bytes where they were
/// read (see `detected_mime`).
pub fn detect_mime(path: &str, head: Option<&[u8]>) -> (r: String)
    ensures
        r@ == detected_mime(path@, match head { Some(h) => Some(h@), None => None }),
{
    let guessed = guess_mime(path);
    let has_extension = extension_of(path).is_some();
    let sniffed = if !has_extension {
        match head {
            Some(h) => if h.len() > 0 { sniff_mime(h) } else { None },
            None => None,
        }
    } else {
        None
    };
    choose_mime(guessed.as_str(), has_extension, sniffed)
}

} // verus!
