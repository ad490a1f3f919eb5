//! Shortening paths to fit a table column.
use vstd::prelude::*;
use vstd::utf8::*;
use crate::text::{str_chars, string_from_chars, append_str, append_chars, contains_chars, chars_contain, occurs_at};
use crate::index::trigram::utf8_len;

verus! {

/// The final component `std::path::Path::file_name` finds in a path, as text: `None` where
/// the path ends in `..` or has no final component (or, in principle, where that component
/// were not text).
pub uninterp spec fn path_file_name(path: Seq<char>) -> Option<Seq<char>>;

/// `std::path::Path::new(path).file_name()`, as text.
#[verifier::external_body]
fn file_name_of(path: &str) -> (r: Option<String>)
    ensures
        match r {
            Some(f) => path_file_name(path@) == Some(f@),
            None => path_file_name(path@) is None,
        },
{
    std::path::Path::new(path).file_name().and_then(|n| n.to_str()).map(|s| s.to_string())
}

/// The name a path is shown by: its final component, or the whole path without one.
pub open spec fn shown_name(path: Seq<char>) -> Seq<char> {
    match path_file_name(path) {
        Some(f) => f,
        None => path,
    }
}

/// Whether a path of `utf8_len(path)` bytes is shortened to `width`: it is longer, and its
/// name leaves room for `...` and a `/`.
pub open spec fn is_shortened(path: Seq<char>, width: int) -> bool {
    utf8_len(path) > width && utf8_len(shown_name(path)) < width - 3
}

/// Where the kept part of a shortened path starts, in bytes.
pub open spec fn cut_start(path: Seq<char>, width: int) -> int {
    utf8_len(path) - width + 3
}

/// Where the kept part of a shortened path ends, in bytes: just before the `/` that
/// precedes the name.
pub open spec fn cut_end(path: Seq<char>, width: int) -> int {
    utf8_len(path) - utf8_len(shown_name(path)) - 1
}

/// Whether a shortened path can be cut where `format_path` cuts it: both ends of the kept
/// part fall between characters.
pub open spec fn cut_fits(path: Seq<char>, width: int) -> bool {
    is_shortened(path, width) ==> {
        &&& is_char_boundary(encode_utf8(path), cut_start(path, width))
        &&& is_char_boundary(encode_utf8(path), cut_end(path, width))
    }
}

/// A path as a column of `width` bytes shows it: whole when it fits; its name alone when
/// the name leaves no room; else `...`, the end of the directory part, `/` and the name,
/// `width` bytes in all.
pub open spec fn shortened_path(path: Seq<char>, width: int) -> Seq<char> {
    if utf8_len(path) <= width {
        path
    } else if !is_shortened(path, width) {
        shown_name(path)
    } else {
        "..."@ + decode_utf8(encode_utf8(path).subrange(cut_start(path, width), cut_end(path, width)))
            + "/"@ + shown_name(path)
    }
}

/// The name a path is shown by.
fn shown_name_of(path: &str) -> (r: String)
    ensures
        r@ == shown_name(path@),
{
    match file_name_of(path) {
        Some(f) => f,
        None => string_from_chars(str_chars(path).as_slice()),
    }
}

/// Whether `path` can be cut where `format_path` cuts it at `max_width`.
fn cut_fits_exec(path: &str, max_width: usize) -> (b: bool)
    requires
        max_width >= 3,
    ensures
        b == cut_fits(path@, max_width as int),
{
    let n = path.as_bytes().len();
    let name = shown_name_of(path);
    let flen = name.as_str().as_bytes().len();
    if n <= max_width || flen >= max_width - 3 {
        return true;
    }
    let start = n - max_width + 3;
    let end = n - flen - 1;
    path.is_char_boundary(start) && path.is_char_boundary(end)
}

/// `path` shortened to fit a column of `max_width` bytes (see `shortened_path`).
pub fn format_path(path: &str, max_width: usize) -> (r: String)
    requires
        utf8_len(path@) <= max_width || max_width >= 3,
        cut_fits(path@, max_width as int),
    ensures
        r@ == shortened_path(path@, max_width as int),
{
    let n = path.as_bytes().len();
    if n <= max_width {
        return string_from_chars(str_chars(path).as_slice());
    }
    let name = shown_name_of(path);
    let flen = name.as_str().as_bytes().len();
    if flen >= max_width - 3 {
        return name;
    }
    let start = n - max_width + 3;
    let end = n - flen - 1;
    let ghost bytes = encode_utf8(path@);
    proof {
        encode_utf8_valid_utf8(path@);
        valid_utf8_split(bytes, end as int);
    }
    let (head, _rest) = path.split_at(end);
    proof {
        let hb = encode_utf8(head@);
        assert(hb =~= bytes.subrange(0, end as int));
        if start < end {
            is_char_boundary_iff_not_is_continuation_byte(hb, start as int);
            is_char_boundary_iff_not_is_continuation_byte(bytes, start as int);
        } else {
            is_char_boundary_start_end_of_seq(hb);
        }
    }
    let (_lead, kept) = head.split_at(start);
    proof {
        assert(encode_utf8(kept@) =~= bytes.subrange(start as int, end as int));
        encode_utf8_decode_utf8(kept@);
    }
    let mut out: Vec<char> = Vec::new();
    append_str(&mut out, "...");
    append_str(&mut out, kept);
    append_str(&mut out, "/");
    append_str(&mut out, name.as_str());
    proof {
        reveal_strlit("...");
        reveal_strlit("/");
    }
    string_from_chars(out.as_slice())
}

/// `format_path`, where the cut falls between characters; `None` where it would split a
/// character.
pub fn format_path_checked(path: &str, max_width: usize) -> (r: Option<String>)
    requires
        max_width >= 3,
    ensures
        match r {
            Some(s) => cut_fits(path@, max_width as int) && s@ == shortened_path(path@, max_width as int),
            None => !cut_fits(path@, max_width as int),
        },
{
    if cut_fits_exec(path, max_width) {
        Some(format_path(path, max_width))
    } else {
        None
    }
}


/// The last position of `c` in `d`, or -1.
pub open spec fn last_index(d: Seq<char>, c: char) -> int
    decreases d.len(),
{
    if d.len() == 0 {
        -1
    } else if d.last() == c {
        d.len() - 1
    } else {
        last_index(d.drop_last(), c)
    }
}

/// The last position at or before `k` where `n` occurs in `d`, or -1.
pub open spec fn last_at(d: Seq<char>, n: Seq<char>, k: int) -> int
    decreases k + 1,
{
    if k < 0 {
        -1
    } else if k + n.len() <= d.len() && d.subrange(k, k + n.len()) == n {
        k
    } else {
        last_at(d, n, k - 1)
    }
}

/// How a path cell is coloured: the plain text, then the part shown bold (none when the
/// name is not found). A shortened path keeps its text before the last `/`, followed by
/// `.../`, plain, and shows what follows that `/` bold; otherwise the text before the
/// last occurrence of the name is plain and the name bold.
pub open spec fn colour_parts(d: Seq<char>, name: Seq<char>) -> (Seq<char>, Option<Seq<char>>) {
    if contains_chars(d, "..."@) {
        let i = last_index(d, '/');
        if i >= 0 {
            (d.subrange(0, i) + "..."@ + "/"@, Some(d.subrange(i + 1, d.len() as int)))
        } else {
            ("..."@ + "/"@, Some(d))
        }
    } else {
        let k = last_at(d, name, d.len() - name.len());
        if k >= 0 {
            (d.subrange(0, k), Some(name))
        } else {
            (d, None)
        }
    }
}

/// The plain and bold parts of a path cell showing `display`, whose file name is `name`
/// (see `colour_parts`).
pub fn colour_split(display: &str, name: &str) -> (r: (String, Option<String>))
    ensures
        r.0@ == colour_parts(display@, name@).0,
        match r.1 {
            Some(b) => colour_parts(display@, name@).1 == Some(b@),
            None => colour_parts(display@, name@).1 is None,
        },
{
    let d = str_chars(display);
    let nm = str_chars(name);
    let dots = str_chars("...");
    proof {
        reveal_strlit("...");
        reveal_strlit("/");
    }
    if chars_contain(d.as_slice(), dots.as_slice()) {
        let n = d.len();
        let mut i: usize = n;
        proof {
            assert(d@.subrange(0, n as int) =~= d@);
        }
        while i > 0 && d[i - 1] != '/'
            invariant
                0 <= i <= n,
                n == d@.len(),
                last_index(d@, '/') == last_index(d@.subrange(0, i as int), '/'),
            decreases i,
        {
            proof {
                assert(d@.subrange(0, i as int).drop_last() =~= d@.subrange(0, i - 1));
            }
            i = i - 1;
        }
        proof {
            assert(d@.subrange(0, n as int) =~= d@);
        }
        if i > 0 {
            proof {
                assert(last_index(d@.subrange(0, i as int), '/') == i - 1);
            }
            let mut plain: Vec<char> = Vec::new();
            let mut bold: Vec<char> = Vec::new();
            let mut q: usize = 0;
            while q < i - 1
                invariant
                    0 <= q <= i - 1,
                    i <= n,
                    n == d@.len(),
                    plain@ == d@.subrange(0, q as int),
                decreases i - 1 - q,
            {
                plain.push(d[q]);
                proof {
                    assert(plain@ =~= d@.subrange(0, q + 1));
                }
                q = q + 1;
            }
            append_str(&mut plain, ".../");
            let mut q2: usize = i;
            while q2 < n
                invariant
                    i <= q2 <= n,
                    n == d@.len(),
                    bold@ == d@.subrange(i as int, q2 as int),
                decreases n - q2,
            {
                bold.push(d[q2]);
                proof {
                    assert(bold@ =~= d@.subrange(i as int, q2 + 1));
                }
                q2 = q2 + 1;
            }
            proof {
                reveal_strlit(".../");
                assert(plain@ =~= d@.subrange(0, i - 1) + "..."@ + "/"@);
            }
            (string_from_chars(plain.as_slice()), Some(string_from_chars(bold.as_slice())))
        } else {
            let mut plain: Vec<char> = Vec::new();
            append_str(&mut plain, ".../");
            proof {
                reveal_strlit(".../");
                assert(plain@ =~= "..."@ + "/"@);
            }
            (string_from_chars(plain.as_slice()), Some(string_from_chars(d.as_slice())))
        }
    } else {
        let n = d.len();
        let m = nm.len();
        if m > n {
            proof {
                assert(last_at(d@, nm@, n - m) == -1);
            }
            return (string_from_chars(d.as_slice()), None);
        }
        if occurs_at(d.as_slice(), nm.as_slice(), n - m) {
            let mut plain: Vec<char> = Vec::new();
            let mut q: usize = 0;
            while q < n - m
                invariant
                    0 <= q <= n - m,
                    m <= n,
                    n == d@.len(),
                    plain@ == d@.subrange(0, q as int),
                decreases n - m - q,
            {
                plain.push(d[q]);
                proof {
                    assert(plain@ =~= d@.subrange(0, q + 1));
                }
                q = q + 1;
            }
            return (string_from_chars(plain.as_slice()), Some(string_from_chars(nm.as_slice())));
        }
        let mut k: usize = n - m;
        while k > 0 && !occurs_at(d.as_slice(), nm.as_slice(), k - 1)
            invariant
                0 <= k <= n - m,
                n == d@.len(),
                m == nm@.len(),
                m <= n,
                last_at(d@, nm@, n - m) == last_at(d@, nm@, k - 1),
            decreases k,
        {
            k = k - 1;
        }
        if k == 0 {
            (string_from_chars(d.as_slice()), None)
        } else {
            let mut plain: Vec<char> = Vec::new();
            let mut q: usize = 0;
            while q < k - 1
                invariant
                    0 <= q <= k - 1,
                    k <= n - m,
                    n == d@.len(),
                    plain@ == d@.subrange(0, q as int),
                decreases k - 1 - q,
            {
                plain.push(d[q]);
                proof {
                    assert(plain@ =~= d@.subrange(0, q + 1));
                }
                q = q + 1;
            }
            (string_from_chars(plain.as_slice()), Some(string_from_chars(nm.as_slice())))
        }
    }
}

} // verus!
