//! Trigram SQL for the table-backed store: the trigrams of a path and the query that
//! narrows files by them.
use vstd::prelude::*;
use vstd::string::*;
use crate::index::trigram::{trigrams_of_source, source_trigram_set, sorted_listing, string_views, utf8_len};
use crate::text::{lower_chars, lower_str_chars, str_chars, string_from_chars, append_str, append_chars};

verus! {

broadcast use vstd::string::group_string_axioms;

/// The trigrams of `path`: the distinct three-character windows, sorted. A path shorter
/// than three bytes is framed as `_path_` and cut to three characters.
pub fn generate_trigrams(path: &str) -> (r: Vec<String>)
    ensures
        sorted_listing(string_views(r@), source_trigram_set(path@, utf8_len(path@))),
{
    trigrams_of_source(path)
}

/// The trigrams of the ASCII lower-cased path.
pub fn generate_trigrams_lowercase(path: &str) -> (r: Vec<String>)
    ensures
        sorted_listing(string_views(r@), source_trigram_set(lower_chars(path@), utf8_len(lower_chars(path@)))),
{
    let lowered = string_from_chars(lower_str_chars(path).as_slice());
    trigrams_of_source(lowered.as_str())
}

/// How a character is written inside a `LIKE` pattern with `\` as escape: `\`, `%` and
/// `_` are escaped.
pub open spec fn escape_char(c: char) -> Seq<char> {
    if c == '\\' || c == '%' || c == '_' {
        seq!['\\', c]
    } else {
        seq![c]
    }
}

/// A text escaped for a `LIKE` pattern.
pub open spec fn escape_like_spec(s: Seq<char>) -> Seq<char>
    decreases s.len(),
{
    if s.len() == 0 {
        Seq::empty()
    } else {
        escape_like_spec(s.drop_last()) + escape_char(s.last())
    }
}

fn escape_chars(s: &[char]) -> (r: Vec<char>)
    ensures
        r@ == escape_like_spec(s@),
{
    let mut r: Vec<char> = Vec::new();
    let mut i: usize = 0;
    while i < s.len()
        invariant
            0 <= i <= s@.len(),
            r@ == escape_like_spec(s@.subrange(0, i as int)),
        decreases s@.len() - i,
    {
        let c = s[i];
        proof {
            assert(s@.subrange(0, i + 1).drop_last() =~= s@.subrange(0, i as int));
        }
        let ghost before = r@;
        if c == '\\' || c == '%' || c == '_' {
            r.push('\\');
        }
        r.push(c);
        proof {
            assert(r@ =~= before + escape_char(c));
        }
        i = i + 1;
    }
    proof {
        assert(s@.subrange(0, s@.len() as int) =~= s@);
    }
    r
}

/// Escapes `\`, `%` and `_` with a backslash.
pub fn escape_like(pattern: &str) -> (r: String)
    ensures
        r@ == escape_like_spec(pattern@),
{
    let v = str_chars(pattern);
    string_from_chars(escape_chars(v.as_slice()).as_slice())
}

/// The `LIKE` pattern for a search pattern, and whether the comparison lower-cases the
/// path: the escaped pattern, after `%/` for a basename search, lower-cased when case is
/// ignored.
pub fn pattern_to_like(pattern: &str, ignore_case: bool, basename: bool) -> (r: (String, bool))
    ensures
        ({
            let e = escape_like_spec(pattern@);
            if basename {
                r.0@ == seq!['%', '/'] + (if ignore_case { lower_chars(e) } else { e }) && !r.1
            } else if ignore_case {
                r.0@ == lower_chars(e) && r.1
            } else {
                r.0@ == e && !r.1
            }
        }),
{
    let escaped = escape_like(pattern);
    if basename {
        let mut v: Vec<char> = Vec::new();
        v.push('%');
        v.push('/');
        if ignore_case {
            append_chars(&mut v, lower_str_chars(escaped.as_str()).as_slice());
        } else {
            append_str(&mut v, escaped.as_str());
        }
        proof {
            assert(seq!['%', '/'] =~= Seq::<char>::empty().push('%').push('/'));
        }
        (string_from_chars(v.as_slice()), false)
    } else if ignore_case {
        (string_from_chars(lower_str_chars(escaped.as_str()).as_slice()), true)
    } else {
        (escaped, false)
    }
}

/// `n` copies of `item` joined by `sep`.
pub open spec fn repeat_join(item: Seq<char>, sep: Seq<char>, n: nat) -> Seq<char>
    decreases n,
{
    if n == 0 {
        Seq::empty()
    } else if n == 1 {
        item
    } else {
        repeat_join(item, sep, (n - 1) as nat) + sep + item
    }
}

/// The trigrams a pattern is looked up by: those of the lower-cased pattern when case is
/// ignored.
pub open spec fn query_trigrams(p: Seq<char>, ignore_case: bool) -> Set<Seq<char>> {
    if ignore_case {
        source_trigram_set(lower_chars(p), utf8_len(lower_chars(p)))
    } else {
        source_trigram_set(p, utf8_len(p))
    }
}

/// The path condition of a one-trigram query.
pub open spec fn single_condition(ignore_case: bool) -> Seq<char> {
    if ignore_case {
        "LOWER(full_path) LIKE LOWER(?)"@
    } else {
        "full_path LIKE ?"@
    }
}

/// The pattern a many-trigram query looks for in paths, before escaping.
pub open spec fn query_like_text(p: Seq<char>, ignore_case: bool) -> Seq<char> {
    if ignore_case { lower_chars(p) } else { p }
}

/// The LIKE text of a many-trigram query: the escaped pattern anywhere in the path, or,
/// by basename, right after a `/`.
pub open spec fn query_like_pattern(p: Seq<char>, ignore_case: bool, basename: bool) -> Seq<char> {
    let e = escape_like_spec(query_like_text(p, ignore_case));
    if basename {
        seq!['%', '/'] + e + seq!['%']
    } else {
        seq!['%'] + e + seq!['%']
    }
}

/// The path condition of a many-trigram query.
pub open spec fn multi_condition(p: Seq<char>, ignore_case: bool, basename: bool) -> Seq<char> {
    let e = query_like_pattern(p, ignore_case, basename);
    if ignore_case {
        "LOWER(full_path) LIKE LOWER('"@ + e + "') ESCAPE '\\'"@
    } else {
        "full_path LIKE '"@ + e + "' ESCAPE '\\'"@
    }
}

/// The SQL that narrows files by a pattern's trigrams (one `?` per trigram, in sorted
/// order), for a pattern of three bytes or more.
pub open spec fn trigram_query_spec(p: Seq<char>, ignore_case: bool, basename: bool) -> Option<Seq<char>> {
    let n = query_trigrams(p, ignore_case).len();
    if utf8_len(p) < 3 || n == 0 {
        None
    } else if n == 1 {
        Some("SELECT f.* FROM files f JOIN (SELECT file_id FROM trigrams WHERE trigram = ?) t ON f.id = t.file_id WHERE "@
            + single_condition(ignore_case))
    } else {
        Some("SELECT f.* FROM files f WHERE f.id IN ("@ + repeat_join(
            "SELECT file_id FROM trigrams WHERE trigram = ?"@,
            " INTERSECT "@,
            n,
        ) + ") AND "@ + multi_condition(p, ignore_case, basename))
    }
}

/// The number of trigrams a sorted listing holds is the size of its set.
proof fn lemma_listing_len(v: Seq<Seq<char>>, s: Set<Seq<char>>)
    requires
        sorted_listing(v, s),
    ensures
        v.len() == s.len(),
{
    assert(v.no_duplicates()) by {
        assert forall|i: int, j: int| 0 <= i < v.len() && 0 <= j < v.len() && i != j implies v[i] != v[j] by {
            if i < j {
                assert(crate::index::trigram::tri_lt(v[i], v[j]));
            } else {
                assert(crate::index::trigram::tri_lt(v[j], v[i]));
            }
        }
    }
    v.unique_seq_to_set();
    assert(v.to_set() =~= s);
}

/// The SQL that narrows files by the trigrams of `pattern` and keeps the paths that hold
/// it (see `trigram_query_spec`); nothing for a pattern shorter than three bytes.
pub fn build_trigram_query(pattern: &str, ignore_case: bool, basename: bool) -> (r: Option<String>)
    ensures
        match r {
            Some(q) => trigram_query_spec(pattern@, ignore_case, basename) == Some(q@),
            None => trigram_query_spec(pattern@, ignore_case, basename) is None,
        },
{
    if pattern.as_bytes().len() < 3 {
        return None;
    }
    let trigrams = if ignore_case {
        generate_trigrams_lowercase(pattern)
    } else {
        generate_trigrams(pattern)
    };
    proof {
        lemma_listing_len(string_views(trigrams@), query_trigrams(pattern@, ignore_case));
    }
    let n = trigrams.len();
    if n == 0 {
        return None;
    }
    if n == 1 {
        let mut v: Vec<char> = Vec::new();
        append_str(&mut v, "SELECT f.* FROM files f JOIN (SELECT file_id FROM trigrams WHERE trigram = ?) t ON f.id = t.file_id WHERE ");
        if ignore_case {
            append_str(&mut v, "LOWER(full_path) LIKE LOWER(?)");
        } else {
            append_str(&mut v, "full_path LIKE ?");
        }
        return Some(string_from_chars(v.as_slice()));
    }
    let mut inter: Vec<char> = Vec::new();
    let mut i: usize = 0;
    while i < n
        invariant
            0 <= i <= n,
            inter@ == repeat_join("SELECT file_id FROM trigrams WHERE trigram = ?"@, " INTERSECT "@, i as nat),
        decreases n - i,
    {
        if i > 0 {
            append_str(&mut inter, " INTERSECT ");
        }
        append_str(&mut inter, "SELECT file_id FROM trigrams WHERE trigram = ?");
        proof {
            if i == 0 {
                assert(inter@ =~= "SELECT file_id FROM trigrams WHERE trigram = ?"@);
            }
        }
        i = i + 1;
    }
    let mut like: Vec<char> = Vec::new();
    if ignore_case {
        append_chars(&mut like, lower_str_chars(pattern).as_slice());
    } else {
        append_str(&mut like, pattern);
    }
    proof {
        assert(like@ =~= query_like_text(pattern@, ignore_case));
    }
    let esc = escape_chars(like.as_slice());
    let mut escaped: Vec<char> = Vec::new();
    escaped.push('%');
    if basename {
        escaped.push('/');
    }
    append_chars(&mut escaped, esc.as_slice());
    escaped.push('%');
    proof {
        if basename {
            assert(escaped@ =~= query_like_pattern(pattern@, ignore_case, basename));
        } else {
            assert(escaped@ =~= query_like_pattern(pattern@, ignore_case, basename));
        }
    }
    let mut q: Vec<char> = Vec::new();
    append_str(&mut q, "SELECT f.* FROM files f WHERE f.id IN (");
    append_chars(&mut q, inter.as_slice());
    append_str(&mut q, ") AND ");
    if ignore_case {
        append_str(&mut q, "LOWER(full_path) LIKE LOWER('");
        append_chars(&mut q, escaped.as_slice());
        append_str(&mut q, "') ESCAPE '\\'");
    } else {
        append_str(&mut q, "full_path LIKE '");
        append_chars(&mut q, escaped.as_slice());
        append_str(&mut q, "' ESCAPE '\\'");
    }
    proof {
        assert(q@ =~= "SELECT f.* FROM files f WHERE f.id IN ("@ + repeat_join(
            "SELECT file_id FROM trigrams WHERE trigram = ?"@,
            " INTERSECT "@,
            n as nat,
        ) + ") AND "@ + multi_condition(pattern@, ignore_case, basename));
    }
    Some(string_from_chars(q.as_slice()))
}

} // verus!
