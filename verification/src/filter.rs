//! Size, modification-time and MIME-type filters, and their parsers.
use vstd::prelude::*;
use crate::error::MlocateError;
use crate::text::{trim_chars, trim_vec, str_chars, string_from_chars, parse_u64, parse_i64, parse_u64_spec, parse_i64_spec};

verus! {

/// How a file's value compares with a filter's.
#[derive(Debug, Clone, Copy, PartialEq, Eq, Structural)]
pub enum CmpOp {
    Eq,
    Ge,
    Le,
}

/// Files of `bytes` bytes, or at least / at most that.
#[derive(Debug, Clone)]
pub struct SizeFilter {
    pub bytes: u64,
    pub operator: CmpOp,
}

/// Files modified `seconds` ago, or at least / at most that long ago.
#[derive(Debug, Clone)]
pub struct ModifiedFilter {
    pub seconds: i64,
    pub operator: CmpOp,
}

/// Files of one MIME type, or of every type a glob matches (`*` standing for any run of
/// characters).
#[derive(Debug, Clone)]
pub struct MimeFilter {
    pub pattern: String,
    pub is_glob: bool,
}

/// The characters that `str::to_uppercase` gives for a text (full Unicode case mapping).
pub uninterp spec fn uppercase_of(s: Seq<char>) -> Seq<char>;

/// ASCII upper-casing of one character: `a`..`z` map to `A`..`Z`, all else is kept.
pub open spec fn upper_char(c: char) -> char {
    if 'a' <= c && c <= 'z' {
        ((c as u32) - 32) as char
    } else {
        c
    }
}

/// `str::to_uppercase`. On ASCII text it upper-cases the ASCII letters and keeps every
/// other character (the Unicode mapping of ASCII characters).
#[verifier::external_body]
fn to_uppercase(s: &str) -> (r: String)
    ensures
        r@ == uppercase_of(s@),
        (forall|i: int| 0 <= i < s@.len() ==> (#[trigger] s@[i] as u32) < 128) ==> r@ == s@.map_values(
            |c: char| upper_char(c),
        ),
{
    s.to_uppercase()
}

/// `e` is an invalid-size error carrying `t`.
pub open spec fn size_error_for(e: MlocateError, t: Seq<char>) -> bool {
    match e {
        MlocateError::InvalidSizeFilter { input } => input@ == t,
        _ => false,
    }
}

/// `e` is an invalid-time error carrying `t`.
pub open spec fn time_error_for(e: MlocateError, t: Seq<char>) -> bool {
    match e {
        MlocateError::InvalidTimeFilter { input } => input@ == t,
        _ => false,
    }
}

/// `e` is an invalid-MIME error carrying `t`.
pub open spec fn mime_error_for(e: MlocateError, t: Seq<char>) -> bool {
    match e {
        MlocateError::InvalidMimeType { input } => input@ == t,
        _ => false,
    }
}

/// `s` ends with the character `c`.
pub open spec fn ends_with_char(s: Seq<char>, c: char) -> bool {
    s.len() > 0 && s.last() == c
}

/// `s` ends with the two characters `a`, `b`.
pub open spec fn ends_with_two(s: Seq<char>, a: char, b: char) -> bool {
    s.len() >= 2 && s[s.len() - 2] == a && s.last() == b
}

/// `s` without its last `k` characters.
pub open spec fn drop_end(s: Seq<char>, k: int) -> Seq<char> {
    s.subrange(0, s.len() - k)
}

/// A parsed count times a unit, when the count parsed.
pub open spec fn scaled(n: Option<u64>, unit: int) -> Option<int> {
    match n {
        Some(v) => Some(v * unit),
        None => None,
    }
}

/// The byte count an upper-cased size text denotes: a count with an optional `GB`, `MB`,
/// `KB` (powers of 1000) or `B` unit, or `None` when the count does not parse.
pub open spec fn upper_size_value(u: Seq<char>) -> Option<int> {
    if ends_with_two(u, 'G', 'B') {
        scaled(parse_u64_spec(trim_chars(drop_end(u, 2))), 1_000_000_000)
    } else if ends_with_two(u, 'M', 'B') {
        scaled(parse_u64_spec(trim_chars(drop_end(u, 2))), 1_000_000)
    } else if ends_with_two(u, 'K', 'B') {
        scaled(parse_u64_spec(trim_chars(drop_end(u, 2))), 1_000)
    } else if ends_with_char(u, 'B') {
        scaled(parse_u64_spec(trim_chars(drop_end(u, 1))), 1)
    } else {
        scaled(parse_u64_spec(trim_chars(u)), 1)
    }
}

/// The seconds a duration text denotes: a signed count with a `w`, `d`, `h` or `m` unit.
pub open spec fn duration_value(t: Seq<char>) -> Option<int> {
    if ends_with_char(t, 'w') {
        match parse_i64_spec(drop_end(t, 1)) { Some(n) => Some(n * 604800), None => None }
    } else if ends_with_char(t, 'd') {
        match parse_i64_spec(drop_end(t, 1)) { Some(n) => Some(n * 86400), None => None }
    } else if ends_with_char(t, 'h') {
        match parse_i64_spec(drop_end(t, 1)) { Some(n) => Some(n * 3600), None => None }
    } else if ends_with_char(t, 'm') {
        match parse_i64_spec(drop_end(t, 1)) { Some(n) => Some(n * 60), None => None }
    } else {
        None
    }
}

/// The value part of a filter text and its comparison: a trailing `+` or `-` picks
/// `plus` or `minus`, no suffix gives `Eq`.
pub open spec fn split_suffix(t: Seq<char>, plus: CmpOp, minus: CmpOp) -> (Seq<char>, CmpOp) {
    if ends_with_char(t, '+') {
        (drop_end(t, 1), plus)
    } else if ends_with_char(t, '-') {
        (drop_end(t, 1), minus)
    } else {
        (t, CmpOp::Eq)
    }
}

/// Splits a trailing `+` or `-` off `t`.
fn split_op(t: &Vec<char>, plus: CmpOp, minus: CmpOp) -> (r: (Vec<char>, CmpOp))
    ensures
        r.0@ == split_suffix(t@, plus, minus).0,
        r.1 == split_suffix(t@, plus, minus).1,
{
    let n = t.len();
    if n > 0 && (t[n - 1] == '+' || t[n - 1] == '-') {
        let op = if t[n - 1] == '+' { plus } else { minus };
        let mut v: Vec<char> = Vec::new();
        let mut i: usize = 0;
        while i < n - 1
            invariant
                n == t@.len(),
                n > 0,
                0 <= i <= n - 1,
                v@ == t@.subrange(0, i as int),
            decreases n - 1 - i,
        {
            v.push(t[i]);
            proof {
                assert(t@.subrange(0, i + 1) =~= t@.subrange(0, i as int).push(t@[i as int]));
            }
            i = i + 1;
        }
        (v, op)
    } else {
        (t.clone(), CmpOp::Eq)
    }
}

/// The first `k` characters of `v`.
fn prefix_vec(v: &[char], k: usize) -> (r: Vec<char>)
    requires
        k <= v@.len(),
    ensures
        r@ == v@.subrange(0, k as int),
{
    let mut r: Vec<char> = Vec::new();
    let mut i: usize = 0;
    while i < k
        invariant
            k <= v@.len(),
            0 <= i <= k,
            r@ == v@.subrange(0, i as int),
        decreases k - i,
    {
        r.push(v[i]);
        proof {
            assert(v@.subrange(0, i + 1) =~= v@.subrange(0, i as int).push(v@[i as int]));
        }
        i = i + 1;
    }
    r
}

/// Parses a count and multiplies it by `unit`; `None` when the count does not parse or
/// the product does not fit.
fn scaled_count(num: &[char], unit: u64) -> (r: Option<u64>)
    requires
        unit >= 1,
    ensures
        match r {
            Some(v) => scaled(parse_u64_spec(trim_chars(num@)), unit as int) == Some(v as int),
            None => scaled(parse_u64_spec(trim_chars(num@)), unit as int) matches Some(x) ==> x > u64::MAX,
        },
{
    let t = trim_vec(num);
    match parse_u64(t.as_slice()) {
        Some(n) => n.checked_mul(unit),
        None => None,
    }
}

/// The byte count of an upper-cased size text, as `upper_size_value` states it. A text
/// that does not parse, or whose count does not fit a `u64`, is an invalid size filter
/// carrying the text.
pub fn parse_upper_size(upper: &str) -> (r: Result<u64, MlocateError>)
    ensures
        match r {
            Ok(v) => upper_size_value(upper@) == Some(v as int),
            Err(e) => (upper_size_value(upper@) matches Some(x) ==> x > u64::MAX) && size_error_for(e, upper@),
        },
{
    let u = str_chars(upper);
    let n = u.len();
    let r = if n >= 2 && u[n - 2] == 'G' && u[n - 1] == 'B' {
        let num = prefix_vec(u.as_slice(), n - 2);
        scaled_count(num.as_slice(), 1_000_000_000)
    } else if n >= 2 && u[n - 2] == 'M' && u[n - 1] == 'B' {
        let num = prefix_vec(u.as_slice(), n - 2);
        scaled_count(num.as_slice(), 1_000_000)
    } else if n >= 2 && u[n - 2] == 'K' && u[n - 1] == 'B' {
        let num = prefix_vec(u.as_slice(), n - 2);
        scaled_count(num.as_slice(), 1_000)
    } else if n >= 1 && u[n - 1] == 'B' {
        let num = prefix_vec(u.as_slice(), n - 1);
        scaled_count(num.as_slice(), 1)
    } else {
        scaled_count(u.as_slice(), 1)
    };
    match r {
        Some(v) => Ok(v),
        None => Err(MlocateError::InvalidSizeFilter { input: string_from_chars(u.as_slice()) }),
    }
}

/// A byte count: the text trimmed and upper-cased, then read as `parse_upper_size` reads it.
fn parse_bytes(input: &[char]) -> (r: Result<u64, MlocateError>)
    ensures
        match r {
            Ok(v) => upper_size_value(uppercase_of(trim_chars(input@))) == Some(v as int),
            Err(e) => (upper_size_value(uppercase_of(trim_chars(input@))) matches Some(x) ==> x > u64::MAX)
                && size_error_for(e, uppercase_of(trim_chars(input@))),
        },
{
    let t = trim_vec(input);
    let ts = string_from_chars(t.as_slice());
    let upper = to_uppercase(ts.as_str());
    parse_upper_size(upper.as_str())
}

/// Parses a size filter: a byte count (see `upper_size_value`) with an optional `+` (at
/// least) or `-` (at most) suffix.
pub fn parse_size(input: &str) -> (r: Result<SizeFilter, MlocateError>)
    ensures
        ({
            let (value, op) = split_suffix(trim_chars(input@), CmpOp::Ge, CmpOp::Le);
            let u = uppercase_of(trim_chars(value));
            match r {
                Ok(f) => upper_size_value(u) == Some(f.bytes as int) && f.operator == op,
                Err(e) => (upper_size_value(u) matches Some(x) ==> x > u64::MAX) && size_error_for(e, u),
            }
        }),
{
    let chars = str_chars(input);
    let t = trim_vec(chars.as_slice());
    let (value, op) = split_op(&t, CmpOp::Ge, CmpOp::Le);
    match parse_bytes(value.as_slice()) {
        Ok(bytes) => Ok(SizeFilter { bytes, operator: op }),
        Err(e) => Err(e),
    }
}

/// The seconds of a duration text, as `duration_value` states it; the text is trimmed
/// first. A text with no unit, a count that does not parse, or seconds that do not fit an
/// `i64`, is an invalid time filter carrying the trimmed text.
fn parse_duration(input: &[char]) -> (r: Result<i64, MlocateError>)
    ensures
        match r {
            Ok(v) => duration_value(trim_chars(input@)) == Some(v as int),
            Err(e) => (duration_value(trim_chars(input@)) matches Some(x) ==> (x < i64::MIN || x > i64::MAX))
                && time_error_for(e, trim_chars(input@)),
        },
{
    let t = trim_vec(input);
    let n = t.len();
    let unit: i64 = if n == 0 {
        0
    } else if t[n - 1] == 'w' {
        604800
    } else if t[n - 1] == 'd' {
        86400
    } else if t[n - 1] == 'h' {
        3600
    } else if t[n - 1] == 'm' {
        60
    } else {
        0
    };
    if unit == 0 {
        return Err(MlocateError::InvalidTimeFilter { input: string_from_chars(t.as_slice()) });
    }
    let num = prefix_vec(t.as_slice(), n - 1);
    match parse_i64(num.as_slice()) {
        Some(c) => match c.checked_mul(unit) {
            Some(v) => Ok(v),
            None => Err(MlocateError::InvalidTimeFilter { input: string_from_chars(t.as_slice()) }),
        },
        None => Err(MlocateError::InvalidTimeFilter { input: string_from_chars(t.as_slice()) }),
    }
}

/// Parses a modification-time filter: a duration (see `duration_value`) with an optional
/// `+` (modified at least that long ago) or `-` (at most that long ago) suffix.
pub fn parse_modified(input: &str) -> (r: Result<ModifiedFilter, MlocateError>)
    ensures
        ({
            let (value, op) = split_suffix(trim_chars(input@), CmpOp::Le, CmpOp::Ge);
            match r {
                Ok(f) => duration_value(trim_chars(value)) == Some(f.seconds as int) && f.operator == op,
                Err(e) => (duration_value(trim_chars(value)) matches Some(x) ==> (x < i64::MIN || x > i64::MAX))
                    && time_error_for(e, trim_chars(value)),
            }
        }),
{
    let chars = str_chars(input);
    let t = trim_vec(chars.as_slice());
    let (value, op) = split_op(&t, CmpOp::Le, CmpOp::Ge);
    match parse_duration(value.as_slice()) {
        Ok(seconds) => Ok(ModifiedFilter { seconds, operator: op }),
        Err(e) => Err(e),
    }
}

/// How many times `c` occurs in `s`.
pub open spec fn count_char(s: Seq<char>, c: char) -> nat
    decreases s.len(),
{
    if s.len() == 0 {
        0
    } else {
        count_char(s.drop_last(), c) + if s.last() == c { 1nat } else { 0nat }
    }
}

fn count_of(s: &[char], c: char) -> (n: usize)
    ensures
        n == count_char(s@, c),
{
    let mut n: usize = 0;
    let mut i: usize = 0;
    while i < s.len()
        invariant
            0 <= i <= s@.len(),
            n == count_char(s@.subrange(0, i as int), c),
            n <= i,
        decreases s@.len() - i,
    {
        proof {
            assert(s@.subrange(0, i + 1).drop_last() =~= s@.subrange(0, i as int));
        }
        if s[i] == c {
            n = n + 1;
        }
        i = i + 1;
    }
    proof {
        assert(s@.subrange(0, s@.len() as int) =~= s@);
    }
    n
}

/// Parses a MIME filter: `type/subtype` matches exactly; a text with one `*` and a `/`
/// is a glob. Empty text, a text without `/`, or more than one `*` is an invalid MIME
/// type carrying the trimmed text.
pub fn parse_mime_type(input: &str) -> (r: Result<MimeFilter, MlocateError>)
    ensures
        ({
            let t = trim_chars(input@);
            let glob = t.contains('*');
            let valid = t.len() > 0 && t.contains('/') && (!glob || count_char(t, '*') <= 1);
            match r {
                Ok(f) => valid && f.pattern@ == t && f.is_glob == glob,
                Err(e) => !valid && mime_error_for(e, t),
            }
        }),
{
    let chars = str_chars(input);
    let t = trim_vec(chars.as_slice());
    let stars = count_of(t.as_slice(), '*');
    let slashes = count_of(t.as_slice(), '/');
    proof {
        lemma_count_contains(t@, '*');
        lemma_count_contains(t@, '/');
    }
    if t.len() == 0 {
        return Err(MlocateError::InvalidMimeType { input: string_from_chars(t.as_slice()) });
    }
    if stars > 0 {
        if slashes == 0 || stars > 1 {
            return Err(MlocateError::InvalidMimeType { input: string_from_chars(t.as_slice()) });
        }
        Ok(MimeFilter { pattern: string_from_chars(t.as_slice()), is_glob: true })
    } else {
        if slashes == 0 {
            return Err(MlocateError::InvalidMimeType { input: string_from_chars(t.as_slice()) });
        }
        Ok(MimeFilter { pattern: string_from_chars(t.as_slice()), is_glob: false })
    }
}

/// A character occurs exactly when it is counted.
proof fn lemma_count_contains(s: Seq<char>, c: char)
    ensures
        (count_char(s, c) > 0) == s.contains(c),
    decreases s.len(),
{
    if s.len() > 0 {
        lemma_count_contains(s.drop_last(), c);
        if s.drop_last().contains(c) {
            let i = choose|i: int| 0 <= i < s.drop_last().len() && s.drop_last()[i] == c;
            assert(s[i] == c);
        }
        if s.contains(c) && s.last() != c {
            let i = choose|i: int| 0 <= i < s.len() && s[i] == c;
            assert(s.drop_last()[i] == c);
        }
        if s.last() == c {
            assert(s[s.len() - 1] == c);
        }
    }
}

} // verus!
