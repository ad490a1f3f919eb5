use vstd::prelude::*;
use vstd::string::*;

verus! {

broadcast use vstd::string::group_string_axioms;

/// Appends one character to a string.
#[verifier::external_body]
pub(crate) fn push_char(s: &mut String, c: char)
    ensures
        final(s)@ == old(s)@.push(c),
{
    s.push(c)
}

/// The characters of a string slice, in order.
pub fn str_chars(s: &str) -> (v: Vec<char>)
    ensures
        v@ == s@,
{
    let mut v: Vec<char> = Vec::new();
    for c in it: s.chars()
        invariant
            v@ == it.seq().take(it.index() as int),
            it.seq() == s@,
    {
        v.push(c);
    }
    v
}

/// A string holding exactly the given characters.
pub fn string_from_chars(v: &[char]) -> (s: String)
    ensures
        s@ == v@,
{
    let mut s = String::new();
    let mut i: usize = 0;
    while i < v.len()
        invariant
            0 <= i <= v@.len(),
            s@ == v@.take(i as int),
        decreases v@.len() - i,
    {
        push_char(&mut s, v[i]);
        proof {
            assert(v@.take(i + 1) =~= v@.take(i as int).push(v@[i as int]));
        }
        i = i + 1;
    }
    proof {
        assert(v@.take(v@.len() as int) =~= v@);
    }
    s
}

/// ASCII lower-casing of one character: `A`..`Z` map to `a`..`z`, all else is kept.
pub open spec fn lower_char(c: char) -> char {
    if 'A' <= c && c <= 'Z' {
        ((c as u32) + 32) as char
    } else {
        c
    }
}

/// ASCII lower-casing of a character sequence.
pub open spec fn lower_chars(s: Seq<char>) -> Seq<char> {
    s.map_values(|c: char| lower_char(c))
}

pub fn ascii_lower(c: char) -> (r: char)
    ensures
        r == lower_char(c),
{
    if c >= 'A' && c <= 'Z' {
        let b: u8 = (c as u8) + 32;
        b as char
    } else {
        c
    }
}

/// The ASCII lower-cased characters of a string slice.
pub fn lower_str_chars(s: &str) -> (v: Vec<char>)
    ensures
        v@ == lower_chars(s@),
{
    let mut v: Vec<char> = Vec::new();
    for c in it: s.chars()
        invariant
            v@ == lower_chars(it.seq().take(it.index() as int)),
            it.seq() == s@,
    {
        let l = ascii_lower(c);
        proof {
            assert(lower_chars(it.seq().take(it.index() + 1)) =~= lower_chars(
                it.seq().take(it.index() as int),
            ).push(l));
        }
        v.push(l);
    }
    proof {
        assert(s@.take(s@.len() as int) =~= s@);
    }
    v
}

/// `n` occurs in `h` as a run of consecutive characters (the empty run occurs in all).
pub open spec fn contains_chars(h: Seq<char>, n: Seq<char>) -> bool {
    exists|i: int| 0 <= i && i + n.len() <= h.len() && #[trigger] h.subrange(i, i + n.len()) == n
}

/// Whether `n` occurs at position `i` of `h`.
pub(crate) fn occurs_at(h: &[char], n: &[char], i: usize) -> (b: bool)
    requires
        i + n@.len() <= h@.len(),
    ensures
        b == (h@.subrange(i as int, i + n@.len()) == n@),
{
    let hl = h.len();
    let mut k: usize = 0;
    while k < n.len()
        invariant
            hl == h@.len(),
            i + n@.len() <= h@.len(),
            0 <= k <= n@.len(),
            forall|q: int| 0 <= q < k ==> h@[i + q] == n@[q],
        decreases n@.len() - k,
    {
        if h[i + k] != n[k] {
            proof {
                assert(h@.subrange(i as int, i + n@.len())[k as int] != n@[k as int]);
            }
            return false;
        }
        k = k + 1;
    }
    proof {
        assert(h@.subrange(i as int, i + n@.len()) =~= n@);
    }
    true
}

/// Whether `n` occurs in `h`.
pub fn chars_contain(h: &[char], n: &[char]) -> (b: bool)
    ensures
        b == contains_chars(h@, n@),
{
    if n.len() > h.len() {
        return false;
    }
    let last = h.len() - n.len();
    let mut i: usize = 0;
    loop
        invariant
            last + n@.len() == h@.len(),
            0 <= i <= last,
            forall|q: int| 0 <= q < i ==> #[trigger] h@.subrange(q, q + n@.len()) != n@,
        decreases last - i,
    {
        if occurs_at(h, n, i) {
            return true;
        }
        if i == last {
            return false;
        }
        i = i + 1;
    }
}

/// The text after the last `/` of `path`, or all of it when it has none.
pub open spec fn after_last_slash(path: Seq<char>) -> Seq<char> {
    if exists|i: int| 0 <= i < path.len() && path[i] == '/' {
        let k = choose|k: int| 0 <= k < path.len() && path[k] == '/' && forall|j: int| k < j < path.len() ==> path[j] != '/';
        path.subrange(k + 1, path.len() as int)
    } else {
        path
    }
}

/// The characters after the last `/`, or all of them.
pub fn basename_chars(path: &[char]) -> (r: Vec<char>)
    ensures
        r@ == after_last_slash(path@),
{
    let n = path.len();
    let mut k: usize = n;
    while k > 0 && path[k - 1] != '/'
        invariant
            0 <= k <= n,
            n == path@.len(),
            forall|j: int| k <= j < n ==> path@[j] != '/',
        decreases k,
    {
        k = k - 1;
    }
    let mut r: Vec<char> = Vec::new();
    let start = k;
    let mut i: usize = start;
    while i < n
        invariant
            start <= i <= n,
            n == path@.len(),
            r@ == path@.subrange(start as int, i as int),
        decreases n - i,
    {
        r.push(path[i]);
        proof {
            assert(path@.subrange(start as int, i + 1) =~= path@.subrange(start as int, i as int).push(path@[i as int]));
        }
        i = i + 1;
    }
    proof {
        if k > 0 {
            let kk = (k - 1) as int;
            assert(path@[kk] == '/');
            let c = choose|c: int| 0 <= c < path@.len() && path@[c] == '/' && forall|j: int| c < j < path@.len() ==> path@[j] != '/';
            if c < kk {
                assert(path@[kk] != '/');
            }
            if c > kk {
                assert(path@[c] != '/');
            }
        } else {
            assert(path@.subrange(0, n as int) =~= path@);
        }
    }
    r
}

/// The characters with the Unicode `White_Space` property, which `str::trim` removes.
pub open spec fn is_ws(c: char) -> bool {
    ||| c == '\t' || c == '\n' || c == '\u{0B}' || c == '\u{0C}' || c == '\r' || c == ' '
    ||| c == '\u{85}' || c == '\u{A0}' || c == '\u{1680}'
    ||| ('\u{2000}' <= c && c <= '\u{200A}')
    ||| c == '\u{2028}' || c == '\u{2029}' || c == '\u{202F}' || c == '\u{205F}' || c == '\u{3000}'
}

pub fn is_whitespace_char(c: char) -> (b: bool)
    ensures
        b == is_ws(c),
{
    c == '\t' || c == '\n' || c == '\u{0B}' || c == '\u{0C}' || c == '\r' || c == ' ' || c == '\u{85}'
        || c == '\u{A0}' || c == '\u{1680}' || ('\u{2000}' <= c && c <= '\u{200A}') || c == '\u{2028}'
        || c == '\u{2029}' || c == '\u{202F}' || c == '\u{205F}' || c == '\u{3000}'
}

/// `s` without its leading white space.
pub open spec fn trim_start_chars(s: Seq<char>) -> Seq<char>
    decreases s.len(),
{
    if s.len() > 0 && is_ws(s[0]) {
        trim_start_chars(s.drop_first())
    } else {
        s
    }
}

/// `s` without its trailing white space.
pub open spec fn trim_end_chars(s: Seq<char>) -> Seq<char>
    decreases s.len(),
{
    if s.len() > 0 && is_ws(s.last()) {
        trim_end_chars(s.drop_last())
    } else {
        s
    }
}

/// `s` without leading and trailing white space, as `str::trim` gives it.
pub open spec fn trim_chars(s: Seq<char>) -> Seq<char> {
    trim_end_chars(trim_start_chars(s))
}

/// The characters of `s` without leading and trailing white space.
pub fn trim_vec(s: &[char]) -> (r: Vec<char>)
    ensures
        r@ == trim_chars(s@),
{
    let n = s.len();
    let mut a: usize = 0;
    proof {
        assert(s@.subrange(0, n as int) =~= s@);
    }
    while a < n && is_whitespace_char(s[a])
        invariant
            n == s@.len(),
            0 <= a <= n,
            trim_start_chars(s@) == trim_start_chars(s@.subrange(a as int, n as int)),
        decreases n - a,
    {
        proof {
            assert(s@.subrange(a as int, n as int).drop_first() =~= s@.subrange(a + 1, n as int));
        }
        a = a + 1;
    }
    proof {
        assert(trim_start_chars(s@.subrange(a as int, n as int)) == s@.subrange(a as int, n as int));
    }
    let mut b: usize = n;
    while b > a && is_whitespace_char(s[b - 1])
        invariant
            n == s@.len(),
            a <= b <= n,
            trim_chars(s@) == trim_end_chars(s@.subrange(a as int, b as int)),
        decreases b - a,
    {
        proof {
            assert(s@.subrange(a as int, b as int).drop_last() =~= s@.subrange(a as int, b - 1));
        }
        b = b - 1;
    }
    let mut r: Vec<char> = Vec::new();
    let mut i: usize = a;
    while i < b
        invariant
            a <= i <= b,
            b <= n,
            n == s@.len(),
            r@ == s@.subrange(a as int, i as int),
        decreases b - i,
    {
        r.push(s[i]);
        proof {
            assert(s@.subrange(a as int, i + 1) =~= s@.subrange(a as int, i as int).push(s@[i as int]));
        }
        i = i + 1;
    }
    r
}

/// The value of a run of ASCII decimal digits.
pub open spec fn digits_value(d: Seq<char>) -> int
    decreases d.len(),
{
    if d.len() == 0 {
        0
    } else {
        digits_value(d.drop_last()) * 10 + (d.last() as int - '0' as int)
    }
}

pub open spec fn all_digits(d: Seq<char>) -> bool {
    forall|i: int| 0 <= i < d.len() ==> '0' <= #[trigger] d[i] && d[i] <= '9'
}

/// What `str::parse::<u64>` gives: an optional `+`, then one or more ASCII digits whose
/// value fits.
pub open spec fn parse_u64_spec(s: Seq<char>) -> Option<u64> {
    let d = if s.len() > 0 && s[0] == '+' { s.drop_first() } else { s };
    if d.len() > 0 && all_digits(d) && digits_value(d) <= u64::MAX {
        Some(digits_value(d) as u64)
    } else {
        None
    }
}

/// What `str::parse::<i64>` gives: an optional sign, then one or more ASCII digits whose
/// signed value fits.
pub open spec fn parse_i64_spec(s: Seq<char>) -> Option<i64> {
    let neg = s.len() > 0 && s[0] == '-';
    let d = if s.len() > 0 && (s[0] == '+' || s[0] == '-') { s.drop_first() } else { s };
    let v = if neg { -digits_value(d) } else { digits_value(d) };
    if d.len() > 0 && all_digits(d) && i64::MIN <= v <= i64::MAX {
        Some(v as i64)
    } else {
        None
    }
}

proof fn lemma_digits_value_nonneg(d: Seq<char>)
    requires
        all_digits(d),
    ensures
        digits_value(d) >= 0,
    decreases d.len(),
{
    if d.len() > 0 {
        assert(all_digits(d.drop_last())) by {
            assert forall|i: int| 0 <= i < d.drop_last().len() implies '0' <= #[trigger] d.drop_last()[i] && d.drop_last()[i] <= '9' by {
                assert(d.drop_last()[i] == d[i]);
            }
        }
        lemma_digits_value_nonneg(d.drop_last());
        assert('0' <= d[d.len() - 1]);
    }
}

/// More digits never make the value smaller.
proof fn lemma_digits_grow(d: Seq<char>, k: int)
    requires
        all_digits(d),
        0 <= k <= d.len(),
    ensures
        digits_value(d) >= digits_value(d.take(k)),
    decreases d.len(),
{
    if k < d.len() {
        let init = d.drop_last();
        assert(all_digits(init)) by {
            assert forall|i: int| 0 <= i < init.len() implies '0' <= #[trigger] init[i] && init[i] <= '9' by {
                assert(init[i] == d[i]);
            }
        }
        lemma_digits_grow(init, k);
        lemma_digits_value_nonneg(init);
        assert(init.take(k) =~= d.take(k));
        assert('0' <= d[d.len() - 1]);
    } else {
        assert(d.take(k) =~= d);
    }
}

/// The value of the digits `s[from..]`, or `None` when one is not a digit or the value
/// passes `limit`.
fn digits_upto(s: &[char], from: usize, limit: u64) -> (r: Option<u64>)
    requires
        from <= s@.len(),
    ensures
        match r {
            Some(v) => all_digits(s@.subrange(from as int, s@.len() as int)) && digits_value(
                s@.subrange(from as int, s@.len() as int),
            ) == v && v <= limit,
            None => !all_digits(s@.subrange(from as int, s@.len() as int)) || digits_value(
                s@.subrange(from as int, s@.len() as int),
            ) > limit,
        },
{
    let n = s.len();
    let ghost full = s@.subrange(from as int, n as int);
    let mut acc: u128 = 0;
    let mut i: usize = from;
    proof {
        assert(s@.subrange(from as int, from as int) =~= Seq::<char>::empty());
    }
    while i < n
        invariant
            n == s@.len(),
            from <= i <= n,
            full == s@.subrange(from as int, n as int),
            all_digits(s@.subrange(from as int, i as int)),
            digits_value(s@.subrange(from as int, i as int)) == acc,
            acc <= limit,
        decreases n - i,
    {
        let c = s[i];
        let ghost pre = s@.subrange(from as int, i as int);
        let ghost nxt = s@.subrange(from as int, i + 1);
        proof {
            assert(nxt.drop_last() =~= pre);
            assert(full[i - from] == c);
        }
        if c < '0' || c > '9' {
            return None;
        }
        let dv = (c as u32 - '0' as u32) as u128;
        proof {
            assert forall|q: int| 0 <= q < nxt.len() implies '0' <= #[trigger] nxt[q] && nxt[q] <= '9' by {
                if q < pre.len() {
                    assert(nxt[q] == pre[q]);
                }
            }
            assert(digits_value(nxt) == acc * 10 + dv);
        }
        acc = acc * 10 + dv;
        i = i + 1;
        if acc > limit as u128 {
            proof {
                if all_digits(full) {
                    assert(full.take(i - from) =~= nxt);
                    lemma_digits_grow(full, i - from);
                }
            }
            return None;
        }
    }
    proof {
        assert(full =~= s@.subrange(from as int, i as int));
    }
    Some(acc as u64)
}

/// `str::parse::<u64>`.
pub fn parse_u64(s: &[char]) -> (r: Option<u64>)
    ensures
        r == parse_u64_spec(s@),
{
    let from: usize = if s.len() > 0 && s[0] == '+' { 1 } else { 0 };
    proof {
        if from == 1 {
            assert(s@.drop_first() =~= s@.subrange(1, s@.len() as int));
        } else {
            assert(s@ =~= s@.subrange(0, s@.len() as int));
        }
    }
    if from == s.len() {
        return None;
    }
    digits_upto(s, from, u64::MAX)
}

/// `str::parse::<i64>`.
pub fn parse_i64(s: &[char]) -> (r: Option<i64>)
    ensures
        r == parse_i64_spec(s@),
{
    let neg = s.len() > 0 && s[0] == '-';
    let from: usize = if s.len() > 0 && (s[0] == '+' || s[0] == '-') { 1 } else { 0 };
    proof {
        if from == 1 {
            assert(s@.drop_first() =~= s@.subrange(1, s@.len() as int));
        } else {
            assert(s@ =~= s@.subrange(0, s@.len() as int));
        }
    }
    if from == s.len() {
        return None;
    }
    let limit: u64 = if neg { 0x8000_0000_0000_0000 } else { 0x7fff_ffff_ffff_ffff };
    match digits_upto(s, from, limit) {
        Some(v) => {
            if neg {
                if v == 0x8000_0000_0000_0000 {
                    Some(i64::MIN)
                } else {
                    Some(-(v as i64))
                }
            } else {
                Some(v as i64)
            }
        },
        None => None,
    }
}

/// The decimal digit for `d` below ten.
pub open spec fn digit_char(d: int) -> char {
    ((d + 48) as u32) as char
}

/// The decimal digits of `n`, most significant first, as `{}` formats an unsigned number.
pub open spec fn dec_digits(n: nat) -> Seq<char>
    decreases n,
{
    if n < 10 {
        seq![digit_char(n as int)]
    } else {
        dec_digits(n / 10).push(digit_char((n % 10) as int))
    }
}

/// The decimal text of an integer, with a leading `-` when negative.
pub open spec fn dec_int(v: int) -> Seq<char> {
    if v < 0 {
        seq!['-'] + dec_digits((-v) as nat)
    } else {
        dec_digits(v as nat)
    }
}

/// The decimal digits of `n`.
pub fn dec_u128(n: u128) -> (r: Vec<char>)
    ensures
        r@ == dec_digits(n as nat),
    decreases n,
{
    if n < 10 {
        let c = ((n as u8) + 48) as char;
        let mut r: Vec<char> = Vec::new();
        r.push(c);
        proof {
            assert(r@ =~= seq![digit_char(n as int)]);
        }
        r
    } else {
        let mut r = dec_u128(n / 10);
        let d = (n % 10) as u8;
        let c = (d + 48) as char;
        r.push(c);
        proof {
            assert(c == digit_char((n % 10) as int));
        }
        r
    }
}

/// The lowercase hexadecimal digit for `d` below sixteen.
pub open spec fn hex_char(d: int) -> char {
    if d < 10 {
        ((d + 48) as u32) as char
    } else {
        ((d + 87) as u32) as char
    }
}

/// The last `k` hexadecimal digits of `n`, most significant first, zero-padded: what
/// `{:0kx}` formats for a number below `16^k`.
pub open spec fn hex_digits(n: nat, k: nat) -> Seq<char>
    decreases k,
{
    if k == 0 {
        Seq::empty()
    } else {
        hex_digits(n / 16, (k - 1) as nat).push(hex_char((n % 16) as int))
    }
}

/// The last `k` hexadecimal digits of `n`.
pub fn hex_fixed(n: u64, k: u32) -> (r: Vec<char>)
    ensures
        r@ == hex_digits(n as nat, k as nat),
    decreases k,
{
    if k == 0 {
        return Vec::new();
    }
    let mut r = hex_fixed(n / 16, k - 1);
    let d = (n % 16) as u8;
    let c = if d < 10 { (d + 48) as char } else { (d + 87) as char };
    r.push(c);
    r
}

/// The decimal text of `v`.
pub fn dec_i128(v: i128) -> (r: Vec<char>)
    requires
        v > i128::MIN,
    ensures
        r@ == dec_int(v as int),
{
    if v < 0 {
        let mut r: Vec<char> = Vec::new();
        r.push('-');
        let d = dec_u128((-v) as u128);
        let mut i: usize = 0;
        while i < d.len()
            invariant
                0 <= i <= d@.len(),
                r@ == seq!['-'] + d@.subrange(0, i as int),
            decreases d@.len() - i,
        {
            r.push(d[i]);
            proof {
                assert(seq!['-'] + d@.subrange(0, i + 1) =~= (seq!['-'] + d@.subrange(0, i as int)).push(d@[i as int]));
            }
            i = i + 1;
        }
        proof {
            assert(d@.subrange(0, d@.len() as int) =~= d@);
        }
        r
    } else {
        dec_u128(v as u128)
    }
}

/// Appends `b` to `a`.
pub fn append_chars(a: &mut Vec<char>, b: &[char])
    ensures
        final(a)@ == old(a)@ + b@,
{
    let mut i: usize = 0;
    while i < b.len()
        invariant
            0 <= i <= b@.len(),
            a@ == old(a)@ + b@.subrange(0, i as int),
        decreases b@.len() - i,
    {
        a.push(b[i]);
        proof {
            assert(old(a)@ + b@.subrange(0, i + 1) =~= (old(a)@ + b@.subrange(0, i as int)).push(b@[i as int]));
        }
        i = i + 1;
    }
    proof {
        assert(b@.subrange(0, b@.len() as int) =~= b@);
    }
}

/// Appends the characters of `s` to `a`.
pub fn append_str(a: &mut Vec<char>, s: &str)
    ensures
        final(a)@ == old(a)@ + s@,
{
    let v = str_chars(s);
    append_chars(a, v.as_slice());
}

} // verus!
