use vstd::prelude::*;
use vstd::string::*;
use crate::text::{lower_chars, lower_char, str_chars, lower_str_chars, string_from_chars};

verus! {

broadcast use vstd::string::group_string_axioms;

/// A trigram in its working form: three characters.
pub type Tri = (char, char, char);

/// The characters of a trigram tuple.
pub open spec fn tri_seq(t: Tri) -> Seq<char> {
    seq![t.0, t.1, t.2]
}

/// Strict order on trigram tuples: lexicographic by code point.
pub open spec fn tup_lt(a: Tri, b: Tri) -> bool {
    a.0 < b.0 || (a.0 == b.0 && (a.1 < b.1 || (a.1 == b.1 && a.2 < b.2)))
}

/// Strict order on three-character sequences: lexicographic by code point, which is also
/// the byte order of their UTF-8 encodings.
pub open spec fn tri_lt(a: Seq<char>, b: Seq<char>) -> bool {
    a[0] < b[0] || (a[0] == b[0] && (a[1] < b[1] || (a[1] == b[1] && a[2] < b[2])))
}

/// All length-`n` windows (contiguous runs) of `s`.
pub open spec fn windows(s: Seq<char>, n: int) -> Set<Seq<char>> {
    Set::new(|w: Seq<char>| exists|i: int| 0 <= i && i + n <= s.len() && w == #[trigger] s.subrange(i, i + n))
}

/// The text that trigrams are cut from: a path shorter than three bytes is framed by
/// underscores and cut to three characters.
pub open spec fn trigram_source(path: Seq<char>, byte_len: int) -> Seq<char> {
    if byte_len < 3 {
        let framed = seq!['_'] + path + seq!['_'];
        if framed.len() > 3 {
            framed.take(3)
        } else {
            framed
        }
    } else {
        path
    }
}

/// The trigrams cut from a path's source: the whole source when it has fewer than three
/// characters, otherwise every three-character window of it.
pub open spec fn source_trigram_set(path: Seq<char>, byte_len: int) -> Set<Seq<char>> {
    let s = trigram_source(path, byte_len);
    if s.len() < 3 {
        set![s]
    } else {
        windows(s, 3)
    }
}

/// The trigrams of a path: `___` for the empty path, otherwise those of its source.
pub open spec fn trigram_set(path: Seq<char>, byte_len: int) -> Set<Seq<char>> {
    if path.len() == 0 {
        set![seq!['_', '_', '_']]
    } else {
        source_trigram_set(path, byte_len)
    }
}

/// `v` lists exactly the members of `set`, in strictly increasing order.
pub open spec fn sorted_listing(v: Seq<Seq<char>>, set: Set<Seq<char>>) -> bool {
    &&& forall|w: Seq<char>| set.contains(w) <==> v.contains(w)
    &&& forall|i: int, j: int| 0 <= i < j < v.len() ==> tri_lt(v[i], v[j])
}

/// The character views of a list of strings.
pub open spec fn string_views(v: Seq<String>) -> Seq<Seq<char>> {
    v.map_values(|s: String| s@)
}

/// Tuples strictly increasing.
pub open spec fn tuples_sorted(v: Seq<Tri>) -> bool {
    forall|i: int, j: int| 0 <= i < j < v.len() ==> tup_lt(v[i], v[j])
}

pub(crate) fn tup_less(a: Tri, b: Tri) -> (r: bool)
    ensures
        r == tup_lt(a, b),
{
    a.0 < b.0 || (a.0 == b.0 && (a.1 < b.1 || (a.1 == b.1 && a.2 < b.2)))
}

/// Adds `w` to a strictly increasing list of tuples, keeping it strictly increasing and
/// free of repeats.
pub(crate) fn insert_sorted(v: &mut Vec<Tri>, w: Tri)
    requires
        tuples_sorted(old(v)@),
    ensures
        tuples_sorted(final(v)@),
        forall|x: Tri| final(v)@.contains(x) <==> (old(v)@.contains(x) || x == w),
{
    let mut p: usize = 0;
    while p < v.len() && tup_less(v[p], w)
        invariant
            0 <= p <= v@.len(),
            v@ == old(v)@,
            forall|k: int| 0 <= k < p ==> tup_lt(v@[k], w),
        decreases v@.len() - p,
    {
        p = p + 1;
    }
    if p < v.len() && v[p].0 == w.0 && v[p].1 == w.1 && v[p].2 == w.2 {
        proof {
            assert(v@[p as int] == w);
        }
        return;
    }
    proof {
        if p < v@.len() {
            assert(!tup_lt(v@[p as int], w));
            assert(v@[p as int] != w);
            assert(tup_lt(w, v@[p as int]));
        }
    }
    let ghost before = v@;
    assert(before == old(v)@);
    v.insert(p, w);
    proof {
        assert forall|x: Tri| v@.contains(x) <==> (before.contains(x) || x == w) by {
            if v@.contains(x) {
                let k = choose|k: int| 0 <= k < v@.len() && v@[k] == x;
                if k < p {
                    assert(before[k] == x);
                } else if k > p {
                    assert(before[k - 1] == x);
                }
            }
            if before.contains(x) {
                let k = choose|k: int| 0 <= k < before.len() && before[k] == x;
                if k < p {
                    assert(v@[k] == x);
                } else {
                    assert(v@[k + 1] == x);
                }
            }
            if x == w {
                assert(v@[p as int] == w);
            }
        }
        assert(forall|x: Tri| v@.contains(x) <==> (old(v)@.contains(x) || x == w));
        assert forall|i: int, j: int| 0 <= i < j < v@.len() implies tup_lt(v@[i], v@[j]) by {
            if j < p {
            } else if j == p {
            } else if i < p {
                assert(tup_lt(before[i], before[j - 1]));
            } else if i == p {
                if j - 1 > p {
                    assert(tup_lt(before[p as int], before[j - 1]));
                }
            } else {
                assert(tup_lt(before[i - 1], before[j - 1]));
            }
        }
    }
}

/// The distinct three-character windows of `src`, in strictly increasing order.
pub(crate) fn sorted_windows(src: &Vec<char>) -> (v: Vec<Tri>)
    requires
        src@.len() >= 3,
    ensures
        tuples_sorted(v@),
        forall|t: Tri| v@.contains(t) <==> windows(src@, 3).contains(tri_seq(t)),
{
    let mut v: Vec<Tri> = Vec::new();
    let mut i: usize = 0;
    let n = src.len() - 2;
    while i < n
        invariant
            n == src@.len() - 2,
            src@.len() <= usize::MAX,
            0 <= i <= n,
            tuples_sorted(v@),
            forall|t: Tri| v@.contains(t) <==> (exists|k: int| 0 <= k < i && tri_seq(t) == #[trigger] src@.subrange(k, k + 3)),
        decreases n - i,
    {
        let w: Tri = (src[i], src[i + 1], src[i + 2]);
        let ghost old_v = v@;
        insert_sorted(&mut v, w);
        proof {
            assert(tri_seq(w) =~= src@.subrange(i as int, i + 3));
            assert forall|t: Tri| v@.contains(t) <==> (exists|k: int| 0 <= k < i + 1 && tri_seq(t) == #[trigger] src@.subrange(k, k + 3)) by {
                if exists|k: int| 0 <= k < i + 1 && tri_seq(t) == #[trigger] src@.subrange(k, k + 3) {
                    let k = choose|k: int| 0 <= k < i + 1 && tri_seq(t) == #[trigger] src@.subrange(k, k + 3);
                    if k == i {
                        assert(tri_seq(t)[0] == tri_seq(w)[0]);
                        assert(tri_seq(t)[1] == tri_seq(w)[1]);
                        assert(tri_seq(t)[2] == tri_seq(w)[2]);
                        assert(t == w);
                    }
                }
            }
        }
        i = i + 1;
    }
    proof {
        assert forall|t: Tri| v@.contains(t) <==> windows(src@, 3).contains(tri_seq(t)) by {
            if windows(src@, 3).contains(tri_seq(t)) {
                let k = choose|k: int| 0 <= k && k + 3 <= src@.len() && tri_seq(t) == #[trigger] src@.subrange(k, k + 3);
                assert(0 <= k < n);
            }
        }
    }
    v
}

/// Number of bytes in the UTF-8 encoding of `s`.
pub open spec fn utf8_len(s: Seq<char>) -> int {
    vstd::utf8::encode_utf8(s).len() as int
}

pub(crate) fn tris_to_strings(v: &Vec<Tri>) -> (r: Vec<String>)
    ensures
        string_views(r@) == v@.map_values(|t: Tri| tri_seq(t)),
{
    let mut r: Vec<String> = Vec::new();
    let mut i: usize = 0;
    while i < v.len()
        invariant
            0 <= i <= v@.len(),
            string_views(r@) == v@.take(i as int).map_values(|t: Tri| tri_seq(t)),
        decreases v@.len() - i,
    {
        let t = v[i];
        let arr = [t.0, t.1, t.2];
        let s = string_from_chars(&arr);
        proof {
            assert(arr@ =~= tri_seq(t));
        }
        let ghost old_r = r@;
        r.push(s);
        proof {
            assert(s@ == tri_seq(t));
            assert(v@.take(i + 1) =~= v@.take(i as int).push(t));
            assert(r@ =~= old_r.push(s));
            assert(string_views(r@) =~= string_views(old_r).push(s@));
            assert(v@.take(i + 1).map_values(|t: Tri| tri_seq(t)) =~= v@.take(i as int).map_values(
                |t: Tri| tri_seq(t),
            ).push(tri_seq(t)));
        }
        i = i + 1;
    }
    proof {
        assert(v@.take(v@.len() as int) =~= v@);
    }
    r
}

/// The views of the strings made from a sorted tuple listing list the window set in order.
proof fn lemma_tuple_listing(v: Seq<Tri>, src: Seq<char>)
    requires
        tuples_sorted(v),
        forall|t: Tri| v.contains(t) <==> windows(src, 3).contains(tri_seq(t)),
    ensures
        sorted_listing(v.map_values(|t: Tri| tri_seq(t)), windows(src, 3)),
{
    let m = v.map_values(|t: Tri| tri_seq(t));
    assert forall|w: Seq<char>| windows(src, 3).contains(w) <==> m.contains(w) by {
        if windows(src, 3).contains(w) {
            let k = choose|k: int| 0 <= k && k + 3 <= src.len() && w == #[trigger] src.subrange(k, k + 3);
            let t: Tri = (w[0], w[1], w[2]);
            assert(tri_seq(t) =~= w);
            assert(v.contains(t));
            let j = choose|j: int| 0 <= j < v.len() && v[j] == t;
            assert(m[j] == w);
        }
        if m.contains(w) {
            let j = choose|j: int| 0 <= j < m.len() && m[j] == w;
            assert(v.contains(v[j]));
        }
    }
    assert forall|i: int, j: int| 0 <= i < j < m.len() implies tri_lt(m[i], m[j]) by {
        assert(tup_lt(v[i], v[j]));
        assert(m[i] == tri_seq(v[i]));
        assert(m[j] == tri_seq(v[j]));
    }
}

/// The trigrams of `path`: the distinct three-character windows of the path, in sorted
/// order. A path of fewer than three bytes is first framed as `_path_` and cut to three
/// characters; the empty path gives `___`.
pub fn generate_trigrams(path: &str) -> (r: Vec<String>)
    ensures
        sorted_listing(string_views(r@), trigram_set(path@, utf8_len(path@))),
{
    if path.is_empty() {
        let s = string_from_chars(&['_', '_', '_']);
        let r = vec![s];
        proof {
            assert(string_views(r@) =~= seq![seq!['_', '_', '_']]);
            assert(seq!['_', '_', '_'] =~= ['_', '_', '_']@);
            assert forall|w: Seq<char>| trigram_set(path@, utf8_len(path@)).contains(w)
                <==> string_views(r@).contains(w) by {
                if string_views(r@).contains(w) {
                    assert(string_views(r@)[0] == w);
                }
                if trigram_set(path@, utf8_len(path@)).contains(w) {
                    assert(string_views(r@)[0] == w);
                }
            }
        }
        return r;
    }
    trigrams_of_source(path)
}

/// The trigrams of a path's source (see `source_trigram_set`), sorted and distinct.
pub fn trigrams_of_source(path: &str) -> (r: Vec<String>)
    ensures
        sorted_listing(string_views(r@), source_trigram_set(path@, utf8_len(path@))),
{
    let chars = str_chars(path);
    let blen = path.as_bytes().len();
    let src: Vec<char> = if blen < 3 {
        let mut p: Vec<char> = Vec::new();
        p.push('_');
        let mut i: usize = 0;
        while i < chars.len()
            invariant
                0 <= i <= chars@.len(),
                p@ == seq!['_'] + chars@.take(i as int),
            decreases chars@.len() - i,
        {
            p.push(chars[i]);
            proof {
                assert(seq!['_'] + chars@.take(i + 1) =~= (seq!['_'] + chars@.take(i as int)).push(chars@[i as int]));
            }
            i = i + 1;
        }
        p.push('_');
        p.truncate(3);
        proof {
            assert(chars@.take(chars@.len() as int) =~= chars@);
            let framed = seq!['_'] + path@ + seq!['_'];
            if framed.len() > 3 {
                assert(p@ =~= framed.take(3));
            } else {
                assert(p@ =~= framed);
            }
        }
        p
    } else {
        chars
    };
    assert(src@ == trigram_source(path@, utf8_len(path@)));
    if src.len() < 3 {
        let s = string_from_chars(&src);
        let r = vec![s];
        proof {
            assert(string_views(r@) =~= seq![src@]);
            assert forall|w: Seq<char>| source_trigram_set(path@, utf8_len(path@)).contains(w)
                <==> string_views(r@).contains(w) by {
                if string_views(r@).contains(w) {
                    assert(string_views(r@)[0] == w);
                }
                if source_trigram_set(path@, utf8_len(path@)).contains(w) {
                    assert(string_views(r@)[0] == w);
                }
            }
        }
        return r;
    }
    let tris = sorted_windows(&src);
    let r = tris_to_strings(&tris);
    proof {
        lemma_tuple_listing(tris@, src@);
    }
    r
}

/// The trigrams of the ASCII lower-cased path.
pub fn generate_trigrams_lowercase(path: &str) -> (r: Vec<String>)
    ensures
        sorted_listing(
            string_views(r@),
            trigram_set(lower_chars(path@), utf8_len(lower_chars(path@))),
        ),
{
    let lowered_chars = lower_str_chars(path);
    let lowered = string_from_chars(&lowered_chars);
    generate_trigrams(lowered.as_str())
}

/// The first `n` bytes of `b`, padded with zero bytes when `b` is shorter.
pub open spec fn key_bytes(b: Seq<u8>, n: int) -> Seq<u8> {
    Seq::new(n as nat, |i: int| if i < b.len() { b[i] } else { 0u8 })
}

/// The three-byte key of a trigram: its first three UTF-8 bytes, zero-padded.
pub fn trigram_to_bytes(trigram: &str) -> (arr: [u8; 3])
    ensures
        arr@ == key_bytes(trigram.spec_bytes(), 3),
{
    let b = trigram.as_bytes();
    let n = b.len();
    let b0 = if n > 0 { b[0] } else { 0u8 };
    let b1 = if n > 1 { b[1] } else { 0u8 };
    let b2 = if n > 2 { b[2] } else { 0u8 };
    let arr = [b0, b1, b2];
    proof {
        assert(arr@ =~= key_bytes(trigram.spec_bytes(), 3));
    }
    arr
}

/// The two-byte key of a bigram: its first two UTF-8 bytes, zero-padded.
pub fn bigram_to_bytes(bigram: &str) -> (arr: [u8; 2])
    ensures
        arr@ == key_bytes(bigram.spec_bytes(), 2),
{
    let b = bigram.as_bytes();
    let n = b.len();
    let b0 = if n > 0 { b[0] } else { 0u8 };
    let b1 = if n > 1 { b[1] } else { 0u8 };
    let arr = [b0, b1];
    proof {
        assert(arr@ =~= key_bytes(bigram.spec_bytes(), 2));
    }
    arr
}

/// The bigrams of a text: every two-character window when it has at least two
/// characters, the text itself when it has one, none when it is empty.
pub open spec fn bigram_set(s: Seq<char>) -> Set<Seq<char>> {
    if s.len() == 0 {
        Set::empty()
    } else if s.len() < 2 {
        set![s]
    } else {
        windows(s, 2)
    }
}

/// A bigram as a tuple whose third character is NUL; tuples of this shape order as
/// their first two characters do.
pub open spec fn bi_seq(t: Tri) -> Seq<char> {
    seq![t.0, t.1]
}

/// `v` lists exactly the members of `set`, in strictly increasing order of their first
/// two characters.
pub open spec fn sorted_bigram_listing(v: Seq<Seq<char>>, set: Set<Seq<char>>) -> bool {
    &&& forall|w: Seq<char>| set.contains(w) <==> v.contains(w)
    &&& forall|i: int, j: int|
        0 <= i < j < v.len() ==> (v[i][0] < v[j][0] || (v[i][0] == v[j][0] && v[i][1] < v[j][1]))
}

/// The bigrams of the ASCII lower-cased text, sorted and distinct.
pub fn generate_bigrams_lowercase(path: &str) -> (r: Vec<String>)
    ensures
        sorted_bigram_listing(string_views(r@), bigram_set(lower_chars(path@))),
{
    let src = lower_str_chars(path);
    if src.len() == 0 {
        let r: Vec<String> = Vec::new();
        proof {
            assert forall|w: Seq<char>| bigram_set(lower_chars(path@)).contains(w)
                <==> string_views(r@).contains(w) by {
                if string_views(r@).contains(w) {
                    let k = choose|k: int| 0 <= k < string_views(r@).len() && string_views(r@)[k] == w;
                }
            }
        }
        return r;
    }
    if src.len() < 2 {
        let s = string_from_chars(&src);
        let r = vec![s];
        proof {
            assert(string_views(r@) =~= seq![src@]);
            assert forall|w: Seq<char>| bigram_set(lower_chars(path@)).contains(w)
                <==> string_views(r@).contains(w) by {
                if string_views(r@).contains(w) {
                    assert(string_views(r@)[0] == w);
                }
                if bigram_set(lower_chars(path@)).contains(w) {
                    assert(string_views(r@)[0] == w);
                }
            }
        }
        return r;
    }
    let mut v: Vec<Tri> = Vec::new();
    let mut i: usize = 0;
    let n = src.len() - 1;
    while i < n
        invariant
            n == src@.len() - 1,
            src@.len() <= usize::MAX,
            0 <= i <= n,
            tuples_sorted(v@),
            forall|t: Tri| #[trigger] v@.contains(t) ==> t.2 == '\0',
            forall|t: Tri|
                v@.contains(t) <==> (t.2 == '\0' && exists|k: int|
                    0 <= k < i && bi_seq(t) == #[trigger] src@.subrange(k, k + 2)),
        decreases n - i,
    {
        let w: Tri = (src[i], src[i + 1], '\0');
        insert_sorted(&mut v, w);
        proof {
            assert(bi_seq(w) =~= src@.subrange(i as int, i + 2));
            assert forall|t: Tri|
                v@.contains(t) <==> (t.2 == '\0' && exists|k: int|
                    0 <= k < i + 1 && bi_seq(t) == #[trigger] src@.subrange(k, k + 2)) by {
                if t.2 == '\0' && exists|k: int| 0 <= k < i + 1 && bi_seq(t) == #[trigger] src@.subrange(k, k + 2) {
                    let k = choose|k: int| 0 <= k < i + 1 && bi_seq(t) == #[trigger] src@.subrange(k, k + 2);
                    if k == i {
                        assert(bi_seq(t)[0] == bi_seq(w)[0]);
                        assert(bi_seq(t)[1] == bi_seq(w)[1]);
                        assert(t == w);
                    }
                }
            }
        }
        i = i + 1;
    }
    let mut r: Vec<String> = Vec::new();
    let mut j: usize = 0;
    while j < v.len()
        invariant
            0 <= j <= v@.len(),
            string_views(r@) == v@.take(j as int).map_values(|t: Tri| bi_seq(t)),
        decreases v@.len() - j,
    {
        let t = v[j];
        let arr = [t.0, t.1];
        let s = string_from_chars(&arr);
        let ghost old_r = r@;
        r.push(s);
        proof {
            assert(arr@ =~= bi_seq(t));
            assert(v@.take(j + 1) =~= v@.take(j as int).push(t));
            assert(r@ =~= old_r.push(s));
            assert(string_views(r@) =~= string_views(old_r).push(s@));
            assert(v@.take(j + 1).map_values(|t: Tri| bi_seq(t)) =~= v@.take(j as int).map_values(
                |t: Tri| bi_seq(t),
            ).push(bi_seq(t)));
        }
        j = j + 1;
    }
    proof {
        assert(v@.take(v@.len() as int) =~= v@);
        let m = string_views(r@);
        assert(m == v@.map_values(|t: Tri| bi_seq(t)));
        assert forall|w: Seq<char>| bigram_set(lower_chars(path@)).contains(w) <==> m.contains(w) by {
            if bigram_set(lower_chars(path@)).contains(w) {
                let k = choose|k: int| 0 <= k && k + 2 <= src@.len() && w == #[trigger] src@.subrange(k, k + 2);
                let t: Tri = (w[0], w[1], '\0');
                assert(bi_seq(t) =~= w);
                assert(v@.contains(t));
                let q = choose|q: int| 0 <= q < v@.len() && v@[q] == t;
                assert(m[q] == w);
            }
            if m.contains(w) {
                let q = choose|q: int| 0 <= q < m.len() && m[q] == w;
                assert(v@.contains(v@[q]));
                let k = choose|k: int| 0 <= k < n && bi_seq(v@[q]) == #[trigger] src@.subrange(k, k + 2);
            }
        }
        assert forall|a: int, b: int| 0 <= a < b < m.len() implies (m[a][0] < m[b][0] || (m[a][0]
            == m[b][0] && m[a][1] < m[b][1])) by {
            assert(tup_lt(v@[a], v@[b]));
            assert(v@.contains(v@[a]));
            assert(v@.contains(v@[b]));
        }
    }
    r
}

/// ASCII case folding: `A`..`Z` become `a`..`z`; every other character is kept.
pub fn casefold(s: &str) -> (r: String)
    ensures
        r@ == lower_chars(s@),
{
    let v = lower_str_chars(s);
    string_from_chars(&v)
}


/// Two sorted listings of one set agree on their first `k` items.
proof fn lemma_listing_prefix(a: Seq<Seq<char>>, b: Seq<Seq<char>>, s: Set<Seq<char>>, k: int)
    requires
        sorted_listing(a, s),
        sorted_listing(b, s),
        0 <= k <= a.len(),
        k <= b.len(),
    ensures
        forall|i: int| 0 <= i < k ==> a[i] == b[i],
    decreases k,
{
    if k > 0 {
        lemma_listing_prefix(a, b, s, k - 1);
        let i = k - 1;
        assert(a.contains(a[i]));
        assert(s.contains(a[i]));
        let j = choose|j: int| 0 <= j < b.len() && b[j] == a[i];
        assert(b.contains(b[i]));
        assert(s.contains(b[i]));
        let m = choose|m: int| 0 <= m < a.len() && a[m] == b[i];
        if j < i {
            assert(a[j] == b[j]);
            assert(tri_lt(a[j], a[i]));
        } else if j > i {
            assert(tri_lt(b[i], b[j]));
            if m < i {
                assert(a[m] == b[m]);
                assert(tri_lt(b[m], b[i]));
            } else if m > i {
                assert(tri_lt(a[i], a[m]));
            }
        }
    }
}

/// A set has one sorted listing.
pub proof fn lemma_sorted_listing_unique(a: Seq<Seq<char>>, b: Seq<Seq<char>>, s: Set<Seq<char>>)
    requires
        sorted_listing(a, s),
        sorted_listing(b, s),
    ensures
        a == b,
{
    if a.len() < b.len() {
        lemma_listing_prefix(a, b, s, a.len() as int);
        let x = b[a.len() as int];
        assert(b.contains(x));
        let m = choose|m: int| 0 <= m < a.len() && a[m] == x;
        assert(tri_lt(b[m], b[a.len() as int]));
    } else if b.len() < a.len() {
        lemma_listing_prefix(b, a, s, b.len() as int);
        let x = a[b.len() as int];
        assert(a.contains(x));
        let m = choose|m: int| 0 <= m < b.len() && b[m] == x;
        assert(tri_lt(a[m], a[b.len() as int]));
    } else {
        lemma_listing_prefix(a, b, s, a.len() as int);
        assert(a =~= b);
    }
}

/// The trigrams `generate_trigrams_lowercase` gives for a path are those
/// `generate_trigrams` gives for the path's ASCII lower-cased form: `lowercase` lists the
/// first and `of_lowered` the second.
pub proof fn lemma_lowercase_trigrams(
    path: Seq<char>,
    lowered: Seq<char>,
    lowercase: Seq<Seq<char>>,
    of_lowered: Seq<Seq<char>>,
)
    requires
        lowered == lower_chars(path),
        sorted_listing(lowercase, trigram_set(lower_chars(path), utf8_len(lower_chars(path)))),
        sorted_listing(of_lowered, trigram_set(lowered, utf8_len(lowered))),
    ensures
        lowercase == of_lowered,
{
    lemma_sorted_listing_unique(lowercase, of_lowered, trigram_set(lowered, utf8_len(lowered)));
}

} // verus!
