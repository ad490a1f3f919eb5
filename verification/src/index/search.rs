//! Searching an index: candidate documents from the trigram and bigram bitmaps (or from
//! regular-expression literals), then each candidate's record checked against the
//! patterns and the filters.
use vstd::prelude::*;
use vstd::string::*;
use roaring::RoaringBitmap;
use std::collections::HashMap;
use crate::index::layout::{pack_be, pack_key};
use crate::bitmap::{roaring_set, bitmap_new, bitmap_and, bitmap_or, bitmap_values, bitmap_insert, bitmap_len};
use crate::codec::utf8_lossy;
use crate::error::MlocateError;
use crate::filter::{CmpOp, SizeFilter, ModifiedFilter, MimeFilter};
use crate::index::format::DiskFileEntry;
use crate::index::reader::{IndexReader, entry_matches, lookup_result, table_sorted, slot_bitmap_ok};
use crate::index::image::{slot_pos, slot_key, slot_bitmap};
use crate::bitmap::roaring_decoded;
use crate::index::trigram::{generate_trigrams_lowercase, generate_bigrams_lowercase, trigram_to_bytes, bigram_to_bytes, key_bytes, trigram_set, bigram_set, utf8_len, string_views};
use crate::text::{lower_chars, contains_chars, after_last_slash, str_chars, chars_contain, basename_chars, lower_str_chars};

verus! {

broadcast use vstd::string::group_string_axioms;

/// How patterns are matched and how many results are wanted.
#[derive(Debug, Clone, Copy)]
pub struct SearchOptions {
    pub ignore_case: bool,
    pub basename: bool,
    pub regex: bool,
    pub existing: bool,
    pub limit: Option<usize>,
}

impl Default for SearchOptions {
    fn default() -> (r: Self)
        ensures
            !r.ignore_case && !r.basename && !r.regex && !r.existing && r.limit is None,
    {
        SearchOptions { ignore_case: false, basename: false, regex: false, existing: false, limit: None }
    }
}

/// The filters a result must pass; `None` passes everything.
#[derive(Debug, Clone)]
pub struct SearchFilters {
    pub size: Option<SizeFilter>,
    pub modified: Option<ModifiedFilter>,
    pub mime: Option<MimeFilter>,
}

impl Default for SearchFilters {
    fn default() -> (r: Self)
        ensures
            r.size is None && r.modified is None && r.mime is None,
    {
        SearchFilters { size: None, modified: None, mime: None }
    }
}

/// The text a pattern is matched against: the whole path, or what follows its last `/`.
pub open spec fn match_target(path: Seq<char>, basename: bool) -> Seq<char> {
    if basename {
        after_last_slash(path)
    } else {
        path
    }
}

/// A pattern matches a path when it occurs in the target text, after ASCII case folding
/// of both when case is ignored.
pub open spec fn path_matches_spec(path: Seq<char>, pattern: Seq<char>, opts: SearchOptions) -> bool {
    let target = match_target(path, opts.basename);
    if opts.ignore_case {
        contains_chars(lower_chars(target), lower_chars(pattern))
    } else {
        contains_chars(target, pattern)
    }
}

/// Whether `pattern` matches `path` under `opts`.
pub fn path_matches(path: &str, pattern: &str, opts: &SearchOptions) -> (b: bool)
    ensures
        b == path_matches_spec(path@, pattern@, *opts),
{
    let chars = str_chars(path);
    let target = if opts.basename {
        basename_chars(chars.as_slice())
    } else {
        chars
    };
    if opts.ignore_case {
        let mut folded: Vec<char> = Vec::new();
        let mut i: usize = 0;
        while i < target.len()
            invariant
                0 <= i <= target@.len(),
                folded@ == lower_chars(target@.subrange(0, i as int)),
            decreases target@.len() - i,
        {
            folded.push(crate::text::ascii_lower(target[i]));
            proof {
                assert(lower_chars(target@.subrange(0, i + 1)) =~= lower_chars(target@.subrange(0, i as int)).push(
                    crate::text::lower_char(target@[i as int]),
                ));
            }
            i = i + 1;
        }
        proof {
            assert(target@.subrange(0, target@.len() as int) =~= target@);
        }
        let pat = lower_str_chars(pattern);
        chars_contain(folded.as_slice(), pat.as_slice())
    } else {
        let pat = str_chars(pattern);
        chars_contain(target.as_slice(), pat.as_slice())
    }
}

/// `a` compares with `b` as `op` says.
pub open spec fn op_holds(op: CmpOp, a: int, b: int) -> bool {
    match op {
        CmpOp::Eq => a == b,
        CmpOp::Ge => a >= b,
        CmpOp::Le => a <= b,
    }
}

/// Whether the glob `p` from position `i` on matches `s` from position `j` on: a `*`
/// matches any run of characters (the empty run too); every other character matches
/// itself.
pub open spec fn glob_at(p: Seq<char>, s: Seq<char>, i: int, j: int) -> bool
    decreases (p.len() - i) + (s.len() - j),
{
    if i < 0 || j < 0 || i > p.len() || j > s.len() {
        false
    } else if i == p.len() {
        j == s.len()
    } else if p[i] == '*' {
        glob_at(p, s, i + 1, j) || (j < s.len() && glob_at(p, s, i, j + 1))
    } else {
        j < s.len() && s[j] == p[i] && glob_at(p, s, i + 1, j + 1)
    }
}

/// Whether the glob `p` matches all of `s`.
pub open spec fn glob_matches(p: Seq<char>, s: Seq<char>) -> bool {
    glob_at(p, s, 0, 0)
}

/// A file's size, mtime and MIME type pass the filters at time `now`: the size compares
/// with the filter's byte count, the mtime with `now` less the filter's seconds, and the
/// MIME type equals the filter's, or for a glob matches it (`*` standing for any run of
/// characters).
pub open spec fn filters_pass(size: u64, mtime: i64, mime: Seq<char>, f: SearchFilters, now: i64) -> bool {
    &&& match f.size {
        Some(sf) => op_holds(sf.operator, size as int, sf.bytes as int),
        None => true,
    }
    &&& match f.modified {
        Some(mf) => op_holds(mf.operator, mtime as int, now - mf.seconds),
        None => true,
    }
    &&& match f.mime {
        Some(m) => if m.is_glob {
            glob_matches(m.pattern@, mime)
        } else {
            mime == m.pattern@
        },
        None => true,
    }
}

fn op_check(op: CmpOp, a: i128, b: i128) -> (r: bool)
    ensures
        r == op_holds(op, a as int, b as int),
{
    match op {
        CmpOp::Eq => a == b,
        CmpOp::Ge => a >= b,
        CmpOp::Le => a <= b,
    }
}

/// Whether `s` starts with `p`.
fn chars_start_with(s: &[char], p: &[char]) -> (b: bool)
    ensures
        b == p@.is_prefix_of(s@),
{
    if p.len() > s.len() {
        return false;
    }
    let mut i: usize = 0;
    while i < p.len()
        invariant
            p@.len() <= s@.len(),
            0 <= i <= p@.len(),
            forall|q: int| 0 <= q < i ==> s@[q] == p@[q],
        decreases p@.len() - i,
    {
        if s[i] != p[i] {
            proof {
                assert(s@.subrange(0, p@.len() as int)[i as int] != p@[i as int]);
            }
            return false;
        }
        i = i + 1;
    }
    proof {
        assert(p@ =~= s@.subrange(0, p@.len() as int));
    }
    true
}

/// Whether the glob `p` matches all of `s` (see `glob_at`), row by row from the end of
/// the glob.
fn glob_match_chars(p: &[char], s: &[char]) -> (b: bool)
    ensures
        b == glob_matches(p@, s@),
{
    let m = p.len();
    let n = s.len();
    // the row of the end of the glob: only the end of `s` matches
    let mut next: Vec<bool> = Vec::new();
    let mut j: usize = 0;
    while j < n
        invariant
            0 <= j <= n,
            n == s@.len(),
            m == p@.len(),
            next@.len() == j,
            forall|q: int| 0 <= q < j ==> next@[q] == glob_at(p@, s@, m as int, q),
        decreases n - j,
    {
        next.push(false);
        j = j + 1;
    }
    let mut next_end = true;
    let mut i: usize = m;
    while i > 0
        invariant
            0 <= i <= m,
            n == s@.len(),
            m == p@.len(),
            next@.len() == n,
            forall|q: int| 0 <= q < n ==> next@[q] == glob_at(p@, s@, i as int, q),
            next_end == glob_at(p@, s@, i as int, n as int),
        decreases i,
    {
        i = i - 1;
        let star = p[i] == '*';
        let cur_end = star && next_end;
        let mut cur: Vec<bool> = Vec::new();
        let mut k: usize = 0;
        while k < n
            invariant
                0 <= k <= n,
                cur@.len() == k,
            decreases n - k,
        {
            cur.push(false);
            k = k + 1;
        }
        let mut jj: usize = n;
        while jj > 0
            invariant
                0 <= jj <= n,
                i < m,
                n == s@.len(),
                m == p@.len(),
                cur@.len() == n,
                next@.len() == n,
                star == (p@[i as int] == '*'),
                forall|q: int| 0 <= q < n ==> next@[q] == glob_at(p@, s@, i + 1, q),
                next_end == glob_at(p@, s@, i + 1, n as int),
                cur_end == glob_at(p@, s@, i as int, n as int),
                forall|q: int| jj <= q < n ==> cur@[q] == glob_at(p@, s@, i as int, q),
            decreases jj,
        {
            jj = jj - 1;
            let after = if jj + 1 < n { cur[jj + 1] } else { cur_end };
            let below = if jj + 1 < n { next[jj + 1] } else { next_end };
            let v = if star {
                next[jj] || after
            } else {
                s[jj] == p[i] && below
            };
            cur.set(jj, v);
        }
        next = cur;
        next_end = cur_end;
    }
    if n == 0 {
        next_end
    } else {
        next[0]
    }
}

/// Whether an entry passes the filters at time `now`.
pub fn filter_matches(entry: &DiskFileEntry, filters: &SearchFilters, now: i64) -> (b: bool)
    ensures
        b == filters_pass(entry.size, entry.mtime, entry.mime_type@, *filters, now),
{
    if let Some(sf) = &filters.size {
        if !op_check(sf.operator, entry.size as i128, sf.bytes as i128) {
            return false;
        }
    }
    if let Some(mf) = &filters.modified {
        let cutoff = (now as i128) - (mf.seconds as i128);
        if !op_check(mf.operator, entry.mtime as i128, cutoff) {
            return false;
        }
    }
    if let Some(m) = &filters.mime {
        let mime = str_chars(entry.mime_type.as_str());
        let pat = str_chars(m.pattern.as_str());
        let ok = if m.is_glob {
            glob_match_chars(pat.as_slice(), mime.as_slice())
        } else {
            mime.len() == pat.len() && chars_start_with(mime.as_slice(), pat.as_slice())
        };
        proof {
            if !m.is_glob && mime@.len() == pat@.len() && pat@.is_prefix_of(mime@) {
                assert(mime@ =~= pat@);
            }
        }
        if !ok {
            return false;
        }
    }
    true
}

/// The documents a lookup of `key` finds in a sorted table: the decoded bitmap of the
/// slot that holds `key`, or none.
pub open spec fn table_docs(d: Seq<u8>, dir: int, n: int, kl: int, bm: int, key: Seq<u8>) -> Set<u32> {
    if exists|j: int| 0 <= j < n && #[trigger] slot_key(d, dir, j, kl) == key && slot_bitmap_ok(d, dir, j, kl, bm) {
        let j = choose|j: int| 0 <= j < n && #[trigger] slot_key(d, dir, j, kl) == key && slot_bitmap_ok(d, dir, j, kl, bm);
        roaring_decoded(slot_bitmap(d, dir, j, kl, bm))->0
    } else {
        Set::empty()
    }
}

/// The documents a lookup result holds; none for no bitmap.
pub open spec fn result_docs(r: Option<RoaringBitmap>) -> Set<u32> {
    match r {
        Some(b) => roaring_set(b),
        None => Set::empty(),
    }
}

/// In a sorted table that lies inside the data, a lookup finds exactly `table_docs`.
pub proof fn lemma_lookup_docs(d: Seq<u8>, dir: int, n: int, kl: int, bm: int, key: Seq<u8>, r: Option<RoaringBitmap>)
    requires
        lookup_result(d, dir, n, kl, bm, key, r),
        0 <= dir,
        slot_pos(dir, n, kl) <= d.len(),
        table_sorted(d, dir, n, kl),
    ensures
        result_docs(r) == table_docs(d, dir, n, kl, bm, key),
{
    if let Some(b) = r {
        let j = choose|j: int|
            0 <= j < n && slot_pos(dir, j + 1, kl) <= d.len() && #[trigger] slot_key(d, dir, j, kl) == key
                && slot_bitmap_ok(d, dir, j, kl, bm) && roaring_decoded(slot_bitmap(d, dir, j, kl, bm))
                == Some(roaring_set(b));
        let j2 = choose|j: int| 0 <= j < n && #[trigger] slot_key(d, dir, j, kl) == key && slot_bitmap_ok(d, dir, j, kl, bm);
        if j2 != j {
            crate::index::layout::lemma_bytes_lt_irreflexive(key);
            if j2 < j {
                assert(crate::index::layout::bytes_lt(slot_key(d, dir, j2, kl), slot_key(d, dir, j, kl)));
            } else {
                assert(crate::index::layout::bytes_lt(slot_key(d, dir, j, kl), slot_key(d, dir, j2, kl)));
            }
        }
    }
}

impl<'a> IndexReader<'a> {
    /// The trigram table lies inside the data and is sorted.
    pub open spec fn tri_table_ok(&self) -> bool {
        &&& slot_pos(self.header.trigram_dir_offset as int, self.header.num_trigrams as int, 3) <= self.data@.len()
        &&& table_sorted(self.data@, self.header.trigram_dir_offset as int, self.header.num_trigrams as int, 3)
    }

    /// The bigram table, where the index has one, lies inside the data and is sorted.
    pub open spec fn bi_table_ok(&self) -> bool {
        (self.header.features & crate::index::header::FEATURE_BIGRAM_INDEX != 0 && self.header.num_bi_gram_entries != 0) ==> {
            &&& slot_pos(self.header.bi_gram_dir_offset as int, self.header.num_bi_gram_entries as int, 2) <= self.data@.len()
            &&& table_sorted(self.data@, self.header.bi_gram_dir_offset as int, self.header.num_bi_gram_entries as int, 2)
        }
    }

    /// The documents recorded under a trigram key.
    pub open spec fn tri_docs(&self, key: Seq<u8>) -> Set<u32> {
        table_docs(
            self.data@,
            self.header.trigram_dir_offset as int,
            self.header.num_trigrams as int,
            3,
            self.header.bitmap_data_offset as int,
            key,
        )
    }

    /// The documents recorded under a bigram key; none without a bigram table.
    pub open spec fn bi_docs(&self, key: Seq<u8>) -> Set<u32> {
        if self.header.features & crate::index::header::FEATURE_BIGRAM_INDEX != 0 && self.header.num_bi_gram_entries != 0 {
            table_docs(
                self.data@,
                self.header.bi_gram_dir_offset as int,
                self.header.num_bi_gram_entries as int,
                2,
                self.header.bitmap_data_offset as int,
                key,
            )
        } else {
            Set::empty()
        }
    }

    /// Every file id below the file count, as a `u32` count.
    pub open spec fn all_ids(&self) -> Set<u32> {
        Set::new(|d: u32| d < (self.header.num_files as u32))
    }

    /// Some slot of the trigram table holds `key` and a bitmap that decodes.
    pub open spec fn tri_found(&self, key: Seq<u8>) -> bool {
        exists|j: int|
            0 <= j < self.header.num_trigrams && #[trigger] slot_key(self.data@, self.header.trigram_dir_offset as int, j, 3) == key
                && slot_bitmap_ok(self.data@, self.header.trigram_dir_offset as int, j, 3, self.header.bitmap_data_offset as int)
    }

    /// Looks up every trigram of `keys` and records its bitmap in `results` under the
    /// trigram's big-endian value; a trigram the table does not hold leaves `results` as
    /// it was under that value, and values not among `keys` are left alone.
    pub fn trigram_bitmaps_batch(&self, keys: &[[u8; 3]], results: &mut HashMap<u64, RoaringBitmap>)
        ensures
            forall|k: u64|
                (forall|i: int| 0 <= i < keys@.len() ==> #[trigger] batch_key(keys@, i) != k) ==> final(results)@.get(k) == old(results)@.get(k),
            forall|k: u64| #[trigger] final(results)@.contains_key(k) ==> old(results)@.contains_key(k) || exists|i: int|
                0 <= i < keys@.len() && #[trigger] batch_key(keys@, i) == k,
            self.tri_table_ok() ==> forall|i: int| 0 <= i < keys@.len() ==> batch_entry(
                old(results)@,
                final(results)@,
                batch_key(keys@, i),
                #[trigger] self.tri_found(keys@[i]@),
                self.tri_docs(keys@[i]@),
            ),
    {
        broadcast use vstd::std_specs::hash::group_hash_axioms;
        let ghost r0 = results@;
        let mut i: usize = 0;
        while i < keys.len()
            invariant
                0 <= i <= keys@.len(),
                forall|k: u64|
                    (forall|q: int| 0 <= q < i ==> #[trigger] batch_key(keys@, q) != k) ==> results@.get(k) == r0.get(k),
                forall|k: u64| #[trigger] results@.contains_key(k) ==> r0.contains_key(k) || exists|q: int|
                    0 <= q < i && #[trigger] batch_key(keys@, q) == k,
                self.tri_table_ok() ==> forall|q: int| 0 <= q < i ==> batch_entry(
                    r0,
                    results@,
                    batch_key(keys@, q),
                    #[trigger] self.tri_found(keys@[q]@),
                    self.tri_docs(keys@[q]@),
                ),
            decreases keys@.len() - i,
        {
            let key = keys[i];
            let found = self.trigram_bitmap(key);
            let pk = pack_key(&key);
            proof {
                assert(pk == batch_key(keys@, i as int));
                if self.tri_table_ok() {
                    lemma_lookup_docs(self.data@, self.header.trigram_dir_offset as int, self.header.num_trigrams as int, 3, self.header.bitmap_data_offset as int, key@, found);
                }
            }
            let ghost before = results@;
            let ghost gfound = found;
            match found {
                Some(b) => {
                    results.insert(pk, b);
                    assert(results@ == before.insert(pk, b));
                },
                None => {},
            }
            proof {
                assert forall|k: u64| (forall|q: int| 0 <= q < i + 1 ==> #[trigger] batch_key(keys@, q) != k) implies results@.get(k) == r0.get(k) by {
                    assert(batch_key(keys@, i as int) != k);
                }
                assert forall|k: u64| #[trigger] results@.contains_key(k) implies r0.contains_key(k) || exists|q: int|
                    0 <= q < i + 1 && #[trigger] batch_key(keys@, q) == k by {
                    if k == pk {
                        assert(batch_key(keys@, i as int) == k);
                    } else {
                        assert(before.contains_key(k));
                    }
                }
                if self.tri_table_ok() {
                    assert forall|q: int| 0 <= q < i + 1 implies batch_entry(
                        r0,
                        results@,
                        batch_key(keys@, q),
                        #[trigger] self.tri_found(keys@[q]@),
                        self.tri_docs(keys@[q]@),
                    ) by {
                        if q < i {
                            assert(batch_entry(r0, before, batch_key(keys@, q), self.tri_found(keys@[q]@), self.tri_docs(keys@[q]@)));
                            let kq = batch_key(keys@, q);
                            if kq != pk {
                                assert(results@.get(kq) == before.get(kq));
                                assert(results@.contains_key(kq) == before.contains_key(kq));
                                if before.contains_key(kq) {
                                    assert(results@[kq] == before[kq]);
                                }
                            }
                            if batch_key(keys@, q) == pk {
                                crate::index::layout::lemma_pack_fits(keys@[q]@);
                                crate::index::layout::lemma_pack_fits(key@);
                                crate::index::layout::lemma_pack_injective(keys@[q]@, key@);
                                assert(keys@[q]@ == key@);
                                if gfound is Some {
                                    assert(self.tri_found(key@));
                                    assert(roaring_set(results@[pk]) == result_docs(gfound));
                                    assert(result_docs(gfound) == self.tri_docs(key@));
                                } else {
                                    assert(!self.tri_found(key@));
                                    assert(results@ == before);
                                }
                            }
                            assert(batch_entry(r0, results@, batch_key(keys@, q), self.tri_found(keys@[q]@), self.tri_docs(keys@[q]@)));
                        } else {
                            assert(keys@[q]@ == key@);
                            if gfound is Some {
                                assert(self.tri_found(key@));
                                assert(results@.contains_key(pk));
                                assert(roaring_set(results@[pk]) == result_docs(gfound));
                                assert(result_docs(gfound) == self.tri_docs(key@));
                            } else {
                                assert(!self.tri_found(key@));
                                assert(results@ == before);
                                if exists|q2: int| 0 <= q2 < i && #[trigger] batch_key(keys@, q2) == pk {
                                    let q2 = choose|q2: int| 0 <= q2 < i && #[trigger] batch_key(keys@, q2) == pk;
                                    crate::index::layout::lemma_pack_fits(keys@[q2]@);
                                    crate::index::layout::lemma_pack_fits(key@);
                                    crate::index::layout::lemma_pack_injective(keys@[q2]@, key@);
                                    assert(keys@[q2]@ == key@);
                                    assert(batch_entry(r0, before, batch_key(keys@, q2), self.tri_found(keys@[q2]@), self.tri_docs(keys@[q2]@)));
                                } else {
                                    assert(forall|q2: int| 0 <= q2 < i ==> #[trigger] batch_key(keys@, q2) != pk);
                                    assert(before.get(pk) == r0.get(pk));
                                }
                            }
                            assert(batch_entry(r0, results@, batch_key(keys@, q), self.tri_found(keys@[q]@), self.tri_docs(keys@[q]@)));
                        }
                    }
                }
            }
            i = i + 1;
        }
    }
}

/// The map key under which a batch lookup records the `i`-th trigram.
pub open spec fn batch_key(keys: Seq<[u8; 3]>, i: int) -> u64 {
    pack_be(keys[i]@) as u64
}

/// After a batch lookup, under key `k`: the documents of the trigram when it was found,
/// else what was there before.
pub open spec fn batch_entry(before: Map<u64, RoaringBitmap>, after: Map<u64, RoaringBitmap>, k: u64, found: bool, docs: Set<u32>) -> bool {
    if found {
        after.contains_key(k) && roaring_set(after[k]) == docs
    } else {
        after.get(k) == before.get(k)
    }
}

/// The lookup key of a trigram: its first three UTF-8 bytes, zero-padded.
pub open spec fn key3(t: Seq<char>) -> Seq<u8> {
    key_bytes(vstd::utf8::encode_utf8(t), 3)
}

/// The lookup key of a bigram.
pub open spec fn key2(t: Seq<char>) -> Seq<u8> {
    key_bytes(vstd::utf8::encode_utf8(t), 2)
}

/// The candidates of one pattern: for three or more bytes, the documents in every
/// trigram bitmap of the lower-cased pattern; for two bytes, in every bigram bitmap;
/// nothing to go on for shorter patterns.
pub open spec fn pattern_candidates(rd: IndexReader, p: Seq<char>) -> Option<Set<u32>> {
    let lp = lower_chars(p);
    if utf8_len(p) >= 3 {
        let ts = trigram_set(lp, utf8_len(lp));
        if exists|t: Seq<char>| ts.contains(t) {
            Some(Set::new(|d: u32| forall|t: Seq<char>| ts.contains(t) ==> #[trigger] rd.tri_docs(key3(t)).contains(d)))
        } else {
            None
        }
    } else if utf8_len(p) == 2 {
        let bs = bigram_set(lp);
        if exists|t: Seq<char>| bs.contains(t) {
            Some(Set::new(|d: u32| forall|t: Seq<char>| bs.contains(t) ==> #[trigger] rd.bi_docs(key2(t)).contains(d)))
        } else {
            None
        }
    } else {
        None
    }
}

/// The union of the candidates of the patterns, which are alternatives; `None` (every
/// file) as soon as one pattern has nothing to go on.
pub open spec fn union_candidates(rd: IndexReader, ps: Seq<Seq<char>>) -> Option<Set<u32>>
    decreases ps.len(),
{
    if ps.len() == 0 {
        Some(Set::empty())
    } else {
        match (union_candidates(rd, ps.drop_last()), pattern_candidates(rd, ps.last())) {
            (Some(u), Some(s)) => Some(u.union(s)),
            _ => None,
        }
    }
}

/// The candidates of a plain search: the union over the patterns, or every file when
/// some pattern is too short to look up (or there are no patterns).
pub open spec fn trigram_candidates(rd: IndexReader, ps: Seq<Seq<char>>) -> Set<u32> {
    if ps.len() == 0 {
        rd.all_ids()
    } else {
        match union_candidates(rd, ps) {
            Some(u) => u,
            None => rd.all_ids(),
        }
    }
}

/// A bitmap of every id below `n`.
fn all_ids_bitmap(n: u32) -> (r: RoaringBitmap)
    ensures
        roaring_set(r) == Set::new(|d: u32| d < n),
{
    let mut b = bitmap_new();
    let mut i: u32 = 0;
    while i < n
        invariant
            0 <= i <= n,
            roaring_set(b) == Set::new(|d: u32| d < i),
        decreases n - i,
    {
        bitmap_insert(&mut b, i);
        proof {
            assert(roaring_set(b) =~= Set::new(|d: u32| d < i + 1));
        }
        i = i + 1;
    }
    b
}

/// The documents in the trigram bitmap of `key`, or none.
fn tri_lookup(reader: &IndexReader, key: [u8; 3]) -> (r: RoaringBitmap)
    ensures
        reader.tri_table_ok() ==> roaring_set(r) == reader.tri_docs(key@),
{
    let found = reader.trigram_bitmap(key);
    proof {
        if reader.tri_table_ok() {
            lemma_lookup_docs(reader.data@, reader.header.trigram_dir_offset as int, reader.header.num_trigrams as int, 3, reader.header.bitmap_data_offset as int, key@, found);
        }
    }
    match found {
        Some(b) => b,
        None => bitmap_new(),
    }
}

/// The documents in the bigram bitmap of `key`, or none.
fn bi_lookup(reader: &IndexReader, key: [u8; 2]) -> (r: RoaringBitmap)
    ensures
        reader.bi_table_ok() ==> roaring_set(r) == reader.bi_docs(key@),
{
    let found = reader.bigram_bitmap(key);
    proof {
        if reader.bi_table_ok() && reader.header.features & crate::index::header::FEATURE_BIGRAM_INDEX != 0 && reader.header.num_bi_gram_entries != 0 {
            lemma_lookup_docs(reader.data@, reader.header.bi_gram_dir_offset as int, reader.header.num_bi_gram_entries as int, 2, reader.header.bitmap_data_offset as int, key@, found);
        }
    }
    match found {
        Some(b) => b,
        None => bitmap_new(),
    }
}

/// The candidates of one pattern, as `pattern_candidates` states them when the tables
/// are sound.
fn pattern_bitmap(reader: &IndexReader, pattern: &str) -> (r: Option<RoaringBitmap>)
    ensures
        r is Some <==> pattern_candidates(*reader, pattern@) is Some,
        (reader.tri_table_ok() && reader.bi_table_ok()) ==> (r matches Some(b) ==> roaring_set(b)
            == pattern_candidates(*reader, pattern@)->0),
{
    let blen = pattern.as_bytes().len();
    if blen >= 3 {
        let tris = generate_trigrams_lowercase(pattern);
        let ghost lp = lower_chars(pattern@);
        let ghost ts = trigram_set(lp, utf8_len(lp));
        let ghost views = string_views(tris@);
        let mut acc: Option<RoaringBitmap> = None;
        let mut i: usize = 0;
        while i < tris.len()
            invariant
                0 <= i <= tris@.len(),
                views == string_views(tris@),
                acc is Some <==> i > 0,
                (reader.tri_table_ok() && i > 0) ==> roaring_set(acc->0) == Set::new(
                    |d: u32| forall|q: int| 0 <= q < i ==> #[trigger] reader.tri_docs(key3(views[q])).contains(d),
                ),
            decreases tris@.len() - i,
        {
            let key = trigram_to_bytes(tris[i].as_str());
            let bm = tri_lookup(reader, key);
            proof {
                assert(key@ == key3(views[i as int]));
            }
            let ghost prev = acc;
            acc = match acc {
                None => Some(bm),
                Some(a) => Some(bitmap_and(&a, &bm)),
            };
            proof {
                if reader.tri_table_ok() {
                    assert(roaring_set(acc->0) =~= Set::new(
                        |d: u32| forall|q: int| 0 <= q < i + 1 ==> #[trigger] reader.tri_docs(key3(views[q])).contains(d),
                    )) by {
                        assert forall|d: u32| roaring_set(acc->0).contains(d) implies (forall|q: int| 0 <= q < i + 1 ==> #[trigger] reader.tri_docs(key3(views[q])).contains(d)) by {
                            assert forall|q: int| 0 <= q < i + 1 implies #[trigger] reader.tri_docs(key3(views[q])).contains(d) by {
                                if q < i {
                                    assert(roaring_set(prev->0).contains(d));
                                }
                            }
                        }
                    }
                }
            }
            i = i + 1;
        }
        proof {
            assert((exists|t: Seq<char>| ts.contains(t)) <==> tris@.len() > 0) by {
                if tris@.len() > 0 {
                    assert(views.contains(views[0]));
                    assert(ts.contains(views[0]));
                }
                if exists|t: Seq<char>| ts.contains(t) {
                    let t = choose|t: Seq<char>| ts.contains(t);
                    assert(views.contains(t));
                }
            }
            if reader.tri_table_ok() && tris@.len() > 0 {
                let n = tris@.len() as int;
                let sa = Set::new(|d: u32| forall|q: int| 0 <= q < n ==> #[trigger] reader.tri_docs(key3(views[q])).contains(d));
                let sb = Set::new(|d: u32| forall|t: Seq<char>| ts.contains(t) ==> #[trigger] reader.tri_docs(key3(t)).contains(d));
                assert forall|d: u32| sa.contains(d) implies sb.contains(d) by {
                    assert forall|t: Seq<char>| ts.contains(t) implies #[trigger] reader.tri_docs(key3(t)).contains(d) by {
                        assert(views.contains(t));
                        let q = choose|q: int| 0 <= q < views.len() && views[q] == t;
                        assert(reader.tri_docs(key3(views[q])).contains(d));
                    }
                }
                assert forall|d: u32| sb.contains(d) implies sa.contains(d) by {
                    assert forall|q: int| 0 <= q < n implies #[trigger] reader.tri_docs(key3(views[q])).contains(d) by {
                        assert(views.contains(views[q]));
                        assert(ts.contains(views[q]));
                    }
                }
                assert(sa =~= sb);
            }
        }
        acc
    } else if blen == 2 {
        let bis = generate_bigrams_lowercase(pattern);
        let ghost lp = lower_chars(pattern@);
        let ghost bs = bigram_set(lp);
        let ghost views = string_views(bis@);
        let mut acc: Option<RoaringBitmap> = None;
        let mut i: usize = 0;
        while i < bis.len()
            invariant
                0 <= i <= bis@.len(),
                views == string_views(bis@),
                acc is Some <==> i > 0,
                (reader.bi_table_ok() && i > 0) ==> roaring_set(acc->0) == Set::new(
                    |d: u32| forall|q: int| 0 <= q < i ==> #[trigger] reader.bi_docs(key2(views[q])).contains(d),
                ),
            decreases bis@.len() - i,
        {
            let key = bigram_to_bytes(bis[i].as_str());
            let bm = bi_lookup(reader, key);
            proof {
                assert(key@ == key2(views[i as int]));
            }
            let ghost prev = acc;
            acc = match acc {
                None => Some(bm),
                Some(a) => Some(bitmap_and(&a, &bm)),
            };
            proof {
                if reader.bi_table_ok() {
                    assert(roaring_set(acc->0) =~= Set::new(
                        |d: u32| forall|q: int| 0 <= q < i + 1 ==> #[trigger] reader.bi_docs(key2(views[q])).contains(d),
                    )) by {
                        assert forall|d: u32| roaring_set(acc->0).contains(d) implies (forall|q: int| 0 <= q < i + 1 ==> #[trigger] reader.bi_docs(key2(views[q])).contains(d)) by {
                            assert forall|q: int| 0 <= q < i + 1 implies #[trigger] reader.bi_docs(key2(views[q])).contains(d) by {
                                if q < i {
                                    assert(roaring_set(prev->0).contains(d));
                                }
                            }
                        }
                    }
                }
            }
            i = i + 1;
        }
        proof {
            assert((exists|t: Seq<char>| bs.contains(t)) <==> bis@.len() > 0) by {
                if bis@.len() > 0 {
                    assert(views.contains(views[0]));
                    assert(bs.contains(views[0]));
                }
                if exists|t: Seq<char>| bs.contains(t) {
                    let t = choose|t: Seq<char>| bs.contains(t);
                    assert(views.contains(t));
                }
            }
            if reader.bi_table_ok() && bis@.len() > 0 {
                let n = bis@.len() as int;
                let sa = Set::new(|d: u32| forall|q: int| 0 <= q < n ==> #[trigger] reader.bi_docs(key2(views[q])).contains(d));
                let sb = Set::new(|d: u32| forall|t: Seq<char>| bs.contains(t) ==> #[trigger] reader.bi_docs(key2(t)).contains(d));
                assert forall|d: u32| sa.contains(d) implies sb.contains(d) by {
                    assert forall|t: Seq<char>| bs.contains(t) implies #[trigger] reader.bi_docs(key2(t)).contains(d) by {
                        assert(views.contains(t));
                        let q = choose|q: int| 0 <= q < views.len() && views[q] == t;
                        assert(reader.bi_docs(key2(views[q])).contains(d));
                    }
                }
                assert forall|d: u32| sb.contains(d) implies sa.contains(d) by {
                    assert forall|q: int| 0 <= q < n implies #[trigger] reader.bi_docs(key2(views[q])).contains(d) by {
                        assert(views.contains(views[q]));
                        assert(bs.contains(views[q]));
                    }
                }
                assert(sa =~= sb);
            }
        }
        acc
    } else {
        None
    }
}

/// The candidates of a plain search (see `trigram_candidates`), exact where the tables
/// are sound, and every file when no pattern is long enough to look up.
fn trigram_search(reader: &IndexReader, patterns: &[String]) -> (r: RoaringBitmap)
    ensures
        ((reader.tri_table_ok() && reader.bi_table_ok()) || patterns@.len() == 0 || union_candidates(
            *reader,
            string_views(patterns@),
        ) is None) ==> roaring_set(r) == trigram_candidates(*reader, string_views(patterns@)),
{
    let ghost views = string_views(patterns@);
    let mut acc = bitmap_new();
    let mut every = false;
    let mut i: usize = 0;
    proof {
        assert(views.take(0) =~= Seq::<Seq<char>>::empty());
    }
    while i < patterns.len()
        invariant
            0 <= i <= patterns@.len(),
            views == string_views(patterns@),
            every == (union_candidates(*reader, views.take(i as int)) is None),
            (reader.tri_table_ok() && reader.bi_table_ok() && !every) ==> union_candidates(*reader, views.take(i as int))
                == Some(roaring_set(acc)),
        decreases patterns@.len() - i,
    {
        let p = patterns[i].as_str();
        let pb = pattern_bitmap(reader, p);
        proof {
            assert(views.take(i + 1).drop_last() =~= views.take(i as int));
            assert(views.take(i + 1).last() == views[i as int]);
        }
        match pb {
            Some(b) => {
                acc = bitmap_or(&acc, &b);
            },
            None => {
                every = true;
            },
        }
        i = i + 1;
    }
    proof {
        assert(views.take(patterns@.len() as int) =~= views);
    }
    if every || patterns.len() == 0 {
        all_ids_bitmap(reader.num_files() as u32)
    } else {
        acc
    }
}

/// The characters that end a literal run in a regular expression.
pub open spec fn is_special(c: char) -> bool {
    c == '+' || c == '*' || c == '?' || c == '|' || c == '^' || c == '$' || c == '.' || c == '['
        || c == ']' || c == '(' || c == ')' || c == '{' || c == '}' || c == '\\'
}

/// Scanning a pattern: the literal runs closed so far (those of two bytes or more) and
/// the run still open.
pub open spec fn literal_scan(p: Seq<char>) -> (Seq<Seq<char>>, Seq<char>)
    decreases p.len(),
{
    if p.len() == 0 {
        (Seq::empty(), Seq::empty())
    } else {
        let prev = literal_scan(p.drop_last());
        let c = p.last();
        if is_special(c) {
            (if utf8_len(prev.1) >= 2 { prev.0.push(prev.1) } else { prev.0 }, Seq::empty())
        } else {
            (prev.0, prev.1.push(c))
        }
    }
}

/// The runs of non-special characters of a pattern that are two bytes or longer, in order.
pub open spec fn raw_literals(p: Seq<char>) -> Seq<Seq<char>> {
    let s = literal_scan(p);
    if utf8_len(s.1) >= 2 {
        s.0.push(s.1)
    } else {
        s.0
    }
}

/// The members of `v` that are `len` bytes long, in order.
pub open spec fn length_bucket(v: Seq<Seq<char>>, len: int) -> Seq<Seq<char>>
    decreases v.len(),
{
    if v.len() == 0 {
        Seq::empty()
    } else if utf8_len(v.last()) == len {
        length_bucket(v.drop_last(), len).push(v.last())
    } else {
        length_bucket(v.drop_last(), len)
    }
}

/// The buckets of lengths `hi` down to `lo`, longest first: a stable sort by decreasing
/// length when `hi` is the longest length and `lo` is 0.
pub open spec fn by_length_desc(v: Seq<Seq<char>>, hi: int, lo: int) -> Seq<Seq<char>>
    decreases hi - lo + 1,
{
    if hi < lo {
        Seq::empty()
    } else {
        length_bucket(v, hi) + by_length_desc(v, hi - 1, lo)
    }
}

/// Keeps each literal that no literal kept before it contains.
pub open spec fn drop_contained(v: Seq<Seq<char>>) -> Seq<Seq<char>>
    decreases v.len(),
{
    if v.len() == 0 {
        Seq::empty()
    } else {
        let r = drop_contained(v.drop_last());
        if exists|k: int| 0 <= k < r.len() && contains_chars(#[trigger] r[k], v.last()) {
            r
        } else {
            r.push(v.last())
        }
    }
}

/// The longest byte length among `v`, 0 when empty.
pub open spec fn max_len(v: Seq<Seq<char>>) -> int
    decreases v.len(),
{
    if v.len() == 0 {
        0
    } else {
        let m = max_len(v.drop_last());
        if utf8_len(v.last()) > m { utf8_len(v.last()) } else { m }
    }
}

/// The literals of a regular expression that trigram lookups can narrow by: its runs of
/// ordinary characters of two bytes or more, longest first (ties in order), without
/// those that a longer kept literal contains.
pub open spec fn regex_literals(p: Seq<char>) -> Seq<Seq<char>> {
    let raw = raw_literals(p);
    drop_contained(by_length_desc(raw, max_len(raw), 0))
}

fn special_char(c: char) -> (b: bool)
    ensures
        b == is_special(c),
{
    c == '+' || c == '*' || c == '?' || c == '|' || c == '^' || c == '$' || c == '.' || c == '['
        || c == ']' || c == '(' || c == ')' || c == '{' || c == '}' || c == '\\'
}

/// The UTF-8 length of a run of characters.
fn chars_utf8_len(v: &[char]) -> (n: usize)
    ensures
        n == utf8_len(v@),
{
    let s = crate::text::string_from_chars(v);
    s.as_str().as_bytes().len()
}

/// The runs of ordinary characters of two bytes or more (see `raw_literals`).
fn scan_literals(p: &[char]) -> (r: Vec<Vec<char>>)
    ensures
        r@.map_values(|v: Vec<char>| v@) == raw_literals(p@),
{
    let mut lits: Vec<Vec<char>> = Vec::new();
    let mut cur: Vec<char> = Vec::new();
    let mut i: usize = 0;
    proof {
        assert(p@.subrange(0, 0) =~= Seq::<char>::empty());
        assert(lits@.map_values(|v: Vec<char>| v@) =~= Seq::<Seq<char>>::empty());
    }
    while i < p.len()
        invariant
            0 <= i <= p@.len(),
            lits@.map_values(|v: Vec<char>| v@) == literal_scan(p@.subrange(0, i as int)).0,
            cur@ == literal_scan(p@.subrange(0, i as int)).1,
        decreases p@.len() - i,
    {
        let c = p[i];
        proof {
            assert(p@.subrange(0, i + 1).drop_last() =~= p@.subrange(0, i as int));
        }
        if special_char(c) {
            if chars_utf8_len(cur.as_slice()) >= 2 {
                let ghost before = lits@;
                lits.push(cur);
                proof {
                    assert(lits@.map_values(|v: Vec<char>| v@) =~= before.map_values(|v: Vec<char>| v@).push(
                        literal_scan(p@.subrange(0, i as int)).1,
                    ));
                }
            }
            cur = Vec::new();
        } else {
            cur.push(c);
        }
        i = i + 1;
    }
    proof {
        assert(p@.subrange(0, p@.len() as int) =~= p@);
    }
    if chars_utf8_len(cur.as_slice()) >= 2 {
        let ghost before = lits@;
        lits.push(cur);
        proof {
            assert(lits@.map_values(|v: Vec<char>| v@) =~= before.map_values(|v: Vec<char>| v@).push(
                literal_scan(p@).1,
            ));
        }
    }
    lits
}

/// A copy of a run of characters.
fn copy_chars(v: &[char]) -> (r: Vec<char>)
    ensures
        r@ == v@,
{
    let mut r: Vec<char> = Vec::new();
    let mut i: usize = 0;
    while i < v.len()
        invariant
            0 <= i <= v@.len(),
            r@ == v@.subrange(0, i as int),
        decreases v@.len() - i,
    {
        r.push(v[i]);
        proof {
            assert(v@.subrange(0, i + 1) =~= v@.subrange(0, i as int).push(v@[i as int]));
        }
        i = i + 1;
    }
    proof {
        assert(v@.subrange(0, v@.len() as int) =~= v@);
    }
    r
}

/// The character views of runs.
pub open spec fn runs_view(v: Seq<Vec<char>>) -> Seq<Seq<char>> {
    v.map_values(|x: Vec<char>| x@)
}

proof fn lemma_desc_extend(v: Seq<Seq<char>>, hi: int, lo: int)
    requires
        lo <= hi + 1,
    ensures
        by_length_desc(v, hi, lo - 1) == by_length_desc(v, hi, lo) + length_bucket(v, lo - 1),
    decreases hi - lo + 1,
{
    if hi < lo {
        assert(by_length_desc(v, hi - 1, hi) =~= Seq::<Seq<char>>::empty());
        assert(by_length_desc(v, hi, lo - 1) =~= length_bucket(v, hi));
        assert(by_length_desc(v, hi, lo) =~= Seq::<Seq<char>>::empty());
    } else {
        lemma_desc_extend(v, hi - 1, lo);
        assert(by_length_desc(v, hi, lo - 1) == length_bucket(v, hi) + by_length_desc(v, hi - 1, lo - 1));
        assert(by_length_desc(v, hi, lo) == length_bucket(v, hi) + by_length_desc(v, hi - 1, lo));
        assert((length_bucket(v, hi) + by_length_desc(v, hi - 1, lo)) + length_bucket(v, lo - 1) =~= length_bucket(v, hi)
            + (by_length_desc(v, hi - 1, lo) + length_bucket(v, lo - 1)));
    }
}

/// Orders runs by decreasing UTF-8 length, keeping the order of runs of one length.
fn sort_by_length_desc(v: &Vec<Vec<char>>) -> (r: Vec<Vec<char>>)
    ensures
        runs_view(r@) == by_length_desc(runs_view(v@), max_len(runs_view(v@)), 0),
{
    let ghost vv = runs_view(v@);
    let n = v.len();
    let mut lens: Vec<usize> = Vec::new();
    let mut maxlen: usize = 0;
    let mut i: usize = 0;
    while i < n
        invariant
            n == v@.len(),
            vv == runs_view(v@),
            0 <= i <= n,
            lens@.len() == i,
            forall|q: int| 0 <= q < i ==> lens@[q] == utf8_len(#[trigger] vv[q]),
            maxlen == max_len(vv.take(i as int)),
        decreases n - i,
    {
        let l = chars_utf8_len(v[i].as_slice());
        proof {
            assert(vv.take(i + 1).drop_last() =~= vv.take(i as int));
            assert(vv[i as int] == v@[i as int]@);
        }
        lens.push(l);
        if l > maxlen {
            maxlen = l;
        }
        i = i + 1;
    }
    proof {
        assert(vv.take(n as int) =~= vv);
    }
    let mut out: Vec<Vec<char>> = Vec::new();
    let mut len: usize = maxlen;
    let mut done = false;
    proof {
        assert(by_length_desc(vv, maxlen as int, maxlen + 1) =~= Seq::<Seq<char>>::empty());
        lemma_desc_extend(vv, maxlen as int, maxlen + 1);
    }
    // out holds the buckets of lengths maxlen down to len + 1
    while !done
        invariant
            n == v@.len(),
            vv == runs_view(v@),
            lens@.len() == n,
            forall|q: int| 0 <= q < n ==> lens@[q] == utf8_len(#[trigger] vv[q]),
            len <= maxlen,
            !done ==> runs_view(out@) == by_length_desc(vv, maxlen as int, len + 1),
            done ==> runs_view(out@) == by_length_desc(vv, maxlen as int, 0),
        decreases len, if done { 0int } else { 1int },
    {
        let ghost before = runs_view(out@);
        let mut j: usize = 0;
        while j < n
            invariant
                n == v@.len(),
                vv == runs_view(v@),
                lens@.len() == n,
                forall|q: int| 0 <= q < n ==> lens@[q] == utf8_len(#[trigger] vv[q]),
                0 <= j <= n,
                runs_view(out@) == before + length_bucket(vv.take(j as int), len as int),
            decreases n - j,
        {
            proof {
                assert(vv.take(j + 1).drop_last() =~= vv.take(j as int));
                assert(vv.take(j + 1).last() == vv[j as int]);
            }
            if lens[j] == len {
                let c = copy_chars(v[j].as_slice());
                let ghost pre = out@;
                out.push(c);
                proof {
                    assert(runs_view(out@) =~= runs_view(pre).push(vv[j as int]));
                }
            }
            j = j + 1;
        }
        proof {
            assert(vv.take(n as int) =~= vv);
            lemma_desc_extend(vv, maxlen as int, len as int + 1);
        }
        if len == 0 {
            done = true;
        } else {
            len = len - 1;
        }
    }
    out
}

/// Drops each run that a run kept before it contains (see `drop_contained`).
fn keep_uncontained(v: &Vec<Vec<char>>) -> (r: Vec<Vec<char>>)
    ensures
        runs_view(r@) == drop_contained(runs_view(v@)),
{
    let ghost vv = runs_view(v@);
    let mut kept: Vec<Vec<char>> = Vec::new();
    let mut i: usize = 0;
    proof {
        assert(vv.take(0) =~= Seq::<Seq<char>>::empty());
        assert(runs_view(kept@) =~= Seq::<Seq<char>>::empty());
    }
    while i < v.len()
        invariant
            0 <= i <= v@.len(),
            vv == runs_view(v@),
            runs_view(kept@) == drop_contained(vv.take(i as int)),
        decreases v@.len() - i,
    {
        let lit = v[i].as_slice();
        let ghost kv = runs_view(kept@);
        let mut found = false;
        let mut k: usize = 0;
        while k < kept.len()
            invariant
                0 <= k <= kept@.len(),
                kv == runs_view(kept@),
                lit@ == vv[i as int],
                i < vv.len(),
                found == exists|q: int| 0 <= q < k && contains_chars(#[trigger] kv[q], lit@),
            decreases kept@.len() - k,
        {
            if chars_contain(kept[k].as_slice(), lit) {
                found = true;
            }
            proof {
                assert(kv[k as int] == kept@[k as int]@);
            }
            k = k + 1;
        }
        proof {
            assert(vv.take(i + 1).drop_last() =~= vv.take(i as int));
            assert(vv.take(i + 1).last() == vv[i as int]);
        }
        if !found {
            let c = copy_chars(lit);
            kept.push(c);
            proof {
                assert(runs_view(kept@) =~= kv.push(vv[i as int]));
            }
        }
        i = i + 1;
    }
    proof {
        assert(vv.take(v@.len() as int) =~= vv);
    }
    kept
}

/// The literals of a regular expression (see `regex_literals`).
pub fn extract_regex_literals(pattern: &str) -> (r: Vec<String>)
    ensures
        string_views(r@) == regex_literals(pattern@),
{
    let chars = str_chars(pattern);
    let raw = scan_literals(chars.as_slice());
    let sorted = sort_by_length_desc(&raw);
    let kept = keep_uncontained(&sorted);
    let mut out: Vec<String> = Vec::new();
    let mut i: usize = 0;
    while i < kept.len()
        invariant
            0 <= i <= kept@.len(),
            string_views(out@) == runs_view(kept@).take(i as int),
        decreases kept@.len() - i,
    {
        let sv = crate::text::string_from_chars(kept[i].as_slice());
        let ghost before = out@;
        out.push(sv);
        proof {
            assert(string_views(out@) =~= string_views(before).push(sv@));
            assert(runs_view(kept@)[i as int] == kept@[i as int]@);
            assert(runs_view(kept@).take(i + 1) =~= runs_view(kept@).take(i as int).push(kept@[i as int]@));
        }
        i = i + 1;
    }
    proof {
        assert(runs_view(kept@).take(kept@.len() as int) =~= runs_view(kept@));
    }
    out
}

#[verifier::external_type_specification]
#[verifier::external_body]
pub struct ExRegex(regex::Regex);

#[verifier::external_type_specification]
#[verifier::external_body]
pub struct ExRegexError(regex::Error);

/// Whether the regular expression `pattern`, as `regex::Regex::new` compiles it, matches
/// somewhere in `text` (`Regex::is_match`).
pub uninterp spec fn regex_accepts(pattern: Seq<char>, text: Seq<char>) -> bool;

/// A compiled regular expression together with the text it was compiled from.
pub struct CompiledPattern {
    source: String,
    re: regex::Regex,
}

impl CompiledPattern {
    /// The text the expression was compiled from.
    pub closed spec fn source_view(&self) -> Seq<char> {
        self.source@
    }
}

/// Whether `regex::Regex::new` accepts `source` on a target whose `usize` has
/// `usize_bits` bits: it is a valid expression whose compiled form stays within the
/// default size limit (which the compiler measures in target-sized words).
pub uninterp spec fn regex_compiles(source: Seq<char>, usize_bits: u32) -> bool;

/// `regex::Regex::new`: compiles `source`; the result keeps `source` beside the
/// expression.
#[verifier::external_body]
fn compile_regex(source: &str) -> (r: Result<CompiledPattern, regex::Error>)
    ensures
        r is Ok <==> regex_compiles(source@, usize::BITS),
        r matches Ok(cp) ==> cp.source_view() == source@,
{
    match regex::Regex::new(source) {
        Ok(re) => Ok(CompiledPattern { source: source.to_string(), re }),
        Err(e) => Err(e),
    }
}

/// `regex::Regex::is_match` of a compiled expression on `text`.
#[verifier::external_body]
fn regex_is_match(cp: &CompiledPattern, text: &str) -> (b: bool)
    ensures
        b == regex_accepts(cp.source_view(), text@),
{
    cp.re.is_match(text)
}

/// The `Display` text of a `regex::Error`: the compiler's reason. Nothing is stated of
/// its content.
#[verifier::external_body]
fn regex_error_text(e: &regex::Error) -> String {
    e.to_string()
}

/// The message for a pattern that does not compile, with the compiler's reason.
pub open spec fn invalid_regex_message(pattern: Seq<char>, reason: Seq<char>) -> Seq<char> {
    "Invalid regex '"@ + pattern + "': "@ + reason
}

/// The message for `pattern` that failed with `reason`.
fn regex_error_message(pattern: &str, reason: &str) -> (m: String)
    ensures
        m@ == invalid_regex_message(pattern@, reason@),
{
    let mut v: Vec<char> = Vec::new();
    crate::text::append_str(&mut v, "Invalid regex '");
    crate::text::append_str(&mut v, pattern);
    crate::text::append_str(&mut v, "': ");
    crate::text::append_str(&mut v, reason);
    proof {
        assert(v@ =~= invalid_regex_message(pattern@, reason@));
    }
    crate::text::string_from_chars(v.as_slice())
}

/// The patterns compile up to `k`, and pattern `k` does not.
pub open spec fn first_failing(srcs: Seq<Seq<char>>, k: int) -> bool {
    &&& 0 <= k < srcs.len()
    &&& !regex_compiles(srcs[k], usize::BITS)
    &&& forall|j: int| 0 <= j < k ==> regex_compiles(#[trigger] srcs[j], usize::BITS)
}

/// A regular-expression search fails to start exactly when some pattern does not
/// compile; the message names the first such pattern, with the compiler's reason.
pub open spec fn regex_failure(ps: Seq<Seq<char>>, srcs: Seq<Seq<char>>, e: MlocateError) -> bool {
    match e {
        MlocateError::Other(m) => exists|k: int, reason: Seq<char>|
            #![trigger first_failing(srcs, k), invalid_regex_message(ps[k], reason)]
            first_failing(srcs, k) && m@ == invalid_regex_message(ps[k], reason),
        _ => false,
    }
}

/// The text a pattern is compiled from: prefixed by `(?i)` when case is ignored.
pub open spec fn regex_source(p: Seq<char>, ignore_case: bool) -> Seq<char> {
    if ignore_case {
        seq!['(', '?', 'i', ')'] + p
    } else {
        p
    }
}

/// Narrowing candidates by literals, left to right: each literal of three bytes or more
/// intersects the candidates with its trigram candidates.
pub open spec fn narrow_by_literals(rd: IndexReader, acc: Option<Set<u32>>, lits: Seq<Seq<char>>) -> Option<Set<u32>>
    decreases lits.len(),
{
    if lits.len() == 0 {
        acc
    } else {
        let lit = lits[0];
        let next = if utf8_len(lit) >= 3 {
            match pattern_candidates(rd, lit) {
                Some(s) => match acc {
                    Some(a) => Some(a.intersect(s)),
                    None => Some(s),
                },
                None => acc,
            }
        } else {
            acc
        };
        narrow_by_literals(rd, next, lits.drop_first())
    }
}

/// The candidates of one pattern: those all its long literals allow; `None` (every file)
/// when it has no literal of three bytes or more that the index narrows by.
pub open spec fn regex_pattern_candidates(rd: IndexReader, p: Seq<char>) -> Option<Set<u32>> {
    narrow_by_literals(rd, None, regex_literals(p))
}

/// The candidates of several patterns, which are alternatives: the union of theirs;
/// `None` (every file) as soon as one pattern allows every file.
pub open spec fn regex_union(rd: IndexReader, ps: Seq<Seq<char>>) -> Option<Set<u32>>
    decreases ps.len(),
{
    if ps.len() == 0 {
        Some(Set::empty())
    } else {
        match (regex_union(rd, ps.drop_last()), regex_pattern_candidates(rd, ps.last())) {
            (Some(a), Some(b)) => Some(a.union(b)),
            _ => None,
        }
    }
}

/// The candidates of a regular-expression search: for each pattern, the files all its
/// long literals allow, united over the patterns; every file when some pattern has no
/// such literal, or when there are no patterns.
pub open spec fn regex_candidates(rd: IndexReader, ps: Seq<Seq<char>>) -> Set<u32> {
    if ps.len() == 0 {
        rd.all_ids()
    } else {
        match regex_union(rd, ps) {
            Some(s) => s,
            None => rd.all_ids(),
        }
    }
}

/// Whether narrowing ends with candidates depends only on whether it starts with some.
proof fn lemma_narrow_some(rd: IndexReader, a: Option<Set<u32>>, b: Option<Set<u32>>, lits: Seq<Seq<char>>)
    requires
        (a is Some) == (b is Some),
    ensures
        (narrow_by_literals(rd, a, lits) is Some) == (narrow_by_literals(rd, b, lits) is Some),
    decreases lits.len(),
{
    if lits.len() > 0 {
        let lit = lits[0];
        let na = if utf8_len(lit) >= 3 {
            match pattern_candidates(rd, lit) {
                Some(s) => match a {
                    Some(x) => Some(x.intersect(s)),
                    None => Some(s),
                },
                None => a,
            }
        } else {
            a
        };
        let nb = if utf8_len(lit) >= 3 {
            match pattern_candidates(rd, lit) {
                Some(s) => match b {
                    Some(x) => Some(x.intersect(s)),
                    None => Some(s),
                },
                None => b,
            }
        } else {
            b
        };
        lemma_narrow_some(rd, na, nb, lits.drop_first());
    }
}

/// Narrows `acc` by the literals of one pattern.
fn narrow_literals(reader: &IndexReader, acc: Option<RoaringBitmap>, pattern: &str) -> (r: Option<RoaringBitmap>)
    ensures
        (r is Some) == (narrow_by_literals(*reader, result_set(acc), regex_literals(pattern@)) is Some),
        (reader.tri_table_ok() && reader.bi_table_ok()) ==> result_set(r) == narrow_by_literals(
            *reader,
            result_set(acc),
            regex_literals(pattern@),
        ),
{
    let lits = extract_regex_literals(pattern);
    let ghost lv = string_views(lits@);
    let mut cur = acc;
    let mut i: usize = 0;
    proof {
        assert(lv.skip(0) =~= lv);
    }
    while i < lits.len()
        invariant
            0 <= i <= lits@.len(),
            lv == string_views(lits@),
            lv == regex_literals(pattern@),
            narrow_by_literals(*reader, result_set(acc), lv) is Some == narrow_by_literals(*reader, result_set(cur), lv.skip(i as int)) is Some,
            (reader.tri_table_ok() && reader.bi_table_ok()) ==> narrow_by_literals(*reader, result_set(acc), lv)
                == narrow_by_literals(*reader, result_set(cur), lv.skip(i as int)),
            (cur is Some) ==> (result_set(cur) is Some),
            (cur is None) ==> (result_set(cur) is None),
        decreases lits@.len() - i,
    {
        let lit = lits[i].as_str();
        proof {
            assert(lv.skip(i as int)[0] == lv[i as int]);
            assert(lv.skip(i as int).drop_first() =~= lv.skip(i + 1));
        }
        let ghost old_cur = result_set(cur);
        if lit.as_bytes().len() >= 3 {
            let pb = pattern_bitmap(reader, lit);
            cur = match (cur, pb) {
                (Some(c), Some(b)) => Some(bitmap_and(&c, &b)),
                (None, Some(b)) => Some(b),
                (c, None) => c,
            };
        }
        proof {
            let l0 = lv[i as int];
            let next = if utf8_len(l0) >= 3 {
                match pattern_candidates(*reader, l0) {
                    Some(s) => match old_cur {
                        Some(a) => Some(a.intersect(s)),
                        None => Some(s),
                    },
                    None => old_cur,
                }
            } else {
                old_cur
            };
            assert(narrow_by_literals(*reader, old_cur, lv.skip(i as int)) == narrow_by_literals(*reader, next, lv.skip(i + 1)));
            lemma_narrow_some(*reader, next, result_set(cur), lv.skip(i + 1));
        }
        i = i + 1;
    }
    proof {
        assert(lv.skip(lits@.len() as int) =~= Seq::<Seq<char>>::empty());
    }
    cur
}

/// The document set of an optional bitmap.
pub open spec fn result_set(r: Option<RoaringBitmap>) -> Option<Set<u32>> {
    match r {
        Some(b) => Some(roaring_set(b)),
        None => None,
    }
}

/// The path `file_path_only` reads for file `doc`, or `None` where it fails.
pub open spec fn path_only(rd: IndexReader, doc: int) -> Option<Seq<char>> {
    let d = rd.data@;
    let start = rd.header.file_dir_offset + crate::index::header::u64_at(d, rd.offset_slot(doc));
    let pl = crate::index::header::u32_at(d, start);
    if doc < rd.header.num_files && start + 4 <= d.len() && start + 4 + pl <= d.len() {
        Some(utf8_lossy(d.subrange(start + 4, start + 4 + pl)))
    } else {
        None
    }
}

/// Some expression accepts `text`.
pub open spec fn any_accepts(srcs: Seq<Seq<char>>, text: Seq<char>) -> bool {
    exists|i: int| 0 <= i < srcs.len() && regex_accepts(#[trigger] srcs[i], text)
}

/// Scanning candidates in order: each one's path is read (a failed read ends the scan
/// with an error), kept when some expression accepts its target, and the scan stops
/// once as many as the limit are kept. The state is what was kept and whether it stopped.
pub open spec fn regex_scan(
    rd: IndexReader,
    srcs: Seq<Seq<char>>,
    basename: bool,
    limit: Option<usize>,
    cands: Seq<u32>,
) -> Option<(Seq<u32>, bool)>
    decreases cands.len(),
{
    if cands.len() == 0 {
        Some((Seq::empty(), false))
    } else {
        match regex_scan(rd, srcs, basename, limit, cands.drop_last()) {
            None => None,
            Some(st) => if st.1 {
                Some(st)
            } else {
                match path_only(rd, cands.last() as int) {
                    None => None,
                    Some(path) => {
                        let kept = if any_accepts(srcs, match_target(path, basename)) {
                            st.0.push(cands.last())
                        } else {
                            st.0
                        };
                        Some(
                            (
                                kept,
                                match limit {
                                    Some(l) => kept.len() >= l,
                                    None => false,
                                },
                            ),
                        )
                    },
                }
            },
        }
    }
}

/// What a scan kept; nothing for a failed scan.
pub open spec fn scan_kept(st: Option<(Seq<u32>, bool)>) -> Seq<u32> {
    match st {
        Some(x) => x.0,
        None => Seq::empty(),
    }
}

/// The expression texts of the patterns.
pub open spec fn regex_sources(ps: Seq<Seq<char>>, ignore_case: bool) -> Seq<Seq<char>> {
    ps.map_values(|p: Seq<char>| regex_source(p, ignore_case))
}

/// `u` lists the members of `s` in increasing order.
pub open spec fn increasing_listing(u: Seq<u32>, s: Set<u32>) -> bool {
    &&& forall|i: int, j: int| 0 <= i < j < u.len() ==> u[i] < u[j]
    &&& forall|d: u32| s.contains(d) <==> u.contains(d)
}

/// `p` prefixed by `(?i)` when case is ignored.
fn source_string(p: &str, ignore_case: bool) -> (r: String)
    ensures
        r@ == regex_source(p@, ignore_case),
{
    let chars = str_chars(p);
    if ignore_case {
        let mut v: Vec<char> = Vec::new();
        v.push('(');
        v.push('?');
        v.push('i');
        v.push(')');
        let mut i: usize = 0;
        while i < chars.len()
            invariant
                0 <= i <= chars@.len(),
                v@ == seq!['(', '?', 'i', ')'] + chars@.subrange(0, i as int),
            decreases chars@.len() - i,
        {
            v.push(chars[i]);
            proof {
                assert(seq!['(', '?', 'i', ')'] + chars@.subrange(0, i + 1) =~= (seq!['(', '?', 'i', ')'] + chars@.subrange(0, i as int)).push(chars@[i as int]));
            }
            i = i + 1;
        }
        proof {
            assert(chars@.subrange(0, chars@.len() as int) =~= chars@);
        }
        crate::text::string_from_chars(v.as_slice())
    } else {
        crate::text::string_from_chars(chars.as_slice())
    }
}

/// A regular-expression search: compiles the patterns, narrows the candidates by their
/// literals (see `regex_candidates`), then scans the candidates in increasing order (see
/// `regex_scan`). A pattern that does not compile is an error.
fn regex_search(reader: &IndexReader, patterns: &[String], options: &SearchOptions) -> (r: Result<Vec<u32>, MlocateError>)
    requires
        reader.files_readable(),
    ensures
        ({
            let srcs = regex_sources(string_views(patterns@), options.ignore_case);
            match r {
                Ok(v) => exists|l: Seq<u32>|
                    #![trigger regex_scan(*reader, srcs, options.basename, options.limit, l)]
                    (forall|i: int, j: int| 0 <= i < j < l.len() ==> l[i] < l[j])
                    && ((reader.tri_table_ok() && reader.bi_table_ok()) ==> increasing_listing(
                        l,
                        regex_candidates(*reader, string_views(patterns@)),
                    ))
                    && regex_scan(*reader, srcs, options.basename, options.limit, l) is Some
                    && scan_kept(regex_scan(*reader, srcs, options.basename, options.limit, l)) == v@,
                Err(e) => match e {
                    MlocateError::Other(_) => regex_failure(string_views(patterns@), srcs, e),
                    MlocateError::IndexFormatError { .. } => exists|l: Seq<u32>|
                        #![trigger regex_scan(*reader, srcs, options.basename, options.limit, l)]
                        regex_scan(*reader, srcs, options.basename, options.limit, l) is None,
                    _ => false,
                },
            }
        }),
        (r matches Err(MlocateError::Other(_))) <==> exists|k: int| 0 <= k < patterns@.len()
            && !regex_compiles(#[trigger] regex_sources(string_views(patterns@), options.ignore_case)[k], usize::BITS),
{
    let ghost views = string_views(patterns@);
    let ghost srcs = regex_sources(views, options.ignore_case);
    let mut compiled: Vec<CompiledPattern> = Vec::new();
    let mut i: usize = 0;
    while i < patterns.len()
        invariant
            0 <= i <= patterns@.len(),
            views == string_views(patterns@),
            srcs == regex_sources(views, options.ignore_case),
            compiled@.len() == i,
            forall|q: int| 0 <= q < i ==> (#[trigger] compiled@[q]).source_view() == srcs[q],
            forall|q: int| 0 <= q < i ==> regex_compiles(#[trigger] srcs[q], usize::BITS),
        decreases patterns@.len() - i,
    {
        let src = source_string(patterns[i].as_str(), options.ignore_case);
        proof {
            assert(srcs[i as int] == regex_source(views[i as int], options.ignore_case));
            assert(views[i as int] == patterns@[i as int]@);
        }
        match compile_regex(src.as_str()) {
            Ok(cp) => compiled.push(cp),
            Err(e) => {
                let reason = regex_error_text(&e);
                let m = regex_error_message(patterns[i].as_str(), reason.as_str());
                proof {
                    assert(first_failing(srcs, i as int));
                }
                return Err(MlocateError::Other(m));
            },
        }
        i = i + 1;
    }
    proof {
        assert forall|k: int| 0 <= k < patterns@.len() implies regex_compiles(#[trigger] srcs[k], usize::BITS) by {}
    }
    // each pattern narrows by its own literals; the patterns' candidates are united
    let mut every = false;
    let mut acc = bitmap_new();
    let mut k: usize = 0;
    while k < patterns.len()
        invariant
            0 <= k <= patterns@.len(),
            views == string_views(patterns@),
            every == (regex_union(*reader, views.take(k as int)) is None),
            srcs == regex_sources(views, options.ignore_case),
            forall|q: int| 0 <= q < patterns@.len() ==> regex_compiles(#[trigger] srcs[q], usize::BITS),
            (reader.tri_table_ok() && reader.bi_table_ok() && !every) ==> regex_union(*reader, views.take(k as int))
                == Some(roaring_set(acc)),
        decreases patterns@.len() - k,
    {
        let c = narrow_literals(reader, None, patterns[k].as_str());
        proof {
            assert(views.take(k + 1).drop_last() =~= views.take(k as int));
            assert(views.take(k + 1).last() == views[k as int]);
            assert(views[k as int] == patterns@[k as int]@);
        }
        match c {
            Some(b) => {
                acc = bitmap_or(&acc, &b);
            },
            None => {
                every = true;
            },
        }
        k = k + 1;
    }
    proof {
        assert(views.take(patterns@.len() as int) =~= views);
    }
    let pre = if every || patterns.len() == 0 {
        all_ids_bitmap(reader.num_files() as u32)
    } else {
        acc
    };
    let list = bitmap_values(&pre);
    proof {
        if reader.tri_table_ok() && reader.bi_table_ok() {
            assert(roaring_set(pre) == regex_candidates(*reader, views));
        }
    }
    // scan the candidates in increasing order
    let mut kept: Vec<u32> = Vec::new();
    let mut stopped = false;
    let mut j: usize = 0;
    proof {
        assert(list@.take(0) =~= Seq::<u32>::empty());
    }
    while j < list.len()
        invariant
            0 <= j <= list@.len(),
            forall|q: int| 0 <= q < patterns@.len() ==> regex_compiles(#[trigger] srcs[q], usize::BITS),
            srcs.len() == patterns@.len(),
            srcs == regex_sources(string_views(patterns@), options.ignore_case),
            compiled@.len() == srcs.len(),
            forall|q: int| 0 <= q < srcs.len() ==> (#[trigger] compiled@[q]).source_view() == srcs[q],
            reader.files_readable(),
            regex_scan(*reader, srcs, options.basename, options.limit, list@.take(j as int)) == Some((kept@, stopped)),
        decreases list@.len() - j,
    {
        let doc = list[j];
        proof {
            assert(list@.take(j + 1).drop_last() =~= list@.take(j as int));
            assert(list@.take(j + 1).last() == doc);
            if doc < reader.header.num_files {
                assert(reader.entry_readable(doc as int));
            }
        }
        if !stopped {
            let path = match reader.file_path_only(doc) {
                Ok(p) => p,
                Err(e) => {
                    proof {
                        let l = list@.take(j + 1);
                        assert(regex_scan(*reader, srcs, options.basename, options.limit, l) is None);
                        assert(exists|l: Seq<u32>|
                            #![trigger regex_scan(*reader, srcs, options.basename, options.limit, l)]
                            regex_scan(*reader, srcs, options.basename, options.limit, l) is None);
                    }
                    return Err(MlocateError::IndexFormatError { details: e });
                },
            };
            let chars = str_chars(path.as_str());
            let target = if options.basename {
                crate::text::string_from_chars(basename_chars(chars.as_slice()).as_slice())
            } else {
                path
            };
            let mut matched = false;
            let mut q: usize = 0;
            while q < compiled.len()
                invariant
                    0 <= q <= compiled@.len(),
                    compiled@.len() == srcs.len(),
                    forall|x: int| 0 <= x < srcs.len() ==> (#[trigger] compiled@[x]).source_view() == srcs[x],
                    matched == exists|x: int| 0 <= x < q && regex_accepts(#[trigger] srcs[x], target@),
                decreases compiled@.len() - q,
            {
                if regex_is_match(&compiled[q], target.as_str()) {
                    matched = true;
                }
                q = q + 1;
            }
            if matched {
                kept.push(doc);
            }
            stopped = match options.limit {
                Some(l) => kept.len() >= l,
                None => false,
            };
        }
        j = j + 1;
    }
    proof {
        assert(list@.take(list@.len() as int) =~= list@);
    }
    Ok(kept)
}

/// `f` answered `answer` when asked about a text whose characters are `path`.
pub open spec fn reported<F: Fn(&str) -> bool>(f: F, path: Seq<char>, answer: bool) -> bool {
    exists|s: &str| s@ == path && #[trigger] f.ensures((s,), answer)
}

/// A candidate whose record `rec` a search passes over: the record does not pass the
/// patterns and filters, or only existing files are asked for and `path_exists` said its
/// path does not exist.
pub open spec fn skipped<F: Fn(&str) -> bool>(
    rec: crate::index::layout::FileRecord,
    ps: Seq<Seq<char>>,
    opts: SearchOptions,
    filters: SearchFilters,
    now: i64,
    path_exists: F,
) -> bool {
    !record_passes(rec, ps, opts, filters, now) || (opts.existing && reported(path_exists, utf8_lossy(rec.path), false))
}

/// A record passes a search: some pattern matches its path (unless the search is by
/// regular expression, whose matching was done when the candidates were chosen, or has no
/// patterns), and its size, mtime and MIME type pass the filters.
pub open spec fn record_passes(
    rec: crate::index::layout::FileRecord,
    ps: Seq<Seq<char>>,
    opts: SearchOptions,
    filters: SearchFilters,
    now: i64,
) -> bool {
    let path = utf8_lossy(rec.path);
    &&& (opts.regex || ps.len() == 0 || exists|i: int| 0 <= i < ps.len() && path_matches_spec(path, #[trigger] ps[i], opts))
    &&& filters_pass(rec.size, rec.mtime, utf8_lossy(rec.mime), filters, now)
}

/// The results of a search, handed out one at a time by `next`.
pub struct SearchResults<'a> {
    reader: &'a IndexReader<'a>,
    candidate_ids: Vec<u32>,
    patterns: Vec<String>,
    options: SearchOptions,
    filters: SearchFilters,
    position: usize,
    emitted: usize,
    now: i64,
}

impl<'a> SearchResults<'a> {
    pub closed spec fn reader_spec(&self) -> IndexReader<'a> {
        *self.reader
    }

    /// The candidate file ids, in increasing order.
    pub closed spec fn candidates(&self) -> Seq<u32> {
        self.candidate_ids@
    }

    pub closed spec fn patterns_spec(&self) -> Seq<Seq<char>> {
        string_views(self.patterns@)
    }

    pub closed spec fn options_spec(&self) -> SearchOptions {
        self.options
    }

    pub closed spec fn filters_spec(&self) -> SearchFilters {
        self.filters
    }

    pub closed spec fn now_spec(&self) -> i64 {
        self.now
    }

    /// How many candidates have been looked at.
    pub closed spec fn position_spec(&self) -> int {
        self.position as int
    }

    /// How many results have been handed out.
    pub closed spec fn emitted_spec(&self) -> int {
        self.emitted as int
    }

    pub closed spec fn wf(&self) -> bool {
        &&& self.reader.files_readable()
        &&& self.position <= self.candidate_ids@.len()
        &&& self.emitted <= self.position
        &&& self.options.limit matches Some(l) ==> self.emitted <= l
    }

    /// The next result: the next candidate whose record reads and passes the patterns
    /// and filters (and, when asked for, whose path `path_exists` reports). A record that
    /// does not read is an error. Nothing once the candidates run out or the limit is
    /// reached.
    pub fn next<F: Fn(&str) -> bool>(&mut self, path_exists: &F) -> (r: Option<Result<DiskFileEntry, MlocateError>>)
        requires
            old(self).wf(),
            forall|s: &str| path_exists.requires((s,)),
        ensures
            final(self).wf(),
            final(self).reader_spec() == old(self).reader_spec(),
            final(self).candidates() == old(self).candidates(),
            final(self).patterns_spec() == old(self).patterns_spec(),
            final(self).options_spec() == old(self).options_spec(),
            final(self).filters_spec() == old(self).filters_spec(),
            final(self).now_spec() == old(self).now_spec(),
            old(self).position_spec() <= final(self).position_spec() <= old(self).candidates().len(),
            r is Some ==> old(self).position_spec() < final(self).position_spec(),
            final(self).options_spec().limit matches Some(l) ==> final(self).emitted_spec() <= l,
            ({
                let rd = old(self).reader_spec();
                let c = old(self).candidates();
                let p0 = old(self).position_spec();
                let p1 = final(self).position_spec();
                let opts = old(self).options_spec();
                let limited = opts.limit matches Some(l) && old(self).emitted_spec() >= l;
                let last = if r is Some { p1 - 1 } else { p1 };
                &&& (limited || p0 == c.len()) ==> (r is None && p1 == p0)
                &&& forall|q: int| p0 <= q < last ==> (#[trigger] rd.file_record(c[q] as int)) is Some && skipped(
                    rd.file_record(c[q] as int)->0,
                    old(self).patterns_spec(),
                    opts,
                    old(self).filters_spec(),
                    old(self).now_spec(),
                    *path_exists,
                )
                &&& r is None ==> (limited || p1 == c.len()) && final(self).emitted_spec() == old(self).emitted_spec()
                &&& r matches Some(Ok(e)) ==> !limited && p1 >= 1 && rd.file_record(c[p1 - 1] as int) is Some
                    && entry_matches(e, rd.file_record(c[p1 - 1] as int)->0) && record_passes(
                    rd.file_record(c[p1 - 1] as int)->0,
                    old(self).patterns_spec(),
                    opts,
                    old(self).filters_spec(),
                    old(self).now_spec(),
                ) && (opts.existing ==> reported(*path_exists, e.full_path@, true))
                    && final(self).emitted_spec() == old(self).emitted_spec() + 1
                &&& r matches Some(Err(err)) ==> !limited && p1 >= 1 && rd.file_record(c[p1 - 1] as int) is None
                    && err is IndexFormatError && final(self).emitted_spec() == old(self).emitted_spec()
            }),
    {
        let ghost p0 = self.position as int;
        if self.position >= self.candidate_ids.len() {
            return None;
        }
        if let Some(limit) = self.options.limit {
            if self.emitted >= limit {
                return None;
            }
        }
        let ghost views = string_views(self.patterns@);
        while self.position < self.candidate_ids.len()
            invariant
                self.reader.files_readable(),
                p0 <= self.position <= self.candidate_ids@.len(),
                views == string_views(self.patterns@),
                forall|s: &str| path_exists.requires((s,)),
                self.candidate_ids == old(self).candidate_ids,
                self.reader == old(self).reader,
                self.patterns == old(self).patterns,
                self.options == old(self).options,
                self.filters == old(self).filters,
                self.now == old(self).now,
                self.emitted == old(self).emitted,
                self.emitted <= p0,
                p0 == old(self).position,
                !(self.options.limit matches Some(l) && self.emitted >= l),
                forall|q: int| p0 <= q < self.position ==> (#[trigger] self.reader.file_record(self.candidate_ids@[q] as int)) is Some && skipped(
                    self.reader.file_record(self.candidate_ids@[q] as int)->0,
                    views,
                    self.options,
                    self.filters,
                    self.now,
                    *path_exists,
                ),
            decreases self.candidate_ids@.len() - self.position,
        {
            let doc_id = self.candidate_ids[self.position];
            self.position = self.position + 1;
            proof {
                if doc_id < self.reader.header.num_files {
                    assert(self.reader.entry_readable(doc_id as int));
                }
            }
            let entry = match self.reader.file_entry(doc_id) {
                Ok(e) => e,
                Err(e) => {
                    return Some(Err(MlocateError::IndexFormatError { details: e }));
                },
            };
            let ghost rec = self.reader.file_record(doc_id as int)->0;
            let mut any = false;
            if !self.options.regex && self.patterns.len() > 0 {
                let mut k: usize = 0;
                while k < self.patterns.len()
                    invariant
                        0 <= k <= self.patterns@.len(),
                        views == string_views(self.patterns@),
                        entry.full_path@ == utf8_lossy(rec.path),
                        any == exists|x: int| 0 <= x < k && path_matches_spec(utf8_lossy(rec.path), #[trigger] views[x], self.options),
                    decreases self.patterns@.len() - k,
                {
                    proof {
                        assert(views[k as int] == self.patterns@[k as int]@);
                    }
                    if path_matches(entry.full_path.as_str(), self.patterns[k].as_str(), &self.options) {
                        any = true;
                    }
                    k = k + 1;
                }
                if !any {
                    continue;
                }
            }
            if !filter_matches(&entry, &self.filters, self.now) {
                continue;
            }
            if self.options.existing {
                let asked = entry.full_path.as_str();
                let here = path_exists(asked);
                proof {
                    assert(path_exists.ensures((asked,), here));
                    assert(asked@ == entry.full_path@);
                }
                if !here {
                    continue;
                }
            }
            self.emitted = self.emitted + 1;
            return Some(Ok(entry));
        }
        None
    }

    /// Every remaining result, in the order in which `next` hands them out, until it hands
    /// out nothing.
    pub fn collect_all<F: Fn(&str) -> bool>(&mut self, path_exists: &F) -> (r: Vec<Result<DiskFileEntry, MlocateError>>)
        requires
            old(self).wf(),
            forall|s: &str| path_exists.requires((s,)),
        ensures
            final(self).wf(),
            final(self).reader_spec() == old(self).reader_spec(),
            final(self).candidates() == old(self).candidates(),
            final(self).patterns_spec() == old(self).patterns_spec(),
            final(self).options_spec() == old(self).options_spec(),
            final(self).filters_spec() == old(self).filters_spec(),
            final(self).now_spec() == old(self).now_spec(),
            old(self).position_spec() <= final(self).position_spec(),
            final(self).emitted_spec() == old(self).emitted_spec() + ok_count(r@),
            final(self).position_spec() == final(self).candidates().len()
                || (final(self).options_spec().limit matches Some(l) && final(self).emitted_spec() >= l),
            exists|qs: Seq<int>| #[trigger] collected(
                old(self).reader_spec(),
                old(self).candidates(),
                old(self).patterns_spec(),
                old(self).options_spec(),
                old(self).filters_spec(),
                old(self).now_spec(),
                old(self).position_spec(),
                final(self).position_spec(),
                r@,
                qs,
                *path_exists,
            ),
    {
        let mut out: Vec<Result<DiskFileEntry, MlocateError>> = Vec::new();
        let ghost p0 = self.position_spec();
        let ghost e0 = self.emitted_spec();
        let ghost mut qs: Seq<int> = Seq::empty();
        loop
            invariant
                self.wf(),
                forall|s: &str| path_exists.requires((s,)),
                self.reader_spec() == old(self).reader_spec(),
                self.candidates() == old(self).candidates(),
                self.patterns_spec() == old(self).patterns_spec(),
                self.options_spec() == old(self).options_spec(),
                self.filters_spec() == old(self).filters_spec(),
                self.now_spec() == old(self).now_spec(),
                p0 == old(self).position_spec(),
                e0 == old(self).emitted_spec(),
                p0 <= self.position_spec(),
                self.emitted_spec() == e0 + ok_count(out@),
                collected(
                    old(self).reader_spec(),
                    old(self).candidates(),
                    old(self).patterns_spec(),
                    old(self).options_spec(),
                    old(self).filters_spec(),
                    old(self).now_spec(),
                    p0,
                    self.position_spec(),
                    out@,
                    qs,
                    *path_exists,
                ),
            decreases self.candidates().len() - self.position_spec(),
        {
            let ghost before = self.position_spec();
            let ghost items = out@;
            match self.next(path_exists) {
                Some(item) => {
                    let ghost it = item;
                    out.push(item);
                    proof {
                        let p1 = self.position_spec();
                        lemma_collected_push(
                            old(self).reader_spec(),
                            old(self).candidates(),
                            old(self).patterns_spec(),
                            old(self).options_spec(),
                            old(self).filters_spec(),
                            old(self).now_spec(),
                            p0,
                            before,
                            p1,
                            items,
                            qs,
                            it,
                            *path_exists,
                        );
                        qs = qs.push(p1 - 1);
                        assert(out@.drop_last() =~= items);
                    }
                },
                None => {
                    proof {
                        lemma_collected_skip(
                            old(self).reader_spec(),
                            old(self).candidates(),
                            old(self).patterns_spec(),
                            old(self).options_spec(),
                            old(self).filters_spec(),
                            old(self).now_spec(),
                            p0,
                            before,
                            self.position_spec(),
                            items,
                            qs,
                            *path_exists,
                        );
                    }
                    return out;
                },
            }
        }
    }
}

/// Candidates passed over without a result extend what was collected.
proof fn lemma_collected_skip<F: Fn(&str) -> bool>(
    rd: IndexReader,
    c: Seq<u32>,
    ps: Seq<Seq<char>>,
    opts: SearchOptions,
    filters: SearchFilters,
    now: i64,
    p0: int,
    b: int,
    p1: int,
    items: Seq<Result<DiskFileEntry, MlocateError>>,
    qs: Seq<int>,
    f: F,
)
    requires
        collected(rd, c, ps, opts, filters, now, p0, b, items, qs, f),
        b <= p1,
        forall|q: int| b <= q < p1 ==> (#[trigger] rd.file_record(c[q] as int)) is Some
            && skipped(rd.file_record(c[q] as int)->0, ps, opts, filters, now, f),
    ensures
        collected(rd, c, ps, opts, filters, now, p0, p1, items, qs, f),
{
}

/// A result at position `p1 - 1`, after candidates passed over from `b`, extends what was
/// collected.
proof fn lemma_collected_push<F: Fn(&str) -> bool>(
    rd: IndexReader,
    c: Seq<u32>,
    ps: Seq<Seq<char>>,
    opts: SearchOptions,
    filters: SearchFilters,
    now: i64,
    p0: int,
    b: int,
    p1: int,
    items: Seq<Result<DiskFileEntry, MlocateError>>,
    qs: Seq<int>,
    item: Result<DiskFileEntry, MlocateError>,
    f: F,
)
    requires
        collected(rd, c, ps, opts, filters, now, p0, b, items, qs, f),
        p0 <= b < p1,
        forall|q: int| b <= q < p1 - 1 ==> (#[trigger] rd.file_record(c[q] as int)) is Some
            && skipped(rd.file_record(c[q] as int)->0, ps, opts, filters, now, f),
        result_at(rd, c, p1 - 1, item, ps, opts, filters, now, f),
    ensures
        collected(rd, c, ps, opts, filters, now, p0, p1, items.push(item), qs.push(p1 - 1), f),
{
    let nq = qs.push(p1 - 1);
    assert(nq[qs.len() as int] == p1 - 1);
    assert forall|i: int| 0 <= i < nq.len() implies p0 <= #[trigger] nq[i] < p1 by {
        if i < qs.len() {
            assert(nq[i] == qs[i]);
        }
    }
    assert forall|i: int, j: int| 0 <= i < j < nq.len() implies nq[i] < nq[j] by {
        assert(nq[i] == qs[i]);
        if j < qs.len() {
            assert(nq[j] == qs[j]);
        }
    }
    assert forall|q: int| p0 <= q < p1 && !nq.contains(q) implies (#[trigger] rd.file_record(c[q] as int)) is Some
        && skipped(rd.file_record(c[q] as int)->0, ps, opts, filters, now, f) by {
        if qs.contains(q) {
            let i = choose|i: int| 0 <= i < qs.len() && qs[i] == q;
            assert(nq[i] == q);
        }
    }
    assert forall|i: int| 0 <= i < nq.len() implies result_at(rd, c, #[trigger] nq[i], items.push(item)[i], ps, opts, filters, now, f) by {
        if i < qs.len() {
            assert(nq[i] == qs[i]);
        }
    }
}

/// How many of the results are `Ok`.
pub open spec fn ok_count(items: Seq<Result<DiskFileEntry, MlocateError>>) -> int
    decreases items.len(),
{
    if items.len() == 0 {
        0
    } else {
        ok_count(items.drop_last()) + if items.last() is Ok { 1int } else { 0int }
    }
}

/// What a result says of the candidate at position `q`: an entry that matches its record,
/// which passes the search (and whose path `f` reported as existing, when only existing
/// files are asked for), or an error where the record does not read.
pub open spec fn result_at<F: Fn(&str) -> bool>(
    rd: IndexReader,
    c: Seq<u32>,
    q: int,
    item: Result<DiskFileEntry, MlocateError>,
    ps: Seq<Seq<char>>,
    opts: SearchOptions,
    filters: SearchFilters,
    now: i64,
    f: F,
) -> bool {
    match item {
        Ok(e) => rd.file_record(c[q] as int) is Some && entry_matches(e, rd.file_record(c[q] as int)->0)
            && record_passes(rd.file_record(c[q] as int)->0, ps, opts, filters, now)
            && (opts.existing ==> reported(f, e.full_path@, true)),
        Err(err) => rd.file_record(c[q] as int) is None && err is IndexFormatError,
    }
}

/// The results `items` came, in order, from the candidate positions `qs` in `p0..p1`; every
/// other position in that range holds a readable record that the search passes over
/// (see `skipped`).
pub open spec fn collected<F: Fn(&str) -> bool>(
    rd: IndexReader,
    c: Seq<u32>,
    ps: Seq<Seq<char>>,
    opts: SearchOptions,
    filters: SearchFilters,
    now: i64,
    p0: int,
    p1: int,
    items: Seq<Result<DiskFileEntry, MlocateError>>,
    qs: Seq<int>,
    f: F,
) -> bool {
    &&& qs.len() == items.len()
    &&& forall|i: int| 0 <= i < qs.len() ==> p0 <= #[trigger] qs[i] < p1
    &&& forall|i: int, j: int| 0 <= i < j < qs.len() ==> qs[i] < qs[j]
    &&& forall|i: int| 0 <= i < qs.len() ==> result_at(rd, c, #[trigger] qs[i], items[i], ps, opts, filters, now, f)
    &&& forall|q: int| p0 <= q < p1 && !qs.contains(q) ==> (#[trigger] rd.file_record(c[q] as int)) is Some
        && skipped(rd.file_record(c[q] as int)->0, ps, opts, filters, now, f)
}

/// A copy of the filters.
fn copy_filters(f: &SearchFilters) -> (r: SearchFilters)
    ensures
        r == *f,
{
    let size = match &f.size {
        Some(s) => Some(SizeFilter { bytes: s.bytes, operator: s.operator }),
        None => None,
    };
    let modified = match &f.modified {
        Some(m) => Some(ModifiedFilter { seconds: m.seconds, operator: m.operator }),
        None => None,
    };
    let mime = match &f.mime {
        Some(m) => Some(MimeFilter { pattern: m.pattern.clone(), is_glob: m.is_glob }),
        None => None,
    };
    SearchFilters { size, modified, mime }
}

/// A copy of the patterns.
fn copy_patterns(p: &[String]) -> (r: Vec<String>)
    ensures
        r@ == p@,
{
    let mut r: Vec<String> = Vec::new();
    let mut i: usize = 0;
    while i < p.len()
        invariant
            0 <= i <= p@.len(),
            r@ == p@.subrange(0, i as int),
        decreases p@.len() - i,
    {
        r.push(p[i].clone());
        proof {
            assert(r@ =~= p@.subrange(0, i + 1));
        }
        i = i + 1;
    }
    proof {
        assert(p@.subrange(0, p@.len() as int) =~= p@);
    }
    r
}

/// What starting a search at time `now` gives: the search state, with its candidates
/// (none for an empty index; for a regular-expression search, those `regex_search`
/// keeps; every file when there are no patterns; otherwise the trigram and bigram
/// candidates of the patterns, see `trigram_candidates`), or, for a regular-expression
/// search, the error of a pattern that does not compile or of a path that does not read.
pub open spec fn search_outcome<'a>(
    reader: IndexReader<'a>,
    views: Seq<Seq<char>>,
    options: SearchOptions,
    filters: SearchFilters,
    now: i64,
    r: Result<SearchResults<'a>, MlocateError>,
) -> bool {
    let srcs = regex_sources(views, options.ignore_case);
    &&& (r matches Err(MlocateError::Other(_))) <==> (reader.header.num_files != 0 && options.regex
        && exists|k: int| 0 <= k < views.len() && !regex_compiles(#[trigger] srcs[k], usize::BITS))
    &&& match r {
        Ok(res) => {
            &&& res.wf()
            &&& res.reader_spec() == reader
            &&& res.patterns_spec() == views
            &&& res.options_spec() == options
            &&& res.filters_spec() == filters
            &&& res.now_spec() == now
            &&& res.position_spec() == 0
            &&& res.emitted_spec() == 0
            &&& reader.header.num_files == 0 ==> res.candidates().len() == 0
            &&& (reader.header.num_files != 0 && options.regex) ==> exists|l: Seq<u32>|
                #![trigger regex_scan(reader, srcs, options.basename, options.limit, l)]
                (forall|i: int, j: int| 0 <= i < j < l.len() ==> l[i] < l[j])
                && ((reader.tri_table_ok() && reader.bi_table_ok()) ==> increasing_listing(
                    l,
                    regex_candidates(reader, views),
                ))
                && regex_scan(reader, srcs, options.basename, options.limit, l) is Some
                && scan_kept(regex_scan(reader, srcs, options.basename, options.limit, l)) == res.candidates()
            &&& (reader.header.num_files != 0 && !options.regex && views.len() == 0) ==> increasing_listing(
                res.candidates(),
                reader.all_ids(),
            )
            &&& (reader.header.num_files != 0 && !options.regex && views.len() != 0) ==> (
                (reader.tri_table_ok() && reader.bi_table_ok()) || union_candidates(reader, views) is None) ==> increasing_listing(
                res.candidates(),
                trigram_candidates(reader, views),
            )
        },
        Err(e) => reader.header.num_files != 0 && options.regex && match e {
            MlocateError::Other(_) => regex_failure(views, srcs, e),
            MlocateError::IndexFormatError { .. } => exists|l: Seq<u32>|
                #![trigger regex_scan(reader, srcs, options.basename, options.limit, l)]
                regex_scan(reader, srcs, options.basename, options.limit, l) is None,
            _ => false,
        },
    }
}

/// Starts a search at time `now` (against which modification-time filters are taken);
/// see `search_outcome`.
pub fn search_at<'a>(
    reader: &'a IndexReader<'a>,
    patterns: &[String],
    options: &SearchOptions,
    filters: &SearchFilters,
    now: i64,
) -> (r: Result<SearchResults<'a>, MlocateError>)
    requires
        reader.files_readable(),
    ensures
        search_outcome(*reader, string_views(patterns@), *options, *filters, now, r),
{
    let pats = copy_patterns(patterns);
    let fl = copy_filters(filters);
    if reader.num_files() == 0 {
        return Ok(SearchResults {
            reader,
            candidate_ids: Vec::new(),
            patterns: pats,
            options: *options,
            filters: fl,
            position: 0,
            emitted: 0,
            now,
        });
    }
    let candidate_ids: Vec<u32> = if options.regex {
        match regex_search(reader, patterns, options) {
            Ok(v) => v,
            Err(e) => return Err(e),
        }
    } else if patterns.len() == 0 {
        let all = all_ids_bitmap(reader.num_files() as u32);
        bitmap_values(&all)
    } else {
        let c = trigram_search(reader, patterns);
        bitmap_values(&c)
    };
    Ok(SearchResults {
        reader,
        candidate_ids,
        patterns: pats,
        options: *options,
        filters: fl,
        position: 0,
        emitted: 0,
        now,
    })
}

/// Starts a search as of the current time: what `search_at` gives at the time the clock
/// reads (see `search_outcome`).
pub fn search<'a>(
    reader: &'a IndexReader<'a>,
    patterns: &[String],
    options: &SearchOptions,
    filters: &SearchFilters,
) -> (r: Result<SearchResults<'a>, MlocateError>)
    requires
        reader.files_readable(),
    ensures
        exists|now: i64| #[trigger] search_outcome(*reader, string_views(patterns@), *options, *filters, now, r),
{
    let now = crate::clock::utc_now_timestamp();
    search_at(reader, patterns, options, filters, now)
}

/// Every character takes at least one byte.
pub proof fn lemma_utf8_len_at_least(s: Seq<char>)
    ensures
        utf8_len(s) >= s.len(),
    decreases s.len(),
{
    if s.len() > 0 {
        lemma_utf8_len_at_least(s.drop_first());
        assert(vstd::utf8::encode_utf8(s) == vstd::utf8::encode_scalar(s[0] as u32) + vstd::utf8::encode_utf8(s.drop_first()));
        assert(vstd::utf8::encode_scalar(s[0] as u32).len() >= 1);
    }
}

/// Lower-casing keeps a run of characters inside a text.
proof fn lemma_lower_contains(h: Seq<char>, n: Seq<char>)
    requires
        contains_chars(h, n),
    ensures
        contains_chars(lower_chars(h), lower_chars(n)),
{
    let i = choose|i: int| 0 <= i && i + n.len() <= h.len() && #[trigger] h.subrange(i, i + n.len()) == n;
    assert(lower_chars(h).subrange(i, i + n.len()) =~= lower_chars(n));
}

/// A run inside a run inside a text is inside the text.
proof fn lemma_contains_trans(h: Seq<char>, m: Seq<char>, n: Seq<char>)
    requires
        contains_chars(h, m),
        contains_chars(m, n),
    ensures
        contains_chars(h, n),
{
    let i = choose|i: int| 0 <= i && i + m.len() <= h.len() && #[trigger] h.subrange(i, i + m.len()) == m;
    let k = choose|k: int| 0 <= k && k + n.len() <= m.len() && #[trigger] m.subrange(k, k + n.len()) == n;
    assert(h.subrange(i + k, i + k + n.len()) =~= n);
}

/// A path with a `/` has a last one.
proof fn lemma_last_slash(path: Seq<char>)
    requires
        exists|i: int| 0 <= i < path.len() && path[i] == '/',
    ensures
        exists|k: int| 0 <= k < path.len() && path[k] == '/' && forall|j: int| k < j < path.len() ==> path[j] != '/',
    decreases path.len(),
{
    if path.last() == '/' {
        let k = path.len() - 1;
        assert(path[k] == '/' && forall|j: int| k < j < path.len() ==> path[j] != '/');
    } else {
        let init = path.drop_last();
        let i = choose|i: int| 0 <= i < path.len() && path[i] == '/';
        assert(init[i] == '/');
        lemma_last_slash(init);
        let k = choose|k: int| 0 <= k < init.len() && init[k] == '/' && forall|j: int| k < j < init.len() ==> init[j] != '/';
        assert(path[k] == '/' && forall|j: int| k < j < path.len() ==> path[j] != '/') by {
            assert forall|j: int| k < j < path.len() implies path[j] != '/' by {
                if j < init.len() {
                    assert(init[j] != '/');
                }
            }
        }
    }
}

/// What follows the last `/` of a path is inside the path.
proof fn lemma_basename_inside(path: Seq<char>)
    ensures
        contains_chars(path, after_last_slash(path)),
{
    if exists|i: int| 0 <= i < path.len() && path[i] == '/' {
        lemma_last_slash(path);
        let k = choose|k: int| 0 <= k < path.len() && path[k] == '/' && forall|j: int| k < j < path.len() ==> path[j] != '/';
        let t = after_last_slash(path);
        assert(path.subrange(k + 1, k + 1 + t.len()) =~= t);
    } else {
        assert(path.subrange(0int, 0int + path.len()) =~= path);
    }
}

/// The file's lower-cased path has all its trigrams recorded for file `d`.
pub open spec fn path_indexed(rd: IndexReader, path: Seq<char>, d: u32) -> bool {
    forall|t: Seq<char>|
        trigram_set(lower_chars(path), utf8_len(lower_chars(path))).contains(t) ==> #[trigger] rd.tri_docs(key3(t)).contains(d)
}

/// A pattern of three or more characters that matches a file's path has the file among
/// its trigram candidates, when every trigram of the file's lower-cased path is recorded
/// for it: the trigram lookups never miss a match.
pub proof fn lemma_pattern_candidates_complete(rd: IndexReader, path: Seq<char>, d: u32, p: Seq<char>, opts: SearchOptions)
    requires
        path_indexed(rd, path, d),
        p.len() >= 3,
        path_matches_spec(path, p, opts),
    ensures
        pattern_candidates(rd, p) is Some,
        pattern_candidates(rd, p)->0.contains(d),
{
    let lp = lower_chars(p);
    let lpath = lower_chars(path);
    let target = match_target(path, opts.basename);
    // the lower-cased pattern occurs in the lower-cased path
    assert(contains_chars(lpath, lp)) by {
        if opts.basename {
            lemma_basename_inside(path);
            lemma_lower_contains(path, target);
        } else {
            assert(lpath.subrange(0int, 0int + lpath.len()) =~= lpath);
        }
        if !opts.ignore_case {
            lemma_lower_contains(target, p);
        }
        lemma_contains_trans(lpath, lower_chars(target), lp);
    }
    lemma_utf8_len_at_least(p);
    lemma_utf8_len_at_least(lp);
    lemma_utf8_len_at_least(lpath);
    let k = choose|k: int| 0 <= k && k + lp.len() <= lpath.len() && #[trigger] lpath.subrange(k, k + lp.len()) == lp;
    let ts = trigram_set(lp, utf8_len(lp));
    assert(ts == crate::index::trigram::windows(lp, 3));
    assert(trigram_set(lpath, utf8_len(lpath)) == crate::index::trigram::windows(lpath, 3));
    assert(ts.contains(lp.subrange(0int, 0int + 3)));
    assert forall|t: Seq<char>| ts.contains(t) implies #[trigger] rd.tri_docs(key3(t)).contains(d) by {
        let i = choose|i: int| 0 <= i && i + 3 <= lp.len() && t == #[trigger] lp.subrange(i, i + 3);
        assert(lpath.subrange(k + i, k + i + 3) =~= t);
        assert(trigram_set(lpath, utf8_len(lpath)).contains(t));
    }
}

/// A file among the candidates of one of the patterns is among the candidates of all,
/// unless some pattern lets every file through.
pub proof fn lemma_union_contains(rd: IndexReader, ps: Seq<Seq<char>>, i: int, d: u32)
    requires
        0 <= i < ps.len(),
        pattern_candidates(rd, ps[i]) is Some ==> pattern_candidates(rd, ps[i])->0.contains(d),
    ensures
        union_candidates(rd, ps) matches Some(u) ==> u.contains(d),
    decreases ps.len(),
{
    if i < ps.len() - 1 {
        lemma_union_contains(rd, ps.drop_last(), i, d);
    }
}

/// Every bigram of the lower-cased `path` has `d` among its documents.
pub open spec fn path_bi_indexed(rd: IndexReader, path: Seq<char>, d: u32) -> bool {
    forall|t: Seq<char>| bigram_set(lower_chars(path)).contains(t) ==> #[trigger] rd.bi_docs(key2(t)).contains(d)
}

/// The lower-cased pattern occurs in the lower-cased path of a file it matches.
proof fn lemma_match_lower(path: Seq<char>, p: Seq<char>, opts: SearchOptions)
    requires
        path_matches_spec(path, p, opts),
    ensures
        contains_chars(lower_chars(path), lower_chars(p)),
{
    let lpath = lower_chars(path);
    let target = match_target(path, opts.basename);
    if opts.basename {
        lemma_basename_inside(path);
        lemma_lower_contains(path, target);
    } else {
        assert(lpath.subrange(0int, 0int + lpath.len()) =~= lpath);
    }
    if !opts.ignore_case {
        lemma_lower_contains(target, p);
    }
    lemma_contains_trans(lpath, lower_chars(target), lower_chars(p));
}

/// A two-character pattern of two bytes that matches a file's path has the file among its
/// bigram candidates, when every bigram of the file's lower-cased path is recorded for it.
pub proof fn lemma_bigram_pattern_complete(rd: IndexReader, path: Seq<char>, d: u32, p: Seq<char>, opts: SearchOptions)
    requires
        path_bi_indexed(rd, path, d),
        p.len() == 2,
        utf8_len(p) == 2,
        path_matches_spec(path, p, opts),
    ensures
        pattern_candidates(rd, p) is Some,
        pattern_candidates(rd, p)->0.contains(d),
{
    let lp = lower_chars(p);
    let lpath = lower_chars(path);
    lemma_match_lower(path, p, opts);
    let k = choose|k: int| 0 <= k && k + lp.len() <= lpath.len() && #[trigger] lpath.subrange(k, k + lp.len()) == lp;
    let bs = bigram_set(lp);
    assert(lp.len() == 2);
    assert(lp.subrange(0int, 0int + 2) =~= lp);
    assert(crate::index::trigram::windows(lp, 2).contains(lp));
    assert(bs == crate::index::trigram::windows(lp, 2));
    assert(bs.contains(lp));
    assert forall|t: Seq<char>| bs.contains(t) implies #[trigger] rd.bi_docs(key2(t)).contains(d) by {
        let i = choose|i: int| 0 <= i && i + 2 <= lp.len() && t == #[trigger] lp.subrange(i, i + 2);
        assert(i == 0);
        assert(t == lp);
        assert(lpath.len() >= 2);
        assert(crate::index::trigram::windows(lpath, 2).contains(lp));
        assert(bigram_set(lpath).contains(t));
    }
}

/// A pattern that matches a file's path lets the file through its candidates, when every
/// trigram and bigram of the file's lower-cased path is recorded for it and the pattern
/// has three or more characters or no character of more than one byte.
pub proof fn lemma_pattern_complete(rd: IndexReader, path: Seq<char>, d: u32, p: Seq<char>, opts: SearchOptions)
    requires
        path_indexed(rd, path, d),
        path_bi_indexed(rd, path, d),
        path_matches_spec(path, p, opts),
        p.len() >= 3 || utf8_len(p) == p.len(),
    ensures
        pattern_candidates(rd, p) matches Some(s) ==> s.contains(d),
{
    if p.len() >= 3 {
        lemma_pattern_candidates_complete(rd, path, d, p, opts);
    } else if utf8_len(p) == 2 {
        lemma_bigram_pattern_complete(rd, path, d, p, opts);
    }
}

/// A plain search misses no file: its candidates include every file that one of its
/// patterns matches, when every trigram and bigram of the file's lower-cased path is
/// recorded for it and that pattern has three or more characters or no character of more
/// than one byte.
pub proof fn lemma_search_candidates_complete(rd: IndexReader, path: Seq<char>, d: u32, ps: Seq<Seq<char>>, i: int, opts: SearchOptions)
    requires
        path_indexed(rd, path, d),
        path_bi_indexed(rd, path, d),
        0 <= i < ps.len(),
        path_matches_spec(path, ps[i], opts),
        ps[i].len() >= 3 || utf8_len(ps[i]) == ps[i].len(),
        d < rd.header.num_files,
        rd.header.num_files <= u32::MAX,
    ensures
        trigram_candidates(rd, ps).contains(d),
{
    lemma_pattern_complete(rd, path, d, ps[i], opts);
    lemma_union_contains(rd, ps, i, d);
    assert(rd.all_ids().contains(d));
}


/// Keeping only literals no earlier kept one contains leaves no kept literal inside one
/// kept before it, and every literal inside some kept one.
pub proof fn lemma_drop_contained(v: Seq<Seq<char>>)
    ensures
        forall|i: int, j: int|
            0 <= i < j < drop_contained(v).len() ==> !contains_chars(
                #[trigger] drop_contained(v)[i],
                #[trigger] drop_contained(v)[j],
            ),
        forall|x: int| #![trigger v[x]] 0 <= x < v.len() ==> exists|k: int|
            0 <= k < drop_contained(v).len() && contains_chars(#[trigger] drop_contained(v)[k], v[x]),
    decreases v.len(),
{
    if v.len() > 0 {
        let w = v.drop_last();
        lemma_drop_contained(w);
        let r = drop_contained(w);
        let rr = drop_contained(v);
        assert forall|x: int| #![trigger v[x]] 0 <= x < v.len() implies exists|k: int|
            0 <= k < rr.len() && contains_chars(#[trigger] rr[k], v[x]) by {
            if x < v.len() - 1 {
                assert(v[x] == w[x]);
                let k = choose|k: int| 0 <= k < r.len() && contains_chars(#[trigger] r[k], w[x]);
                assert(rr[k] == r[k]);
            } else if exists|k: int| 0 <= k < r.len() && contains_chars(#[trigger] r[k], v.last()) {
                let k = choose|k: int| 0 <= k < r.len() && contains_chars(#[trigger] r[k], v.last());
                assert(rr[k] == r[k]);
            } else {
                assert(rr[r.len() as int] == v.last());
                assert(v[x] == v.last());
                assert(v.last().subrange(0int, 0int + v.last().len()) =~= v.last());
                assert(contains_chars(rr[r.len() as int], v[x]));
            }
        }
    }
}

/// The UTF-8 length of a concatenation is the sum of the lengths.
proof fn lemma_utf8_len_concat(x: Seq<char>, y: Seq<char>)
    ensures
        utf8_len(x + y) == utf8_len(x) + utf8_len(y),
    decreases x.len(),
{
    if x.len() == 0 {
        assert(x + y =~= y);
    } else {
        lemma_utf8_len_concat(x.drop_first(), y);
        assert((x + y).drop_first() =~= x.drop_first() + y);
        assert((x + y)[0] == x[0]);
        assert(vstd::utf8::encode_utf8(x + y) == vstd::utf8::encode_scalar((x + y)[0] as u32) + vstd::utf8::encode_utf8((x + y).drop_first()));
        assert(vstd::utf8::encode_utf8(x) == vstd::utf8::encode_scalar(x[0] as u32) + vstd::utf8::encode_utf8(x.drop_first()));
    }
}

/// A run inside a text is no longer than the text in bytes, and one as long is the text.
proof fn lemma_contained_len(h: Seq<char>, n: Seq<char>)
    requires
        contains_chars(h, n),
    ensures
        utf8_len(n) <= utf8_len(h),
        utf8_len(n) == utf8_len(h) ==> n == h,
{
    let a = choose|a: int| 0 <= a && a + n.len() <= h.len() && #[trigger] h.subrange(a, a + n.len()) == n;
    let pre = h.subrange(0, a);
    let post = h.subrange(a + n.len(), h.len() as int);
    assert(h =~= pre + n + post);
    lemma_utf8_len_concat(pre, n);
    lemma_utf8_len_concat(pre + n, post);
    lemma_utf8_len_at_least(pre);
    lemma_utf8_len_at_least(post);
    if utf8_len(n) == utf8_len(h) {
        assert(pre.len() == 0 && post.len() == 0);
        assert(h =~= n);
    }
}

/// Every text contains itself.
proof fn lemma_contains_self(s: Seq<char>)
    ensures
        contains_chars(s, s),
{
    assert(s.subrange(0int, 0int + s.len()) =~= s);
}

/// A length bucket holds, in order, exactly the members of `v` of that length.
proof fn lemma_length_bucket(v: Seq<Seq<char>>, len: int)
    ensures
        forall|i: int| 0 <= i < length_bucket(v, len).len() ==> v.contains(#[trigger] length_bucket(v, len)[i])
            && utf8_len(length_bucket(v, len)[i]) == len,
        forall|x: int| 0 <= x < v.len() && utf8_len(#[trigger] v[x]) == len ==> length_bucket(v, len).contains(v[x]),
    decreases v.len(),
{
    if v.len() > 0 {
        let w = v.drop_last();
        lemma_length_bucket(w, len);
        let b = length_bucket(w, len);
        assert forall|i: int| 0 <= i < length_bucket(v, len).len() implies v.contains(#[trigger] length_bucket(v, len)[i])
            && utf8_len(length_bucket(v, len)[i]) == len by {
            if i < b.len() {
                assert(length_bucket(v, len)[i] == b[i]);
                let y = b[i];
                assert(w.contains(y));
                let q = choose|q: int| 0 <= q < w.len() && w[q] == y;
                assert(v[q] == y);
            } else {
                assert(v[v.len() - 1] == v.last());
            }
        }
        assert forall|x: int| 0 <= x < v.len() && utf8_len(#[trigger] v[x]) == len implies length_bucket(v, len).contains(v[x]) by {
            if x < v.len() - 1 {
                assert(w[x] == v[x]);
                let q = choose|q: int| 0 <= q < b.len() && b[q] == w[x];
                if utf8_len(v.last()) == len {
                    assert(length_bucket(v, len)[q] == b[q]);
                } else {
                    assert(length_bucket(v, len)[q] == b[q]);
                }
            } else {
                assert(length_bucket(v, len).last() == v.last());
            }
        }
    }
}

/// The buckets from `hi` down to `lo` hold members of `v` of those lengths, longest
/// first, and every member whose length is in that range.
proof fn lemma_by_length_desc(v: Seq<Seq<char>>, hi: int, lo: int)
    ensures
        forall|i: int| 0 <= i < by_length_desc(v, hi, lo).len() ==> v.contains(#[trigger] by_length_desc(v, hi, lo)[i])
            && lo <= utf8_len(by_length_desc(v, hi, lo)[i]) <= hi,
        forall|i: int, j: int| 0 <= i < j < by_length_desc(v, hi, lo).len() ==> utf8_len(
            #[trigger] by_length_desc(v, hi, lo)[i],
        ) >= utf8_len(#[trigger] by_length_desc(v, hi, lo)[j]),
        forall|x: int| 0 <= x < v.len() && lo <= utf8_len(#[trigger] v[x]) <= hi ==> by_length_desc(v, hi, lo).contains(v[x]),
    decreases hi - lo + 1,
{
    if hi >= lo {
        lemma_by_length_desc(v, hi - 1, lo);
        lemma_length_bucket(v, hi);
        let b = length_bucket(v, hi);
        let rest = by_length_desc(v, hi - 1, lo);
        let r = by_length_desc(v, hi, lo);
        assert(r == b + rest);
        assert forall|i: int| 0 <= i < r.len() implies v.contains(#[trigger] r[i]) && lo <= utf8_len(r[i]) <= hi by {
            if i < b.len() {
                assert(r[i] == b[i]);
            } else {
                assert(r[i] == rest[i - b.len()]);
            }
        }
        assert forall|i: int, j: int| 0 <= i < j < r.len() implies utf8_len(#[trigger] r[i]) >= utf8_len(#[trigger] r[j]) by {
            if j < b.len() {
                assert(r[i] == b[i] && r[j] == b[j]);
            } else if i < b.len() {
                assert(r[i] == b[i] && r[j] == rest[j - b.len()]);
            } else {
                assert(r[i] == rest[i - b.len()] && r[j] == rest[j - b.len()]);
            }
        }
        assert forall|x: int| 0 <= x < v.len() && lo <= utf8_len(#[trigger] v[x]) <= hi implies r.contains(v[x]) by {
            if utf8_len(v[x]) == hi {
                let q = choose|q: int| 0 <= q < b.len() && b[q] == v[x];
                assert(r[q] == b[q]);
            } else {
                let q = choose|q: int| 0 <= q < rest.len() && rest[q] == v[x];
                assert(r[b.len() + q] == rest[q]);
            }
        }
    }
}

/// Keeping the literals no earlier kept one contains keeps members of `v` in their order,
/// so a list sorted by decreasing length stays sorted.
proof fn lemma_drop_contained_sorted(v: Seq<Seq<char>>)
    requires
        forall|i: int, j: int| 0 <= i < j < v.len() ==> utf8_len(#[trigger] v[i]) >= utf8_len(#[trigger] v[j]),
    ensures
        forall|k: int| 0 <= k < drop_contained(v).len() ==> exists|a: int| 0 <= a < v.len() && v[a] == #[trigger] drop_contained(v)[k],
        forall|i: int, j: int| 0 <= i < j < drop_contained(v).len() ==> utf8_len(#[trigger] drop_contained(v)[i])
            >= utf8_len(#[trigger] drop_contained(v)[j]),
    decreases v.len(),
{
    if v.len() > 0 {
        let w = v.drop_last();
        assert forall|i: int, j: int| 0 <= i < j < w.len() implies utf8_len(#[trigger] w[i]) >= utf8_len(#[trigger] w[j]) by {
            assert(w[i] == v[i] && w[j] == v[j]);
        }
        lemma_drop_contained_sorted(w);
        let r = drop_contained(w);
        let rr = drop_contained(v);
        assert forall|k: int| 0 <= k < rr.len() implies exists|a: int| 0 <= a < v.len() && v[a] == #[trigger] rr[k] by {
            if k < r.len() {
                assert(rr[k] == r[k]);
                let a = choose|a: int| 0 <= a < w.len() && w[a] == r[k];
                assert(v[a] == w[a]);
            } else {
                assert(rr[k] == v[v.len() - 1]);
            }
        }
        assert forall|i: int, j: int| 0 <= i < j < rr.len() implies utf8_len(#[trigger] rr[i]) >= utf8_len(#[trigger] rr[j]) by {
            assert(rr[i] == r[i]);
            if j < r.len() {
                assert(rr[j] == r[j]);
            } else {
                let a = choose|a: int| 0 <= a < w.len() && w[a] == r[i];
                assert(v[a] == w[a]);
                assert(rr[j] == v[v.len() - 1]);
            }
        }
    }
}

/// Every run counted by `max_len` is at most that long.
proof fn lemma_max_len(v: Seq<Seq<char>>)
    ensures
        max_len(v) >= 0,
        forall|x: int| 0 <= x < v.len() ==> utf8_len(#[trigger] v[x]) <= max_len(v),
    decreases v.len(),
{
    if v.len() > 0 {
        lemma_max_len(v.drop_last());
        assert forall|x: int| 0 <= x < v.len() implies utf8_len(#[trigger] v[x]) <= max_len(v) by {
            if x < v.len() - 1 {
                assert(v.drop_last()[x] == v[x]);
            }
        }
    }
}

/// The literals of a pattern: each is one of its runs of ordinary characters of two bytes
/// or more; they come longest first; none lies inside another; and every run lies inside
/// one of them.
pub proof fn lemma_regex_literals(p: Seq<char>)
    ensures
        forall|k: int| 0 <= k < regex_literals(p).len() ==> raw_literals(p).contains(#[trigger] regex_literals(p)[k]),
        forall|i: int, j: int| 0 <= i < j < regex_literals(p).len() ==> utf8_len(#[trigger] regex_literals(p)[i])
            >= utf8_len(#[trigger] regex_literals(p)[j]),
        forall|i: int, j: int|
            0 <= i < regex_literals(p).len() && 0 <= j < regex_literals(p).len() && i != j ==> !contains_chars(
                #[trigger] regex_literals(p)[i],
                #[trigger] regex_literals(p)[j],
            ),
        forall|x: int| #![trigger raw_literals(p)[x]] 0 <= x < raw_literals(p).len() ==> exists|k: int|
            0 <= k < regex_literals(p).len() && contains_chars(#[trigger] regex_literals(p)[k], raw_literals(p)[x]),
{
    let raw = raw_literals(p);
    let sorted = by_length_desc(raw, max_len(raw), 0);
    let r = regex_literals(p);
    lemma_by_length_desc(raw, max_len(raw), 0);
    lemma_drop_contained(sorted);
    lemma_drop_contained_sorted(sorted);
    lemma_max_len(raw);
    assert forall|k: int| 0 <= k < r.len() implies raw.contains(#[trigger] r[k]) by {
        let a = choose|a: int| 0 <= a < sorted.len() && sorted[a] == r[k];
        assert(raw.contains(sorted[a]));
    }
    assert forall|i: int, j: int|
        0 <= i < r.len() && 0 <= j < r.len() && i != j implies !contains_chars(#[trigger] r[i], #[trigger] r[j]) by {
        if i < j {
        } else if contains_chars(r[i], r[j]) {
            // a later literal holding an earlier one is no shorter, so as long, so equal
            lemma_contained_len(r[i], r[j]);
            assert(utf8_len(r[j]) >= utf8_len(r[i]));
            assert(r[i] == r[j]);
            lemma_contains_self(r[j]);
        }
    }
    assert forall|x: int| #![trigger raw[x]] 0 <= x < raw.len() implies exists|k: int|
        0 <= k < r.len() && contains_chars(#[trigger] r[k], raw[x]) by {
        assert(0 <= utf8_len(raw[x]) <= max_len(raw)) by {
            lemma_utf8_len_at_least(raw[x]);
        }
        assert(sorted.contains(raw[x]));
        let y = choose|y: int| 0 <= y < sorted.len() && sorted[y] == raw[x];
        assert(sorted[y] == raw[x]);
    }
}


/// Lower-casing keeps every `/` and makes none, so what follows the last `/` of the
/// lower-cased path is the lower-cased text after the last `/` of the path.
proof fn lemma_lower_after_last_slash(path: Seq<char>)
    ensures
        after_last_slash(lower_chars(path)) == lower_chars(after_last_slash(path)),
{
    let lp = lower_chars(path);
    assert forall|i: int| 0 <= i < path.len() implies (#[trigger] lp[i] == '/') == (path[i] == '/') by {
        let c = path[i];
        if 'A' <= c && c <= 'Z' {
            assert((c as u32) + 32 >= 97);
            assert(((c as u32) + 32) as char != '/');
        }
    }
    if exists|i: int| 0 <= i < path.len() && path[i] == '/' {
        let i0 = choose|i: int| 0 <= i < path.len() && path[i] == '/';
        assert(lp[i0] == '/');
        lemma_last_slash(path);
        lemma_last_slash(lp);
        let k = choose|k: int| 0 <= k < path.len() && path[k] == '/' && forall|j: int| k < j < path.len() ==> path[j] != '/';
        let k2 = choose|k: int| 0 <= k < lp.len() && lp[k] == '/' && forall|j: int| k < j < lp.len() ==> lp[j] != '/';
        if k < k2 {
            assert(path[k2] == '/');
        }
        if k2 < k {
            assert(lp[k] == '/');
        }
        assert(lp.subrange(k + 1, lp.len() as int) =~= lower_chars(path.subrange(k + 1, path.len() as int)));
    } else {
        assert(!exists|i: int| 0 <= i < lp.len() && lp[i] == '/') by {
            if exists|i: int| 0 <= i < lp.len() && lp[i] == '/' {
                let i = choose|i: int| 0 <= i < lp.len() && lp[i] == '/';
                assert(path[i] == '/');
            }
        }
    }
}

/// Ignoring case is matching the ASCII lower-cased path against the lower-cased pattern
/// with case respected, in base-name mode as in whole-path mode.
pub proof fn lemma_ignore_case_matches_lowered(path: Seq<char>, pattern: Seq<char>, opts: SearchOptions)
    requires
        opts.ignore_case,
    ensures
        path_matches_spec(path, pattern, opts) == path_matches_spec(
            lower_chars(path),
            lower_chars(pattern),
            (SearchOptions {
                ignore_case: false,
                basename: opts.basename,
                regex: opts.regex,
                existing: opts.existing,
                limit: opts.limit,
            }),
        ),
{
    lemma_lower_after_last_slash(path);
}

/// In base-name mode a pattern matches a path exactly when it matches, in whole-path
/// mode, the text after the path's last `/`; whole-path matching with case respected is
/// the pattern occurring in the path.
pub proof fn lemma_basename_matches_last_component(path: Seq<char>, pattern: Seq<char>, opts: SearchOptions)
    ensures
        opts.basename ==> path_matches_spec(path, pattern, opts) == path_matches_spec(
            after_last_slash(path),
            pattern,
            (SearchOptions {
                ignore_case: opts.ignore_case,
                basename: false,
                regex: opts.regex,
                existing: opts.existing,
                limit: opts.limit,
            }),
        ),
        (!opts.basename && !opts.ignore_case) ==> (path_matches_spec(path, pattern, opts) <==> contains_chars(path, pattern)),
{
}

/// Each comparison operator means what it says: `Eq` equal, `Ge` at least, `Le` at most.
pub proof fn lemma_op_meaning(a: int, b: int)
    ensures
        op_holds(CmpOp::Eq, a, b) <==> a == b,
        op_holds(CmpOp::Ge, a, b) <==> a >= b,
        op_holds(CmpOp::Le, a, b) <==> a <= b,
{
}

/// A size filter alone keeps a file exactly when its size is at most (`Le`), at least
/// (`Ge`) or exactly (`Eq`) the filter's byte count; a modification filter alone keeps it
/// exactly when its mtime is at or before (`Le`), at or after (`Ge`) or at (`Eq`) the
/// cutoff, `now` less the filter's seconds.
pub proof fn lemma_filter_comparisons(size: u64, mtime: i64, mime: Seq<char>, sf: SizeFilter, mf: ModifiedFilter, now: i64)
    ensures
        ({
            let f = SearchFilters { size: Some(sf), modified: None, mime: None };
            &&& sf.operator is Le ==> (filters_pass(size, mtime, mime, f, now) <==> size <= sf.bytes)
            &&& sf.operator is Ge ==> (filters_pass(size, mtime, mime, f, now) <==> size >= sf.bytes)
            &&& sf.operator is Eq ==> (filters_pass(size, mtime, mime, f, now) <==> size == sf.bytes)
        }),
        ({
            let f = SearchFilters { size: None, modified: Some(mf), mime: None };
            &&& mf.operator is Le ==> (filters_pass(size, mtime, mime, f, now) <==> mtime <= now - mf.seconds)
            &&& mf.operator is Ge ==> (filters_pass(size, mtime, mime, f, now) <==> mtime >= now - mf.seconds)
            &&& mf.operator is Eq ==> (filters_pass(size, mtime, mime, f, now) <==> mtime == now - mf.seconds)
        }),
{
}

/// Whether some expression accepts the text of file `d`'s path: in base-name mode what
/// follows the path's last `/`, else the whole path.
pub open spec fn scan_accepts(rd: IndexReader, srcs: Seq<Seq<char>>, basename: bool) -> spec_fn(u32) -> bool {
    |d: u32|
        any_accepts(
            srcs,
            if basename {
                after_last_slash(path_only(rd, d as int)->0)
            } else {
                path_only(rd, d as int)->0
            },
        )
}

/// `n` kept files reach the limit.
pub open spec fn limit_reached(limit: Option<usize>, n: int) -> bool {
    match limit {
        Some(l) => n >= l,
        None => false,
    }
}

/// With no limit, a scan that reads every path keeps exactly the candidates, in their
/// order, whose text some expression accepts (see `scan_accepts`: in base-name mode what
/// follows the path's last `/`). It never stops early.
pub proof fn lemma_regex_scan_keeps_accepted(rd: IndexReader, srcs: Seq<Seq<char>>, basename: bool, cands: Seq<u32>)
    ensures
        regex_scan(rd, srcs, basename, None, cands) matches Some(st) ==> !st.1 && st.0 == cands.filter(
            scan_accepts(rd, srcs, basename),
        ),
    decreases cands.len(),
{
    reveal(Seq::filter);
    if cands.len() > 0 {
        lemma_regex_scan_keeps_accepted(rd, srcs, basename, cands.drop_last());
    }
}

/// Whatever the limit, a scan that succeeds has read the paths of a prefix of the
/// candidates and kept, in order, those of them whose text some expression accepts. It
/// reads to the end unless the limit is reached, and it stops right after the first
/// candidate that brings the number kept up to the limit.
pub proof fn lemma_regex_scan_limit(
    rd: IndexReader,
    srcs: Seq<Seq<char>>,
    basename: bool,
    limit: Option<usize>,
    cands: Seq<u32>,
)
    ensures
        regex_scan(rd, srcs, basename, limit, cands) matches Some(st) ==> exists|m: int|
            #![trigger cands.take(m)]
            {
                &&& 0 <= m <= cands.len()
                &&& forall|i: int| 0 <= i < m ==> path_only(rd, #[trigger] cands[i] as int) is Some
                &&& st.0 == cands.take(m).filter(scan_accepts(rd, srcs, basename))
                &&& !st.1 ==> m == cands.len()
                &&& st.1 <==> (m > 0 && limit_reached(limit, st.0.len() as int))
                &&& forall|q: int|
                    0 < q < m ==> !limit_reached(limit, #[trigger] cands.take(q).filter(scan_accepts(rd, srcs, basename)).len() as int)
            },
    decreases cands.len(),
{
    reveal(Seq::filter);
    let pred = scan_accepts(rd, srcs, basename);
    if cands.len() == 0 {
        if let Some(st) = regex_scan(rd, srcs, basename, limit, cands) {
            assert(cands.take(0) =~= cands);
            assert(cands.take(0).filter(pred) =~= Seq::<u32>::empty());
        }
    } else {
        let init = cands.drop_last();
        lemma_regex_scan_limit(rd, srcs, basename, limit, init);
        if let Some(st) = regex_scan(rd, srcs, basename, limit, cands) {
            let prev = regex_scan(rd, srcs, basename, limit, init)->0;
            let m0 = choose|m: int|
                #![trigger init.take(m)]
                {
                    &&& 0 <= m <= init.len()
                    &&& forall|i: int| 0 <= i < m ==> path_only(rd, #[trigger] init[i] as int) is Some
                    &&& prev.0 == init.take(m).filter(pred)
                    &&& !prev.1 ==> m == init.len()
                    &&& prev.1 <==> (m > 0 && limit_reached(limit, prev.0.len() as int))
                    &&& forall|q: int|
                        0 < q < m ==> !limit_reached(limit, #[trigger] init.take(q).filter(pred).len() as int)
                };
            assert forall|q: int| 0 <= q <= init.len() implies #[trigger] cands.take(q) == init.take(q) by {
                assert(cands.take(q) =~= init.take(q));
            }
            if prev.1 {
                assert(st == prev);
                assert(cands.take(m0) == init.take(m0));
                assert forall|i: int| 0 <= i < m0 implies path_only(rd, #[trigger] cands[i] as int) is Some by {
                    assert(cands[i] == init[i]);
                }
                assert forall|q: int| 0 < q < m0 implies !limit_reached(limit, #[trigger] cands.take(q).filter(pred).len() as int) by {
                    assert(cands.take(q) == init.take(q));
                }
            } else {
                let m = cands.len() as int;
                assert(m0 == init.len());
                assert(cands.take(m) =~= cands);
                assert(cands.take(m).drop_last() =~= init.take(m0));
                assert(cands.take(m).last() == cands.last());
                assert forall|i: int| 0 <= i < m implies path_only(rd, #[trigger] cands[i] as int) is Some by {
                    if i < m0 {
                        assert(cands[i] == init[i]);
                    }
                }
                assert forall|q: int| 0 < q < m implies !limit_reached(limit, #[trigger] cands.take(q).filter(pred).len() as int) by {
                    assert(cands.take(q) == init.take(q));
                    if q == m0 {
                        assert(init.take(m0).filter(pred) == prev.0);
                    }
                }
            }
        }
    }
}

/// Whatever the limit, each file a scan keeps is one of the candidates, its path reads,
/// and some expression accepts its text: in base-name mode what follows the path's last
/// `/`, else the whole path.
pub proof fn lemma_regex_scan_kept_accepted(
    rd: IndexReader,
    srcs: Seq<Seq<char>>,
    basename: bool,
    limit: Option<usize>,
    cands: Seq<u32>,
)
    ensures
        regex_scan(rd, srcs, basename, limit, cands) matches Some(st) ==> forall|i: int|
            0 <= i < st.0.len() ==> {
                &&& cands.contains(#[trigger] st.0[i])
                &&& path_only(rd, st.0[i] as int) is Some
                &&& any_accepts(
                    srcs,
                    if basename {
                        after_last_slash(path_only(rd, st.0[i] as int)->0)
                    } else {
                        path_only(rd, st.0[i] as int)->0
                    },
                )
            },
    decreases cands.len(),
{
    if cands.len() > 0 {
        let init = cands.drop_last();
        lemma_regex_scan_kept_accepted(rd, srcs, basename, limit, init);
        if let Some(st) = regex_scan(rd, srcs, basename, limit, cands) {
            let prev = regex_scan(rd, srcs, basename, limit, init)->0;
            assert forall|i: int| 0 <= i < st.0.len() implies cands.contains(#[trigger] st.0[i]) by {
                if i < prev.0.len() {
                    assert(st.0[i] == prev.0[i]);
                    let x = choose|x: int| 0 <= x < init.len() && init[x] == prev.0[i];
                    assert(cands[x] == init[x]);
                } else {
                    assert(st.0[i] == cands.last());
                    assert(cands[cands.len() - 1] == cands.last());
                }
            }
        }
    }
}

} // verus!
