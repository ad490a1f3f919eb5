//! Runs of entries sorted by path: sorting a buffer into a run, dropping repeated
//! paths, and merging runs into one sequence.
use vstd::prelude::*;
use vstd::multiset::Multiset;
use vstd::bytes::*;
use crate::codec::utf8_lossy;
use crate::index::builder::{ChunkEntry, entry_record};
use crate::index::header::{push_u32, push_u64, push_bytes, read_u32_at, u32_at, u64_at};
use crate::index::layout::{FileRecord, record_bytes, record_fits, record_pieces, file_dir_bytes, concat, lemma_concat_push};
use crate::index::reader::{IndexReader, parse_record};
use crate::index::layout::{bytes_lt, compare_bytes, lemma_bytes_lt_transitive, lemma_bytes_lt_irreflexive, lemma_bytes_lt_asymmetric, lemma_bytes_lt_total};

verus! {

broadcast use vstd::string::group_string_axioms;

/// The sort key of an entry: the UTF-8 bytes of its path.
pub open spec fn ekey(e: ChunkEntry) -> Seq<u8> {
    vstd::utf8::encode_utf8(e.path@)
}

/// The key of the entry at position `r[a]`.
pub open spec fn key_at(es: Seq<ChunkEntry>, r: Seq<usize>, a: int) -> Seq<u8> {
    ekey(es[r[a] as int])
}

/// Position `i` holds the first entry with its path among positions `lo..=i`.
pub open spec fn first_from(es: Seq<ChunkEntry>, lo: int, i: int) -> bool {
    forall|j: int| lo <= j < i ==> #[trigger] ekey(es[j]) != ekey(es[i])
}

/// Some position listed in `r` holds an entry with key `k`.
pub open spec fn listed(es: Seq<ChunkEntry>, r: Seq<usize>, k: Seq<u8>) -> bool {
    exists|x: int| 0 <= x < r.len() && #[trigger] key_at(es, r, x) == k
}

/// Some position listed in `r` holds an entry with the path of `es[i]`.
pub open spec fn covered(es: Seq<ChunkEntry>, r: Seq<usize>, i: int) -> bool {
    exists|a: int| 0 <= a < r.len() && #[trigger] key_at(es, r, a) == ekey(es[i])
}

/// `r` lists positions of `lo..hi` in strictly increasing order of their keys, each the
/// first position of its path in the range, and every path of the range is listed.
pub open spec fn range_index(es: Seq<ChunkEntry>, lo: int, hi: int, r: Seq<usize>) -> bool {
    &&& forall|a: int, b: int| 0 <= a < b < r.len() ==> bytes_lt(#[trigger] key_at(es, r, a), #[trigger] key_at(es, r, b))
    &&& forall|a: int| 0 <= a < r.len() ==> lo <= #[trigger] r[a] < hi && first_from(es, lo, r[a] as int)
    &&& forall|i: int| lo <= i < hi ==> #[trigger] covered(es, r, i)
}

/// Merges the listings of two adjacent ranges: on a path both hold, the left one's
/// position is kept.
fn merge_runs(es: &[ChunkEntry], lo: Ghost<int>, mid: Ghost<int>, hi: Ghost<int>, a: Vec<usize>, b: Vec<usize>) -> (r: Vec<usize>)
    requires
        0 <= lo@ <= mid@ <= hi@ <= es@.len(),
        range_index(es@, lo@, mid@, a@),
        range_index(es@, mid@, hi@, b@),
    ensures
        range_index(es@, lo@, hi@, r@),
{
    let ghost s = es@;
    let la = a.len();
    let lb = b.len();
    let mut out: Vec<usize> = Vec::new();
    let mut i: usize = 0;
    let mut j: usize = 0;
    while i < la || j < lb
        invariant
            s == es@,
            0 <= lo@ <= mid@ <= hi@ <= s.len(),
            la == a@.len(),
            lb == b@.len(),
            range_index(s, lo@, mid@, a@),
            range_index(s, mid@, hi@, b@),
            0 <= i <= la,
            0 <= j <= lb,
            forall|x: int, y: int| 0 <= x < y < out@.len() ==> bytes_lt(#[trigger] key_at(s, out@, x), #[trigger] key_at(s, out@, y)),
            forall|x: int| 0 <= x < out@.len() ==> lo@ <= #[trigger] out@[x] < hi@ && first_from(s, lo@, out@[x] as int),
            forall|p: int| 0 <= p < i ==> #[trigger] listed(s, out@, key_at(s, a@, p)),
            forall|p: int| 0 <= p < j ==> #[trigger] listed(s, out@, key_at(s, b@, p)),
            forall|x: int, p: int| 0 <= x < out@.len() && i <= p < la ==> bytes_lt(#[trigger] key_at(s, out@, x), #[trigger] key_at(s, a@, p)),
            forall|x: int, p: int| 0 <= x < out@.len() && j <= p < lb ==> bytes_lt(#[trigger] key_at(s, out@, x), #[trigger] key_at(s, b@, p)),
        decreases la + lb - i - j,
    {
        let ghost o = out@;
        let c: i8 = if i < la && j < lb {
            compare_bytes(es[a[i]].path.as_str().as_bytes(), es[b[j]].path.as_str().as_bytes())
        } else if i < la {
            -1
        } else {
            1
        };
        if c <= 0 {
            // take the left one; on equal keys the right one is dropped
            let x = a[i];
            out.push(x);
            proof {
                let n = o.len() as int;
                assert(key_at(s, out@, n) == key_at(s, a@, i as int));
                assert forall|q: int| 0 <= q < n implies key_at(s, out@, q) == key_at(s, o, q) by {
                    assert(out@[q] == o[q]);
                }
                assert forall|y: int, p: int| 0 <= y < out@.len() && i + 1 <= p < la implies bytes_lt(#[trigger] key_at(s, out@, y), #[trigger] key_at(s, a@, p)) by {
                    if y == n {
                        assert(bytes_lt(key_at(s, a@, i as int), key_at(s, a@, p)));
                    } else {
                        assert(key_at(s, out@, y) == key_at(s, o, y));
                    }
                }
                let nj: int = if c == 0 { j as int + 1 } else { j as int };
                assert forall|y: int, p: int| 0 <= y < out@.len() && nj <= p < lb implies bytes_lt(#[trigger] key_at(s, out@, y), #[trigger] key_at(s, b@, p)) by {
                    if y == n {
                        if c == 0 {
                            assert(bytes_lt(key_at(s, b@, j as int), key_at(s, b@, p)));
                        } else if p > j {
                            assert(bytes_lt(key_at(s, b@, j as int), key_at(s, b@, p)));
                            lemma_bytes_lt_transitive(key_at(s, a@, i as int), key_at(s, b@, j as int), key_at(s, b@, p));
                        }
                    } else {
                        assert(key_at(s, out@, y) == key_at(s, o, y));
                        assert(bytes_lt(key_at(s, o, y), key_at(s, b@, p)));
                    }
                }
                assert forall|x1: int, y1: int| 0 <= x1 < y1 < out@.len() implies bytes_lt(#[trigger] key_at(s, out@, x1), #[trigger] key_at(s, out@, y1)) by {
                    assert(key_at(s, out@, x1) == key_at(s, o, x1));
                    if y1 < n {
                        assert(key_at(s, out@, y1) == key_at(s, o, y1));
                    } else {
                        assert(bytes_lt(key_at(s, o, x1), key_at(s, a@, i as int)));
                    }
                }
                assert forall|y: int| 0 <= y < out@.len() implies lo@ <= #[trigger] out@[y] < hi@ && first_from(s, lo@, out@[y] as int) by {
                    if y == n {
                        assert(lo@ <= a@[i as int] < mid@ && first_from(s, lo@, a@[i as int] as int));
                    } else {
                        assert(out@[y] == o[y]);
                    }
                }
                assert forall|p: int| 0 <= p < i + 1 implies #[trigger] listed(s, out@, key_at(s, a@, p)) by {
                    if p == i {
                        assert(key_at(s, out@, n) == key_at(s, a@, p));
                        assert(listed(s, out@, key_at(s, a@, p)));
                    } else {
                        assert(listed(s, o, key_at(s, a@, p)));
                        let y = choose|y: int| 0 <= y < o.len() && #[trigger] key_at(s, o, y) == key_at(s, a@, p);
                        assert(key_at(s, out@, y) == key_at(s, o, y));
                    }
                }
                assert forall|p: int| 0 <= p < nj implies #[trigger] listed(s, out@, key_at(s, b@, p)) by {
                    if p == j {
                        assert(key_at(s, out@, n) == key_at(s, b@, p));
                        assert(listed(s, out@, key_at(s, b@, p)));
                    } else {
                        assert(listed(s, o, key_at(s, b@, p)));
                        let y = choose|y: int| 0 <= y < o.len() && #[trigger] key_at(s, o, y) == key_at(s, b@, p);
                        assert(key_at(s, out@, y) == key_at(s, o, y));
                    }
                }
            }
            i = i + 1;
            if c == 0 {
                j = j + 1;
            }
        } else {
            let x = b[j];
            out.push(x);
            proof {
                let n = o.len() as int;
                assert(key_at(s, out@, n) == key_at(s, b@, j as int));
                assert forall|q: int| 0 <= q < n implies key_at(s, out@, q) == key_at(s, o, q) by {
                    assert(out@[q] == o[q]);
                }
                assert forall|y: int, p: int| 0 <= y < out@.len() && j + 1 <= p < lb implies bytes_lt(#[trigger] key_at(s, out@, y), #[trigger] key_at(s, b@, p)) by {
                    if y == n {
                        assert(bytes_lt(key_at(s, b@, j as int), key_at(s, b@, p)));
                    } else {
                        assert(key_at(s, out@, y) == key_at(s, o, y));
                    }
                }
                assert forall|y: int, p: int| 0 <= y < out@.len() && i <= p < la implies bytes_lt(#[trigger] key_at(s, out@, y), #[trigger] key_at(s, a@, p)) by {
                    if y == n {
                        if p > i {
                            assert(bytes_lt(key_at(s, a@, i as int), key_at(s, a@, p)));
                            lemma_bytes_lt_transitive(key_at(s, b@, j as int), key_at(s, a@, i as int), key_at(s, a@, p));
                        }
                    } else {
                        assert(key_at(s, out@, y) == key_at(s, o, y));
                        assert(bytes_lt(key_at(s, o, y), key_at(s, a@, p)));
                    }
                }
                assert forall|x1: int, y1: int| 0 <= x1 < y1 < out@.len() implies bytes_lt(#[trigger] key_at(s, out@, x1), #[trigger] key_at(s, out@, y1)) by {
                    assert(key_at(s, out@, x1) == key_at(s, o, x1));
                    if y1 < n {
                        assert(key_at(s, out@, y1) == key_at(s, o, y1));
                    } else {
                        assert(bytes_lt(key_at(s, o, x1), key_at(s, b@, j as int)));
                    }
                }
                let bx = b@[j as int] as int;
                assert(mid@ <= bx < hi@ && first_from(s, mid@, bx));
                assert(first_from(s, lo@, bx)) by {
                    assert forall|k: int| lo@ <= k < bx implies #[trigger] ekey(s[k]) != ekey(s[bx]) by {
                        if k < mid@ && ekey(s[k]) == ekey(s[bx]) {
                            assert(covered(s, a@, k));
                            let p = choose|p: int| 0 <= p < a@.len() && #[trigger] key_at(s, a@, p) == ekey(s[k]);
                            if p < i {
                                assert(listed(s, o, key_at(s, a@, p)));
                        let y = choose|y: int| 0 <= y < o.len() && #[trigger] key_at(s, o, y) == key_at(s, a@, p);
                                assert(bytes_lt(key_at(s, o, y), key_at(s, b@, j as int)));
                                lemma_bytes_lt_irreflexive(key_at(s, o, y));
                            } else {
                                if p > i {
                                    assert(bytes_lt(key_at(s, a@, i as int), key_at(s, a@, p)));
                                    lemma_bytes_lt_transitive(key_at(s, b@, j as int), key_at(s, a@, i as int), key_at(s, a@, p));
                                }
                                lemma_bytes_lt_irreflexive(key_at(s, a@, p));
                            }
                        }
                    }
                }
                assert forall|y: int| 0 <= y < out@.len() implies lo@ <= #[trigger] out@[y] < hi@ && first_from(s, lo@, out@[y] as int) by {
                    if y != n {
                        assert(out@[y] == o[y]);
                    }
                }
                assert forall|p: int| 0 <= p < j + 1 implies #[trigger] listed(s, out@, key_at(s, b@, p)) by {
                    if p == j {
                        assert(key_at(s, out@, n) == key_at(s, b@, p));
                        assert(listed(s, out@, key_at(s, b@, p)));
                    } else {
                        assert(listed(s, o, key_at(s, b@, p)));
                        let y = choose|y: int| 0 <= y < o.len() && #[trigger] key_at(s, o, y) == key_at(s, b@, p);
                        assert(key_at(s, out@, y) == key_at(s, o, y));
                    }
                }
                assert forall|p: int| 0 <= p < i implies #[trigger] listed(s, out@, key_at(s, a@, p)) by {
                    assert(listed(s, o, key_at(s, a@, p)));
                        let y = choose|y: int| 0 <= y < o.len() && #[trigger] key_at(s, o, y) == key_at(s, a@, p);
                    assert(key_at(s, out@, y) == key_at(s, o, y));
                }
            }
            j = j + 1;
        }
    }
    proof {
        assert forall|k: int| lo@ <= k < hi@ implies #[trigger] covered(s, out@, k) by {
            if k < mid@ {
                assert(covered(s, a@, k));
                let p = choose|p: int| 0 <= p < a@.len() && #[trigger] key_at(s, a@, p) == ekey(s[k]);
                assert(listed(s, out@, key_at(s, a@, p)));
                let y = choose|y: int| 0 <= y < out@.len() && #[trigger] key_at(s, out@, y) == key_at(s, a@, p);
                assert(key_at(s, out@, y) == ekey(s[k]));
            } else {
                assert(covered(s, b@, k));
                let p = choose|p: int| 0 <= p < b@.len() && #[trigger] key_at(s, b@, p) == ekey(s[k]);
                assert(listed(s, out@, key_at(s, b@, p)));
                let y = choose|y: int| 0 <= y < out@.len() && #[trigger] key_at(s, out@, y) == key_at(s, b@, p);
                assert(key_at(s, out@, y) == ekey(s[k]));
            }
        }
    }
    out
}

/// Lists the positions of `lo..hi` by path, the first position of each path only.
fn index_range(es: &[ChunkEntry], lo: usize, hi: usize) -> (r: Vec<usize>)
    requires
        lo <= hi <= es@.len(),
    ensures
        range_index(es@, lo as int, hi as int, r@),
    decreases hi - lo,
{
    if hi - lo == 0 {
        return Vec::new();
    }
    if hi - lo == 1 {
        let mut r: Vec<usize> = Vec::new();
        r.push(lo);
        proof {
            assert(key_at(es@, r@, 0) == ekey(es@[lo as int]));
            assert(covered(es@, r@, lo as int));
        }
        return r;
    }
    let mid = lo + (hi - lo) / 2;
    let a = index_range(es, lo, mid);
    let b = index_range(es, mid, hi);
    merge_runs(es, Ghost(lo as int), Ghost(mid as int), Ghost(hi as int), a, b)
}

/// Some position of `es` holds `e` as the first entry of its path.
pub open spec fn first_entry(es: Seq<ChunkEntry>, e: ChunkEntry) -> bool {
    exists|i: int| 0 <= i < es.len() && first_from(es, 0, i) && #[trigger] es[i] == e
}

/// Some entry of `out` has key `k`.
pub open spec fn has_key(out: Seq<ChunkEntry>, k: Seq<u8>) -> bool {
    exists|a: int| 0 <= a < out.len() && #[trigger] ekey(out[a]) == k
}

/// `out` holds the entries of `es` in strictly increasing order of path, and of each
/// path only the entry that comes first in `es`.
pub open spec fn sorted_first_of(es: Seq<ChunkEntry>, out: Seq<ChunkEntry>) -> bool {
    &&& forall|a: int, b: int| 0 <= a < b < out.len() ==> bytes_lt(#[trigger] ekey(out[a]), #[trigger] ekey(out[b]))
    &&& forall|a: int| 0 <= a < out.len() ==> #[trigger] first_entry(es, out[a])
    &&& forall|i: int| 0 <= i < es.len() ==> #[trigger] has_key(out, ekey(es[i]))
}

/// A copy of an entry.
pub fn copy_entry(e: &ChunkEntry) -> (r: ChunkEntry)
    ensures
        r == *e,
{
    ChunkEntry { path: e.path.clone(), size: e.size, mtime: e.mtime, mode: e.mode, mime_type: e.mime_type.clone() }
}

/// The entries of a buffer sorted by path, keeping only the first entry of each path.
pub fn sort_dedup_by_path(buffer: &[ChunkEntry]) -> (out: Vec<ChunkEntry>)
    ensures
        sorted_first_of(buffer@, out@),
{
    let idx = index_range(buffer, 0, buffer.len());
    let ghost s = buffer@;
    let mut out: Vec<ChunkEntry> = Vec::new();
    let mut a: usize = 0;
    while a < idx.len()
        invariant
            s == buffer@,
            range_index(s, 0, s.len() as int, idx@),
            0 <= a <= idx@.len(),
            out@.len() == a,
            forall|x: int| 0 <= x < a ==> #[trigger] out@[x] == s[idx@[x] as int],
        decreases idx@.len() - a,
    {
        let e = copy_entry(&buffer[idx[a]]);
        out.push(e);
        a = a + 1;
    }
    proof {
        assert forall|x: int, y: int| 0 <= x < y < out@.len() implies bytes_lt(#[trigger] ekey(out@[x]), #[trigger] ekey(out@[y])) by {
            assert(key_at(s, idx@, x) == ekey(out@[x]));
            assert(key_at(s, idx@, y) == ekey(out@[y]));
        }
        assert forall|x: int| 0 <= x < out@.len() implies #[trigger] first_entry(s, out@[x]) by {
            assert(0 <= idx@[x] < s.len() && first_from(s, 0, idx@[x] as int));
            assert(s[idx@[x] as int] == out@[x]);
        }
        assert forall|i: int| 0 <= i < s.len() implies #[trigger] has_key(out@, ekey(s[i])) by {
            assert(covered(s, idx@, i));
            let x = choose|x: int| 0 <= x < idx@.len() && #[trigger] key_at(s, idx@, x) == ekey(s[i]);
            assert(ekey(out@[x]) == ekey(s[i]));
        }
    }
    out
}

/// Keys in non-decreasing order.
pub open spec fn keys_non_decreasing(s: Seq<ChunkEntry>) -> bool {
    forall|x: int, y: int| 0 <= x < y < s.len() ==> !bytes_lt(#[trigger] ekey(s[y]), #[trigger] ekey(s[x]))
}

/// Whether a run's keys are in non-decreasing order.
pub fn run_is_sorted(run: &[ChunkEntry]) -> (b: bool)
    ensures
        b == keys_non_decreasing(run@),
{
    let n = run.len();
    if n == 0 {
        return true;
    }
    let mut i: usize = 1;
    while i < n
        invariant
            n == run@.len(),
            1 <= i <= n,
            forall|x: int, y: int| 0 <= x < y < i ==> !bytes_lt(#[trigger] ekey(run@[y]), #[trigger] ekey(run@[x])),
        decreases n - i,
    {
        let c = compare_bytes(run[i].path.as_str().as_bytes(), run[i - 1].path.as_str().as_bytes());
        if c < 0 {
            proof {
                assert(bytes_lt(ekey(run@[i as int]), ekey(run@[i - 1])));
            }
            return false;
        }
        proof {
            assert forall|x: int, y: int| 0 <= x < y < i + 1 implies !bytes_lt(#[trigger] ekey(run@[y]), #[trigger] ekey(run@[x])) by {
                if y == i && x < i - 1 {
                    lemma_le_transitive(ekey(run@[x]), ekey(run@[i - 1]), ekey(run@[i as int]));
                }
            }
        }
        i = i + 1;
    }
    true
}

/// All the entries of the first `k` runs, counted with repetition.
pub open spec fn runs_multiset(runs: Seq<Vec<ChunkEntry>>, k: int) -> Multiset<ChunkEntry>
    decreases k,
{
    if k <= 0 {
        Multiset::empty()
    } else {
        runs_multiset(runs, k - 1).add(runs[k - 1]@.to_multiset())
    }
}

/// Inserting into either side of a sum inserts into the sum.
proof fn lemma_add_insert(a: Multiset<ChunkEntry>, b: Multiset<ChunkEntry>, x: ChunkEntry)
    ensures
        a.insert(x).add(b) == a.add(b).insert(x),
        a.add(b.insert(x)) == a.add(b).insert(x),
{
    broadcast use vstd::multiset::group_multiset_axioms;
    assert(a.insert(x).add(b) =~= a.add(b).insert(x));
    assert(a.add(b.insert(x)) =~= a.add(b).insert(x));
}

/// "Sorts no later than" is transitive.
proof fn lemma_le_transitive(a: Seq<u8>, b: Seq<u8>, c: Seq<u8>)
    requires
        !bytes_lt(b, a),
        !bytes_lt(c, b),
    ensures
        !bytes_lt(c, a),
{
    lemma_bytes_lt_total(a, b);
    if bytes_lt(c, a) && bytes_lt(a, b) {
        lemma_bytes_lt_transitive(c, a, b);
    }
}

/// Merges two runs sorted by path into one; of equal keys, the left one's come first.
fn merge_two(a: &[ChunkEntry], b: &[ChunkEntry]) -> (out: Vec<ChunkEntry>)
    requires
        keys_non_decreasing(a@),
        keys_non_decreasing(b@),
    ensures
        keys_non_decreasing(out@),
        out@.to_multiset() == a@.to_multiset().add(b@.to_multiset()),
{
    broadcast use vstd::seq_lib::group_to_multiset_ensures;
    let la = a.len();
    let lb = b.len();
    let mut out: Vec<ChunkEntry> = Vec::new();
    let mut i: usize = 0;
    let mut j: usize = 0;
    proof {
        assert(a@.take(0) =~= Seq::<ChunkEntry>::empty());
        assert(b@.take(0) =~= Seq::<ChunkEntry>::empty());
        assert(out@.to_multiset() =~= a@.take(0).to_multiset().add(b@.take(0).to_multiset()));
    }
    while i < la || j < lb
        invariant
            la == a@.len(),
            lb == b@.len(),
            keys_non_decreasing(a@),
            keys_non_decreasing(b@),
            0 <= i <= la,
            0 <= j <= lb,
            keys_non_decreasing(out@),
            out@.to_multiset() == a@.take(i as int).to_multiset().add(b@.take(j as int).to_multiset()),
            forall|x: int, p: int| 0 <= x < out@.len() && i <= p < la ==> !bytes_lt(#[trigger] ekey(a@[p]), #[trigger] ekey(out@[x])),
            forall|x: int, p: int| 0 <= x < out@.len() && j <= p < lb ==> !bytes_lt(#[trigger] ekey(b@[p]), #[trigger] ekey(out@[x])),
        decreases la + lb - i - j,
    {
        let ghost o = out@;
        let take_left = if i < la && j < lb {
            compare_bytes(b[j].path.as_str().as_bytes(), a[i].path.as_str().as_bytes()) >= 0
        } else {
            i < la
        };
        if take_left {
            let e = copy_entry(&a[i]);
            out.push(e);
            proof {
                let n = o.len() as int;
                assert(a@.take(i + 1) =~= a@.take(i as int).push(a@[i as int]));
                assert(out@ =~= o.push(a@[i as int]));
                lemma_add_insert(a@.take(i as int).to_multiset(), b@.take(j as int).to_multiset(), a@[i as int]);
                vstd::seq_lib::to_multiset_build(o, a@[i as int]);
                vstd::seq_lib::to_multiset_build(a@.take(i as int), a@[i as int]);
                assert forall|x: int, y: int| 0 <= x < y < out@.len() implies !bytes_lt(#[trigger] ekey(out@[y]), #[trigger] ekey(out@[x])) by {
                    if y == n {
                        assert(!bytes_lt(ekey(a@[i as int]), ekey(o[x])));
                    }
                }
                assert forall|x: int, p: int| 0 <= x < out@.len() && i + 1 <= p < la implies !bytes_lt(#[trigger] ekey(a@[p]), #[trigger] ekey(out@[x])) by {
                    if x == n {
                        assert(!bytes_lt(ekey(a@[p]), ekey(a@[i as int])));
                    }
                }
                assert forall|x: int, p: int| 0 <= x < out@.len() && j <= p < lb implies !bytes_lt(#[trigger] ekey(b@[p]), #[trigger] ekey(out@[x])) by {
                    if x == n {
                        assert(!bytes_lt(ekey(b@[j as int]), ekey(a@[i as int])));
                        if p > j {
                            assert(!bytes_lt(ekey(b@[p]), ekey(b@[j as int])));
                            lemma_le_transitive(ekey(a@[i as int]), ekey(b@[j as int]), ekey(b@[p]));
                        }
                    }
                }
            }
            i = i + 1;
        } else {
            let e = copy_entry(&b[j]);
            out.push(e);
            proof {
                let n = o.len() as int;
                assert(b@.take(j + 1) =~= b@.take(j as int).push(b@[j as int]));
                assert(out@ =~= o.push(b@[j as int]));
                lemma_add_insert(a@.take(i as int).to_multiset(), b@.take(j as int).to_multiset(), b@[j as int]);
                vstd::seq_lib::to_multiset_build(o, b@[j as int]);
                vstd::seq_lib::to_multiset_build(b@.take(j as int), b@[j as int]);
                assert forall|x: int, y: int| 0 <= x < y < out@.len() implies !bytes_lt(#[trigger] ekey(out@[y]), #[trigger] ekey(out@[x])) by {
                    if y == n {
                        assert(!bytes_lt(ekey(b@[j as int]), ekey(o[x])));
                    }
                }
                assert forall|x: int, p: int| 0 <= x < out@.len() && j + 1 <= p < lb implies !bytes_lt(#[trigger] ekey(b@[p]), #[trigger] ekey(out@[x])) by {
                    if x == n {
                        assert(!bytes_lt(ekey(b@[p]), ekey(b@[j as int])));
                    }
                }
                assert forall|x: int, p: int| 0 <= x < out@.len() && i <= p < la implies !bytes_lt(#[trigger] ekey(a@[p]), #[trigger] ekey(out@[x])) by {
                    if x == n {
                        lemma_bytes_lt_asymmetric(ekey(b@[j as int]), ekey(a@[i as int]));
                        if p > i {
                            assert(!bytes_lt(ekey(a@[p]), ekey(a@[i as int])));
                            lemma_le_transitive(ekey(b@[j as int]), ekey(a@[i as int]), ekey(a@[p]));
                        }
                    }
                }
            }
            j = j + 1;
        }
    }
    proof {
        assert(a@.take(la as int) =~= a@);
        assert(b@.take(lb as int) =~= b@);
    }
    out
}

/// Merges runs each sorted by path into one sequence sorted by path that holds every
/// entry of every run, repeats included.
pub fn merge_sorted_runs(runs: &Vec<Vec<ChunkEntry>>) -> (out: Vec<ChunkEntry>)
    requires
        forall|r: int| 0 <= r < runs@.len() ==> keys_non_decreasing(#[trigger] runs@[r]@),
    ensures
        keys_non_decreasing(out@),
        out@.to_multiset() == runs_multiset(runs@, runs@.len() as int),
{
    broadcast use vstd::seq_lib::group_to_multiset_ensures;
    let mut acc: Vec<ChunkEntry> = Vec::new();
    let mut r: usize = 0;
    proof {
        assert(acc@.to_multiset() =~= Multiset::<ChunkEntry>::empty());
    }
    while r < runs.len()
        invariant
            forall|q: int| 0 <= q < runs@.len() ==> keys_non_decreasing(#[trigger] runs@[q]@),
            0 <= r <= runs@.len(),
            keys_non_decreasing(acc@),
            acc@.to_multiset() == runs_multiset(runs@, r as int),
        decreases runs@.len() - r,
    {
        let merged = merge_two(acc.as_slice(), runs[r].as_slice());
        acc = merged;
        r = r + 1;
    }
    acc
}

/// A chunk file: the number of entries (u32, little-endian, truncated), then each
/// entry's record laid out as in the index's file directory.
pub open spec fn chunk_bytes(recs: Seq<FileRecord>) -> Seq<u8> {
    spec_u32_to_le_bytes(recs.len() as u32) + file_dir_bytes(recs)
}

/// The number of bytes a record takes.
pub open spec fn record_len(r: FileRecord) -> int {
    (4 + r.path.len() + 21 + r.mime.len()) as int
}

/// `done` followed by the records of `rest`, when there are any.
pub open spec fn prepend_records(done: Seq<FileRecord>, rest: Option<Seq<FileRecord>>) -> Option<Seq<FileRecord>> {
    match rest {
        Some(v) => Some(done + v),
        None => None,
    }
}

/// The first `count` records laid out back to back at the start of `b`, or `None` when
/// `b` ends before them.
pub open spec fn parse_records(b: Seq<u8>, count: nat) -> Option<Seq<FileRecord>>
    decreases count,
{
    if count == 0 {
        Some(Seq::empty())
    } else {
        match parse_record(b) {
            Some(r) => if record_len(r) <= b.len() {
                prepend_records(seq![r], parse_records(b.subrange(record_len(r), b.len() as int), (count - 1) as nat))
            } else {
                None
            },
            None => None,
        }
    }
}

/// The records a chunk file holds, or `None` when it is cut short.
pub open spec fn parse_chunk(b: Seq<u8>) -> Option<Seq<FileRecord>> {
    if b.len() < 4 {
        None
    } else {
        parse_records(b.subrange(4, b.len() as int), u32_at(b, 0) as nat)
    }
}

/// An entry read back from a record: path and MIME type decoded from their bytes.
pub open spec fn entry_read(e: ChunkEntry, r: FileRecord) -> bool {
    &&& e.path@ == utf8_lossy(r.path)
    &&& vstd::utf8::valid_utf8(r.path) ==> e.path@ == vstd::utf8::decode_utf8(r.path)
    &&& vstd::utf8::valid_utf8(r.mime) ==> e.mime_type@ == vstd::utf8::decode_utf8(r.mime)
    &&& e.size == r.size
    &&& e.mtime == r.mtime
    &&& e.mode == r.mode
    &&& e.mime_type@ == utf8_lossy(r.mime)
}

/// The chunk file of `entries`, in their order.
pub fn encode_chunk(entries: &[ChunkEntry]) -> (b: Vec<u8>)
    ensures
        b@ == chunk_bytes(entries@.map_values(|e: ChunkEntry| entry_record(e))),
{
    let ghost recs = entries@.map_values(|e: ChunkEntry| entry_record(e));
    let mut b: Vec<u8> = Vec::new();
    push_u32(&mut b, entries.len() as u32);
    let ghost head = b@;
    let mut i: usize = 0;
    proof {
        assert(record_pieces(recs.take(0)) =~= Seq::<Seq<u8>>::empty());
        assert(b@ =~= head + file_dir_bytes(recs.take(0)));
    }
    while i < entries.len()
        invariant
            0 <= i <= entries@.len(),
            recs == entries@.map_values(|e: ChunkEntry| entry_record(e)),
            head == spec_u32_to_le_bytes(entries@.len() as u32),
            b@ == head + file_dir_bytes(recs.take(i as int)),
        decreases entries@.len() - i,
    {
        let e = &entries[i];
        let path_bytes = e.path.as_str().as_bytes();
        let mime_bytes = e.mime_type.as_str().as_bytes();
        let ghost b0 = b@;
        push_u32(&mut b, path_bytes.len() as u32);
        push_bytes(&mut b, path_bytes);
        push_u64(&mut b, e.size);
        push_u64(&mut b, e.mtime as u64);
        push_u32(&mut b, e.mode);
        b.push(mime_bytes.len() as u8);
        push_bytes(&mut b, mime_bytes);
        proof {
            let r = recs[i as int];
            assert(r == entry_record(entries@[i as int]));
            assert(b@ =~= b0 + record_bytes(r));
            assert(record_pieces(recs.take(i + 1)) =~= record_pieces(recs.take(i as int)).push(record_bytes(r)));
            lemma_concat_push(record_pieces(recs.take(i as int)), record_bytes(r));
            assert(b@ =~= head + file_dir_bytes(recs.take(i + 1)));
        }
        i = i + 1;
    }
    proof {
        assert(recs.take(entries@.len() as int) =~= recs);
    }
    b
}

/// The entries of a chunk file, or `None` when the file ends before the records its
/// count announces. Bytes after them are ignored.
pub fn decode_chunk(buf: &[u8]) -> (r: Option<Vec<ChunkEntry>>)
    ensures
        match r {
            Some(v) => parse_chunk(buf@) matches Some(recs) && v@.len() == recs.len()
                && forall|i: int| 0 <= i < recs.len() ==> #[trigger] entry_read(v@[i], recs[i]),
            None => parse_chunk(buf@) is None,
        },
{
    let n = buf.len();
    if n < 4 {
        return None;
    }
    let count = read_u32_at(buf, 0);
    let ghost total = parse_chunk(buf@);
    let mut out: Vec<ChunkEntry> = Vec::new();
    let ghost mut done: Seq<FileRecord> = Seq::empty();
    let mut pos: usize = 4;
    let mut k: u32 = 0;
    proof {
        assert(done + Seq::<FileRecord>::empty() =~= Seq::<FileRecord>::empty());
        assert(prepend_records(done, parse_records(buf@.subrange(4, n as int), count as nat))
            == parse_records(buf@.subrange(4, n as int), count as nat)) by {
            match parse_records(buf@.subrange(4, n as int), count as nat) {
                Some(v) => { assert(done + v =~= v); },
                None => {},
            }
        }
    }
    while k < count
        invariant
            n == buf@.len(),
            4 <= pos <= n,
            0 <= k <= count,
            count == u32_at(buf@, 0),
            total == parse_chunk(buf@),
            total == prepend_records(done, parse_records(buf@.subrange(pos as int, n as int), (count - k) as nat)),
            done.len() == k,
            out@.len() == k,
            forall|i: int| 0 <= i < k ==> #[trigger] entry_read(out@[i], done[i]),
        decreases count - k,
    {
        let rest = &buf[pos..n];
        let ghost rb = buf@.subrange(pos as int, n as int);
        assert(rest@ == rb);
        match IndexReader::parse_file_entry(rest) {
            Ok(d) => {
                let plen = read_u32_at(rest, 0) as usize;
                let mlen = rest[4 + plen + 20] as usize;
                let len = 4 + plen + 21 + mlen;
                let ghost rec = parse_record(rb)->0;
                proof {
                    assert(rec.path.len() == plen);
                    assert(rec.mime.len() == mlen);
                    assert(record_len(rec) == len);
                    assert(rb.subrange(len as int, rb.len() as int) =~= buf@.subrange(pos + len, n as int));
                    let tail = parse_records(buf@.subrange(pos + len, n as int), (count - k - 1) as nat);
                    assert(parse_records(rb, (count - k) as nat) == prepend_records(seq![rec], tail));
                    match tail {
                        Some(v) => {
                            assert(done + (seq![rec] + v) =~= done.push(rec) + v);
                        },
                        None => {},
                    }
                }
                out.push(ChunkEntry { path: d.full_path, size: d.size, mtime: d.mtime, mode: d.mode, mime_type: d.mime_type });
                proof {
                    done = done.push(rec);
                }
                pos = pos + len;
                k = k + 1;
            },
            Err(_) => {
                proof {
                    assert(parse_records(rb, (count - k) as nat) is None);
                }
                return None;
            },
        }
    }
    proof {
        assert(parse_records(buf@.subrange(pos as int, n as int), 0) == Some(Seq::<FileRecord>::empty()));
        assert(done + Seq::<FileRecord>::empty() =~= done);
    }
    Some(out)
}

/// A record followed by anything reads back as the record, when its lengths fit.
proof fn lemma_parse_record_prefix(r: FileRecord, t: Seq<u8>)
    requires
        record_fits(r),
    ensures
        parse_record(record_bytes(r) + t) == Some(r),
        record_bytes(r).len() == record_len(r),
{
    lemma_auto_spec_u64_to_from_le_bytes();
    lemma_auto_spec_u32_to_from_le_bytes();
    let e = record_bytes(r) + t;
    let pl = r.path.len() as int;
    let ml = r.mime.len() as int;
    let off = 4 + pl;
    assert(e.subrange(0, 4) =~= spec_u32_to_le_bytes(r.path.len() as u32));
    assert(u32_at(e, 0) == pl);
    assert(record_bytes(r).len() == off + 21 + ml);
    assert(e.subrange(4, off) =~= r.path);
    assert(e.subrange(off, off + 8) =~= spec_u64_to_le_bytes(r.size));
    assert(e.subrange(off + 8, off + 16) =~= spec_u64_to_le_bytes(r.mtime as u64));
    assert(e.subrange(off + 16, off + 20) =~= spec_u32_to_le_bytes(r.mode));
    assert(e[off + 20] == r.mime.len() as u8);
    assert(e.subrange(off + 21, off + 21 + ml) =~= r.mime);
    let m = r.mtime;
    assert((m as u64) as i64 == m) by (bit_vector);
}

/// A concatenation is its first piece followed by the concatenation of the rest.
proof fn lemma_concat_front(pieces: Seq<Seq<u8>>)
    requires
        pieces.len() > 0,
    ensures
        concat(pieces) == pieces[0] + concat(pieces.drop_first()),
    decreases pieces.len(),
{
    if pieces.len() == 1 {
        assert(pieces.drop_first() =~= Seq::<Seq<u8>>::empty());
        assert(pieces.drop_last() =~= Seq::<Seq<u8>>::empty());
        assert(concat(pieces.drop_last()) == Seq::<u8>::empty());
        assert(concat(pieces.drop_first()) == Seq::<u8>::empty());
        assert(Seq::<u8>::empty() + pieces[0] =~= pieces[0]);
        assert(pieces[0] + Seq::<u8>::empty() =~= pieces[0]);
    } else {
        let init = pieces.drop_last();
        lemma_concat_front(init);
        assert(init.drop_first() =~= pieces.drop_first().drop_last());
        assert(pieces.drop_first().last() == pieces.last());
        assert(concat(pieces) =~= pieces[0] + concat(pieces.drop_first()));
    }
}

/// Records laid out back to back, followed by anything, read back as themselves.
proof fn lemma_parse_records(recs: Seq<FileRecord>, t: Seq<u8>)
    requires
        forall|i: int| 0 <= i < recs.len() ==> record_fits(#[trigger] recs[i]),
    ensures
        parse_records(file_dir_bytes(recs) + t, recs.len()) == Some(recs),
    decreases recs.len(),
{
    if recs.len() == 0 {
        assert(recs =~= Seq::<FileRecord>::empty());
    } else {
        let r = recs[0];
        let rest = recs.drop_first();
        assert forall|i: int| 0 <= i < rest.len() implies record_fits(#[trigger] rest[i]) by {
            assert(rest[i] == recs[i + 1]);
        }
        lemma_parse_records(rest, t);
        lemma_concat_front(record_pieces(recs));
        assert(record_pieces(recs).drop_first() =~= record_pieces(rest));
        let b = file_dir_bytes(recs) + t;
        assert(b =~= record_bytes(r) + (file_dir_bytes(rest) + t));
        assert(record_fits(r));
        lemma_parse_record_prefix(r, file_dir_bytes(rest) + t);
        assert(b.subrange(record_len(r), b.len() as int) =~= file_dir_bytes(rest) + t);
        assert(seq![r] + rest =~= recs);
    }
}

/// A chunk file reads back as the records it was written from, when there are at most
/// `u32::MAX` of them and their lengths fit their fields.
pub proof fn lemma_chunk_roundtrip(recs: Seq<FileRecord>)
    requires
        recs.len() <= u32::MAX,
        forall|i: int| 0 <= i < recs.len() ==> record_fits(#[trigger] recs[i]),
    ensures
        parse_chunk(chunk_bytes(recs)) == Some(recs),
{
    lemma_auto_spec_u32_to_from_le_bytes();
    let b = chunk_bytes(recs);
    assert(b.subrange(0, 4) =~= spec_u32_to_le_bytes(recs.len() as u32));
    assert(b.subrange(4, b.len() as int) =~= file_dir_bytes(recs) + Seq::<u8>::empty());
    lemma_parse_records(recs, Seq::<u8>::empty());
}

/// An entry read back from the record of `e` has the fields of `e`.
pub proof fn lemma_entry_read_back(e: ChunkEntry, x: ChunkEntry)
    requires
        entry_read(x, entry_record(e)),
    ensures
        x.path@ == e.path@,
        x.size == e.size,
        x.mtime == e.mtime,
        x.mode == e.mode,
        x.mime_type@ == e.mime_type@,
{
    vstd::utf8::encode_utf8_valid_utf8(e.path@);
    vstd::utf8::encode_utf8_valid_utf8(e.mime_type@);
    vstd::utf8::encode_utf8_decode_utf8(e.path@);
    vstd::utf8::encode_utf8_decode_utf8(e.mime_type@);
}

} // verus!
