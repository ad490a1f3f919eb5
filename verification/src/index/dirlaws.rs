//! What the reader reads back of a directory table the writer laid down.
use vstd::prelude::*;
use vstd::bytes::*;
use crate::index::dir::{DirTableEntry, dir_pos, dir_at, dir_valid_at, dir_record_at, path_of, dir_table_reads, dir_table_sorted, dir_lookup, dir_entry_matches, prefix_listing, run_entry_ok, starts_with_bytes};
use crate::index::layout::{bytes_lt, lemma_bytes_lt_transitive, lemma_bytes_lt_total, lemma_bytes_lt_irreflexive};
use crate::index::header::{decoded_header, u32_at, u64_at, lemma_subrange_of_prefix, lemma_decoded_header_prefix};
use crate::index::image::{index_encodes, dirs_encoded, dir_pieces, dir_record_bytes};
use crate::index::layout::{FileRecord, concat, piece_start, lemma_concat_piece};
use crate::index::reader::IndexReader;
use crate::index::roundtrip::reads_index;
use crate::index::writer::{dir_key, dirs_sorted};

verus! {

/// The fields a table record holds for entry `e`, and where the next record begins.
pub open spec fn dir_tuple(e: DirTableEntry, next: int) -> (Seq<u8>, i64, u64, u32, u32, int) {
    (dir_key(e), e.mtime, e.ino, e.first_file_id, e.num_files, next)
}

/// Record `r` holds the fields of entry `e`.
pub open spec fn record_holds(r: Option<(Seq<u8>, i64, u64, u32, u32, int)>, e: DirTableEntry) -> bool {
    match r {
        Some(t) => t.0 == dir_key(e) && t.1 == e.mtime && t.2 == e.ino && t.3 == e.first_file_id && t.4 == e.num_files,
        None => false,
    }
}

/// Every entry's path fits the record's 32-bit length field.
pub open spec fn dir_keys_fit(dirs: Seq<DirTableEntry>) -> bool {
    forall|i: int| 0 <= i < dirs.len() ==> dir_key(#[trigger] dirs[i]).len() <= u32::MAX
}

/// The record of entry `k` of a table laid down at `start` reads back as the entry.
proof fn lemma_dir_record(d: Seq<u8>, start: int, dirs: Seq<DirTableEntry>, k: int)
    requires
        0 <= start,
        start + concat(dir_pieces(dirs)).len() <= d.len(),
        d.subrange(start, start + concat(dir_pieces(dirs)).len()) == concat(dir_pieces(dirs)),
        dir_keys_fit(dirs),
        0 <= k < dirs.len(),
    ensures
        dir_valid_at(d, start + piece_start(dir_pieces(dirs), k)) == Some(
            dir_tuple(dirs[k], start + piece_start(dir_pieces(dirs), k + 1)),
        ),
{
    lemma_auto_spec_u64_to_from_le_bytes();
    lemma_auto_spec_u32_to_from_le_bytes();
    let pieces = dir_pieces(dirs);
    let c = concat(pieces);
    lemma_concat_piece(pieces, k);
    let e = dirs[k];
    let rec = dir_record_bytes(e);
    assert(pieces[k] == rec);
    let ps = piece_start(pieces, k);
    let p = start + ps;
    let len = rec.len() as int;
    let key = dir_key(e);
    let kl = key.len() as int;
    assert(kl <= u32::MAX);
    assert(len == 4 + kl + 24);
    let w = d.subrange(p, p + len);
    assert(w =~= c.subrange(ps, ps + len));
    assert(w == rec);
    assert(d.subrange(p, p + 4) =~= w.subrange(0, 4));
    assert(w.subrange(0, 4) =~= spec_u32_to_le_bytes(kl as u32));
    assert(u32_at(d, p) == kl);
    let q = p + 4 + kl;
    assert(d.subrange(p + 4, q) =~= w.subrange(4, 4 + kl));
    assert(w.subrange(4, 4 + kl) =~= key);
    assert(d.subrange(q, q + 8) =~= w.subrange(4 + kl, 12 + kl));
    assert(w.subrange(4 + kl, 12 + kl) =~= spec_u64_to_le_bytes(e.mtime as u64));
    assert(d.subrange(q + 8, q + 16) =~= w.subrange(12 + kl, 20 + kl));
    assert(w.subrange(12 + kl, 20 + kl) =~= spec_u64_to_le_bytes(e.ino));
    assert(d.subrange(q + 16, q + 20) =~= w.subrange(20 + kl, 24 + kl));
    assert(w.subrange(20 + kl, 24 + kl) =~= spec_u32_to_le_bytes(e.first_file_id));
    assert(d.subrange(q + 20, q + 24) =~= w.subrange(24 + kl, 28 + kl));
    assert(w.subrange(24 + kl, 28 + kl) =~= spec_u32_to_le_bytes(e.num_files));
    let m = e.mtime;
    assert((m as u64) as i64 == m) by (bit_vector);
    vstd::utf8::encode_utf8_valid_utf8(e.path@);
    assert(dir_record_at(d, p) == Some(dir_tuple(e, q + 24)));
}

/// Walking a table laid down at `start` reaches entry `k` where its record starts.
proof fn lemma_dir_positions(d: Seq<u8>, start: int, dirs: Seq<DirTableEntry>, k: int)
    requires
        0 <= start,
        start + concat(dir_pieces(dirs)).len() <= d.len(),
        d.subrange(start, start + concat(dir_pieces(dirs)).len()) == concat(dir_pieces(dirs)),
        dir_keys_fit(dirs),
        0 <= k <= dirs.len(),
    ensures
        dir_pos(d, start, k as nat) == Some(start + piece_start(dir_pieces(dirs), k)),
    decreases k,
{
    if k == 0 {
        assert(dir_pieces(dirs).take(0) =~= Seq::<Seq<u8>>::empty());
    } else {
        lemma_dir_positions(d, start, dirs, k - 1);
        lemma_dir_record(d, start, dirs, k - 1);
        assert((k - 1) as nat + 1 == k as nat);
    }
}

/// Entry `k` of a table laid down at `start` is record `k`.
proof fn lemma_dir_entry_at(d: Seq<u8>, start: int, dirs: Seq<DirTableEntry>, k: int)
    requires
        0 <= start,
        start + concat(dir_pieces(dirs)).len() <= d.len(),
        d.subrange(start, start + concat(dir_pieces(dirs)).len()) == concat(dir_pieces(dirs)),
        dir_keys_fit(dirs),
        0 <= k < dirs.len(),
    ensures
        dir_at(d, start, k) == Some(dir_tuple(dirs[k], start + piece_start(dir_pieces(dirs), k + 1))),
        path_of(dir_at(d, start, k)) == dir_key(dirs[k]),
{
    lemma_dir_positions(d, start, dirs, k);
    lemma_dir_record(d, start, dirs, k);
}

/// In an index that `into_bytes` wrote, the directory table reads through and is sorted,
/// and record `k` holds entry `k` as it was added.
pub proof fn lemma_written_dirs_read_back(
    rd: IndexReader,
    b: Seq<u8>,
    files: Seq<FileRecord>,
    tri: Map<u64, Set<u32>>,
    bi: Map<u64, Set<u32>>,
    ext: Map<u64, Set<u32>>,
    dirs: Seq<DirTableEntry>,
    cfg: Seq<u8>,
)
    requires
        index_encodes(b, files, tri, bi, ext, dirs, cfg),
        reads_index(rd, b),
        dir_keys_fit(dirs),
    ensures
        rd.dir_table_ok(),
        rd.header.num_dir_entries == dirs.len(),
        forall|k: int| 0 <= k < dirs.len() ==> record_holds(#[trigger] rd.dir_record_spec(k), dirs[k]),
{
    let body = b.subrange(0, b.len() - 4);
    assert(b.subrange(0, body.len() as int) =~= body);
    lemma_decoded_header_prefix(body, b);
    let h = decoded_header(body);
    let start = h.dir_table_offset as int;
    let end = h.bitmap_data_offset as int;
    let c = concat(dir_pieces(dirs));
    assert(dirs_encoded(body, start, end, dirs));
    assert(body.subrange(start, end) == c);
    assert(end == start + c.len());
    lemma_subrange_of_prefix(body, b, start, end);
    assert(b.subrange(start, start + c.len()) == c);
    assert(rd.data@ == b);
    assert(rd.header == h);
    assert forall|k: int| 0 <= k < dirs.len() implies record_holds(#[trigger] rd.dir_record_spec(k), dirs[k]) by {
        lemma_dir_entry_at(b, start, dirs, k);
    }
    assert(dir_table_reads(b, start, dirs.len() as int)) by {
        assert forall|k: int| 0 <= k < dirs.len() implies #[trigger] dir_at(b, start, k as int) is Some by {
            lemma_dir_entry_at(b, start, dirs, k);
        }
    }
    assert(dir_table_sorted(b, start, dirs.len() as int)) by {
        assert forall|i: int, j: int| 0 <= i < j < dirs.len() implies !crate::index::layout::bytes_lt(
            path_of((#[trigger] dir_at(b, start, j as int))),
            path_of((#[trigger] dir_at(b, start, i as int))),
        ) by {
            lemma_dir_entry_at(b, start, dirs, i);
            lemma_dir_entry_at(b, start, dirs, j);
            assert(dirs_sorted(dirs));
            assert(!crate::index::layout::bytes_lt(dir_key(dirs[j]), dir_key(dirs[i])));
        }
    }
}

/// Looking up the path of a directory that was added to a written index finds an entry
/// with that path, whose fields are those of an added directory with that path.
pub proof fn lemma_written_dir_found(
    rd: IndexReader,
    b: Seq<u8>,
    files: Seq<FileRecord>,
    tri: Map<u64, Set<u32>>,
    bi: Map<u64, Set<u32>>,
    ext: Map<u64, Set<u32>>,
    dirs: Seq<DirTableEntry>,
    cfg: Seq<u8>,
    k: int,
    r: Option<DirTableEntry>,
)
    requires
        index_encodes(b, files, tri, bi, ext, dirs, cfg),
        reads_index(rd, b),
        dir_keys_fit(dirs),
        0 <= k < dirs.len(),
        dir_lookup(rd, dir_key(dirs[k]), r),
    ensures
        r matches Some(e) && exists|j: int|
            0 <= j < dirs.len() && dir_key(#[trigger] dirs[j]) == dir_key(dirs[k]) && e.path@ == dirs[j].path@
                && e.mtime == dirs[j].mtime && e.ino == dirs[j].ino && e.first_file_id == dirs[j].first_file_id
                && e.num_files == dirs[j].num_files,
{
    lemma_written_dirs_read_back(rd, b, files, tri, bi, ext, dirs, cfg);
    assert(record_holds(rd.dir_record_spec(k), dirs[k]));
    assert(path_of(rd.dir_record_spec(k)) == dir_key(dirs[k]));
    assert(rd.header.features == 7) by {
        let body = b.subrange(0, b.len() - 4);
        assert(b.subrange(0, body.len() as int) =~= body);
        lemma_decoded_header_prefix(body, b);
    }
    let f: u64 = rd.header.features;
    assert(f & crate::index::header::FEATURE_DIR_TABLE != 0) by (bit_vector)
        requires
            f == 7u64,
    ;
    assert(r is Some);
    let e = r->0;
    let j = choose|j: int|
        0 <= j < rd.header.num_dir_entries && (#[trigger] rd.dir_record_spec(j)) is Some
            && path_of(rd.dir_record_spec(j)) == dir_key(dirs[k]) && dir_entry_matches(e, rd.dir_record_spec(j)->0);
    assert(record_holds(rd.dir_record_spec(j), dirs[j]));
    assert(path_of(rd.dir_record_spec(j)) == dir_key(dirs[j]));
    reveal(dir_entry_matches);
    vstd::utf8::encode_utf8_decode_utf8(dirs[j].path@);
    assert(dir_key(dirs[j]) == dir_key(dirs[k]));
}


/// A byte string below `p` does not start with `p`.
proof fn lemma_below_not_prefixed(x: Seq<u8>, p: Seq<u8>)
    requires
        bytes_lt(x, p),
    ensures
        !starts_with_bytes(x, p),
    decreases p.len(),
{
    reveal(starts_with_bytes);
    if starts_with_bytes(x, p) && p.len() > 0 {
        assert(x.len() > 0);
        assert(x[0] == x.subrange(0, p.len() as int)[0]);
        assert(x.drop_first().subrange(0, p.len() - 1) =~= p.drop_first()) by {
            assert(x.drop_first().subrange(0, p.len() - 1) =~= x.subrange(0, p.len() as int).drop_first());
        }
        lemma_below_not_prefixed(x.drop_first(), p.drop_first());
    }
}

/// A byte string not below `p` that does not start with `p` sorts after every string
/// that does.
proof fn lemma_past_prefix(y: Seq<u8>, z: Seq<u8>, p: Seq<u8>)
    requires
        !bytes_lt(y, p),
        !starts_with_bytes(y, p),
        starts_with_bytes(z, p),
    ensures
        bytes_lt(z, y),
    decreases p.len(),
{
    reveal(starts_with_bytes);
    if p.len() == 0 {
        assert(y.subrange(0, 0) =~= p);
    } else {
        assert(y.len() > 0);
        assert(z[0] == z.subrange(0, p.len() as int)[0]);
        if y[0] == p[0] {
            if y.len() >= p.len() && y.drop_first().subrange(0, p.len() - 1) == p.drop_first() {
                assert(y.subrange(0, p.len() as int) =~= seq![y[0]] + y.drop_first().subrange(0, p.len() - 1));
                assert(p =~= seq![p[0]] + p.drop_first());
            }
            assert(z.drop_first().subrange(0, p.len() - 1) =~= z.subrange(0, p.len() as int).drop_first());
            lemma_past_prefix(y.drop_first(), z.drop_first(), p.drop_first());
        }
    }
}

/// A byte string that starts with `p` is not below `p`.
proof fn lemma_prefixed_not_below(x: Seq<u8>, p: Seq<u8>)
    requires
        starts_with_bytes(x, p),
    ensures
        !bytes_lt(x, p),
{
    if bytes_lt(x, p) {
        lemma_below_not_prefixed(x, p);
    }
}

/// `r` is entries `s` to `s + r.len()` of `dirs`, with all their fields, and those are
/// exactly the entries whose paths start with `p`.
pub open spec fn prefix_run(dirs: Seq<DirTableEntry>, p: Seq<u8>, r: Seq<DirTableEntry>, s: int) -> bool {
    &&& 0 <= s && s + r.len() <= dirs.len()
    &&& forall|i: int| 0 <= i < r.len() ==> #[trigger] r[i].path@ == dirs[s + i].path@
        && r[i].mtime == dirs[s + i].mtime && r[i].ino == dirs[s + i].ino
        && r[i].first_file_id == dirs[s + i].first_file_id && r[i].num_files == dirs[s + i].num_files
    &&& forall|k: int| 0 <= k < dirs.len() ==> (starts_with_bytes(dir_key(#[trigger] dirs[k]), p) <==> s <= k < s + r.len())
}

/// The prefix listing of an index that `into_bytes` wrote gives exactly the added
/// directories whose paths start with `p`, in the order they were added (sorted by path),
/// each with all its fields: they are the entries `s` to `s + r.len()` of the table.
pub proof fn lemma_written_prefix_listing(
    rd: IndexReader,
    b: Seq<u8>,
    files: Seq<FileRecord>,
    tri: Map<u64, Set<u32>>,
    bi: Map<u64, Set<u32>>,
    ext: Map<u64, Set<u32>>,
    dirs: Seq<DirTableEntry>,
    cfg: Seq<u8>,
    p: Seq<u8>,
    r: Seq<DirTableEntry>,
)
    requires
        index_encodes(b, files, tri, bi, ext, dirs, cfg),
        reads_index(rd, b),
        dir_keys_fit(dirs),
        prefix_listing(rd, p, r),
    ensures
        exists|s: int| #[trigger] prefix_run(dirs, p, r, s),
{
    lemma_written_dirs_read_back(rd, b, files, tri, bi, ext, dirs, cfg);
    assert(rd.header.features == 7) by {
        let body = b.subrange(0, b.len() - 4);
        assert(b.subrange(0, body.len() as int) =~= body);
        lemma_decoded_header_prefix(body, b);
    }
    let f: u64 = rd.header.features;
    assert(f & crate::index::header::FEATURE_DIR_TABLE != 0) by (bit_vector)
        requires
            f == 7u64,
    ;
    let n = dirs.len() as int;
    let d = rd.data@;
    let dt = rd.header.dir_table_offset as int;
    if n == 0 {
        assert(r.len() == 0);
        assert(prefix_run(dirs, p, r, 0));
        return;
    }
    let s = choose|s: int|
        #![trigger rd.dir_record_spec(s)]
        0 <= s <= n
        && (forall|j: int| 0 <= j < s ==> bytes_lt(path_of((#[trigger] rd.dir_record_spec(j))), p))
        && (s < n ==> !bytes_lt(path_of(rd.dir_record_spec(s)), p))
        && s + r.len() <= n
        && (forall|i: int| 0 <= i < r.len() ==> run_entry_ok(d, dt, s + i, p, #[trigger] r[i]))
        && (s + r.len() < n ==> !starts_with_bytes(path_of(rd.dir_record_spec(s + r.len())), p));
    assert forall|k: int| 0 <= k < n implies path_of(#[trigger] rd.dir_record_spec(k)) == dir_key(dirs[k]) by {
        assert(record_holds(rd.dir_record_spec(k), dirs[k]));
    }
    assert forall|i: int| 0 <= i < r.len() implies #[trigger] r[i].path@ == dirs[s + i].path@
        && r[i].mtime == dirs[s + i].mtime && r[i].ino == dirs[s + i].ino
        && r[i].first_file_id == dirs[s + i].first_file_id && r[i].num_files == dirs[s + i].num_files by {
        assert(run_entry_ok(d, dt, s + i, p, r[i]));
        assert(record_holds(rd.dir_record_spec(s + i), dirs[s + i]));
        reveal(dir_entry_matches);
        vstd::utf8::encode_utf8_decode_utf8(dirs[s + i].path@);
    }
    let e = s + r.len();
    // the record that ends the run, if any, is not below `p`
    if e < n {
        if r.len() == 0 {
            assert(!bytes_lt(dir_key(dirs[e]), p));
        } else {
            let x = dir_key(dirs[e - 1]);
            let y = dir_key(dirs[e]);
            assert(run_entry_ok(d, dt, s + (r.len() - 1), p, r[r.len() - 1]));
            assert(path_of(rd.dir_record_spec(e - 1)) == x);
            assert(starts_with_bytes(x, p));
            lemma_prefixed_not_below(x, p);
            assert(!bytes_lt(y, x));
            if bytes_lt(y, p) {
                lemma_bytes_lt_total(x, p);
                if x == p {
                } else {
                    lemma_bytes_lt_transitive(y, p, x);
                }
            }
        }
    }
    assert forall|k: int| 0 <= k < dirs.len() implies (starts_with_bytes(dir_key(#[trigger] dirs[k]), p) <==> s <= k < s + r.len()) by {
        if k < s {
            assert(bytes_lt(path_of(rd.dir_record_spec(k)), p));
            lemma_below_not_prefixed(dir_key(dirs[k]), p);
        } else if k < e {
            assert(run_entry_ok(d, dt, s + (k - s), p, r[k - s]));
        } else if k == e {
        } else {
            assert(!bytes_lt(dir_key(dirs[k]), dir_key(dirs[e])));
            if starts_with_bytes(dir_key(dirs[k]), p) {
                lemma_past_prefix(dir_key(dirs[e]), dir_key(dirs[k]), p);
            }
        }
    }
    assert(prefix_run(dirs, p, r, s));
}


/// Looking up a path that no added directory has in an index that `into_bytes` wrote
/// finds nothing.
pub proof fn lemma_written_dir_absent(
    rd: IndexReader,
    b: Seq<u8>,
    files: Seq<FileRecord>,
    tri: Map<u64, Set<u32>>,
    bi: Map<u64, Set<u32>>,
    ext: Map<u64, Set<u32>>,
    dirs: Seq<DirTableEntry>,
    cfg: Seq<u8>,
    key: Seq<u8>,
    r: Option<DirTableEntry>,
)
    requires
        index_encodes(b, files, tri, bi, ext, dirs, cfg),
        reads_index(rd, b),
        dir_keys_fit(dirs),
        forall|k: int| 0 <= k < dirs.len() ==> dir_key(#[trigger] dirs[k]) != key,
        dir_lookup(rd, key, r),
    ensures
        r is None,
{
    lemma_written_dirs_read_back(rd, b, files, tri, bi, ext, dirs, cfg);
    if r is Some {
        let k = choose|k: int|
            0 <= k < rd.header.num_dir_entries && (#[trigger] rd.dir_record_spec(k)) is Some
                && path_of(rd.dir_record_spec(k)) == key && dir_entry_matches(r->0, rd.dir_record_spec(k)->0);
        assert(record_holds(rd.dir_record_spec(k), dirs[k]));
    }
}

} // verus!
