//! What the reader reads back of an index the writer produced.
use vstd::prelude::*;
use vstd::bytes::*;
use roaring::RoaringBitmap;
use crate::bitmap::{roaring_set, roaring_decoded};
use crate::codec::zstd_decompressed;
use crate::index::header::{decoded_header, has_magic, is_truncated_v2_header, version_supported, u32_at, u64_at, lemma_decoded_header_prefix, lemma_subrange_of_prefix, HEADER_SIZE_V1};
use crate::index::image::{index_encodes, body_encodes, files_encoded, table_encodes, slot_pos, slot_key, slot_offset, slot_len, slot_bitmap};
use crate::index::layout::{FileRecord, record_bytes, record_fits, record_pieces, file_dir_bytes, record_offset, pack_be, pow256, bytes_lt, lemma_concat_piece, lemma_concat_prefix, lemma_concat_len, lemma_pack_prepend, lemma_pack_bound, lemma_bytes_lt_total, lemma_bytes_lt_irreflexive, lemma_pack_fits};
use crate::index::reader::{IndexReader, accepted_index, parse_record, lookup_result, slot_bitmap_ok, table_sorted};
use crate::index::stats::{stats_scan, slot_card};

verus! {

/// A record reads back as the record it encodes, when its lengths fit their fields.
pub proof fn lemma_parse_record_bytes(r: FileRecord)
    requires
        record_fits(r),
    ensures
        parse_record(record_bytes(r)) == Some(r),
{
    lemma_auto_spec_u64_to_from_le_bytes();
    lemma_auto_spec_u32_to_from_le_bytes();
    let e = record_bytes(r);
    let pl = r.path.len() as int;
    let ml = r.mime.len() as int;
    let off = 4 + pl;
    assert(e.subrange(0, 4) =~= spec_u32_to_le_bytes(r.path.len() as u32));
    assert(u32_at(e, 0) == pl);
    assert(e.len() == off + 21 + ml);
    assert(e.subrange(4, off) =~= r.path);
    assert(e.subrange(off, off + 8) =~= spec_u64_to_le_bytes(r.size));
    assert(e.subrange(off + 8, off + 16) =~= spec_u64_to_le_bytes(r.mtime as u64));
    assert(e.subrange(off + 16, off + 20) =~= spec_u32_to_le_bytes(r.mode));
    assert(e[off + 20] == r.mime.len() as u8);
    assert(e.subrange(off + 21, off + 21 + ml) =~= r.mime);
    let m = r.mtime;
    assert((m as u64) as i64 == m) by (bit_vector);
}

/// Keys of one length compare by their bytes as their big-endian values do.
pub proof fn lemma_bytes_lt_pack(a: Seq<u8>, b: Seq<u8>)
    requires
        a.len() == b.len(),
        bytes_lt(a, b),
    ensures
        pack_be(a) < pack_be(b),
    decreases a.len(),
{
    let n = a.len();
    let ra = a.drop_first();
    let rb = b.drop_first();
    assert(a =~= seq![a[0]] + ra);
    assert(b =~= seq![b[0]] + rb);
    lemma_pack_prepend(a[0], ra);
    lemma_pack_prepend(b[0], rb);
    let p = pow256(ra.len());
    lemma_pack_bound(ra);
    lemma_pack_bound(rb);
    if a[0] < b[0] {
        let x = a[0] as int;
        let y = b[0] as int;
        let pa = pack_be(ra) as int;
        let pb = pack_be(rb) as int;
        assert(x * p + pa < y * p + pb) by (nonlinear_arith)
            requires
                x < y,
                0 <= pa < p,
                0 <= pb,
        ;
    } else {
        lemma_bytes_lt_pack(ra, rb);
    }
}

/// Keys of one length with smaller big-endian values sort first.
pub proof fn lemma_pack_lt_bytes_lt(a: Seq<u8>, b: Seq<u8>)
    requires
        a.len() == b.len(),
        pack_be(a) < pack_be(b),
    ensures
        bytes_lt(a, b),
{
    lemma_bytes_lt_total(a, b);
    if bytes_lt(b, a) {
        lemma_bytes_lt_pack(b, a);
    }
}

/// Two sequences that agree on a prefix agree on `u64` and `u32` reads inside it.
proof fn lemma_prefix_reads(body: Seq<u8>, b: Seq<u8>, x: int, y: int)
    requires
        body.len() <= b.len(),
        b.subrange(0, body.len() as int) == body,
        0 <= x <= y <= body.len(),
    ensures
        b.subrange(x, y) == body.subrange(x, y),
{
    lemma_subrange_of_prefix(body, b, x, y);
}

/// The bytes of an index, their body without the footer, and a reader over them.
pub open spec fn reads_index(rd: IndexReader, b: Seq<u8>) -> bool {
    rd.data@ == b && rd.header == decoded_header(b)
}

/// An index that `into_bytes` wrote passes `from_bytes`: its checksum matches and its
/// header decodes to the counts it was written with.
pub proof fn lemma_written_index_accepted(
    b: Seq<u8>,
    files: Seq<FileRecord>,
    tri: Map<u64, Set<u32>>,
    bi: Map<u64, Set<u32>>,
    ext: Map<u64, Set<u32>>,
    dirs: Seq<crate::index::dir::DirTableEntry>,
    cfg: Seq<u8>,
)
    requires
        index_encodes(b, files, tri, bi, ext, dirs, cfg),
    ensures
        accepted_index(b),
        !is_truncated_v2_header(b),
        decoded_header(b) == decoded_header(b.subrange(0, b.len() - 4)),
        decoded_header(b).num_files == files.len(),
        decoded_header(b).num_dir_entries == dirs.len(),
{
    let body = b.subrange(0, b.len() - 4);
    assert(b.subrange(0, body.len() as int) =~= body);
    lemma_decoded_header_prefix(body, b);
}

/// A table that encodes `docs` has one slot per key: its count is the number of keys.
proof fn lemma_table_count(d: Seq<u8>, dir: int, n: int, kl: int, bm: int, docs: Map<u64, Set<u32>>)
    requires
        table_encodes(d, dir, n, kl, bm, docs),
        0 <= n,
    ensures
        docs.dom().finite(),
        docs.dom().len() == n,
{
    let ks = Seq::new(n as nat, |j: int| pack_be(slot_key(d, dir, j, kl)) as u64);
    assert(ks.no_duplicates()) by {
        assert forall|i: int, j: int| 0 <= i < ks.len() && 0 <= j < ks.len() && i != j implies ks[i] != ks[j] by {
            let _ = slot_key(d, dir, i, kl);
            let _ = slot_key(d, dir, j, kl);
        }
    }
    assert(ks.to_set() =~= docs.dom()) by {
        assert forall|k: u64| ks.to_set().contains(k) <==> docs.dom().contains(k) by {
            if docs.dom().contains(k) {
                let j = choose|j: int| 0 <= j < n && pack_be(#[trigger] slot_key(d, dir, j, kl)) == k;
                assert(ks[j] == k);
            }
            if ks.to_set().contains(k) {
                let j = choose|j: int| 0 <= j < ks.len() && ks[j] == k;
                let _ = slot_key(d, dir, j, kl);
            }
        }
    }
    ks.unique_seq_to_set();
}

/// The header of an index that `into_bytes` wrote gives the format version, all three
/// features, and the counts it was written with: files, trigram, bigram and extension
/// keys, and directories.
pub proof fn lemma_written_header_counts(
    b: Seq<u8>,
    files: Seq<FileRecord>,
    tri: Map<u64, Set<u32>>,
    bi: Map<u64, Set<u32>>,
    ext: Map<u64, Set<u32>>,
    dirs: Seq<crate::index::dir::DirTableEntry>,
    cfg: Seq<u8>,
)
    requires
        index_encodes(b, files, tri, bi, ext, dirs, cfg),
    ensures
        decoded_header(b).version == crate::index::header::FORMAT_VERSION,
        decoded_header(b).features == 7,
        decoded_header(b).num_files == files.len(),
        decoded_header(b).num_trigrams == tri.dom().len(),
        decoded_header(b).num_bi_gram_entries == bi.dom().len(),
        decoded_header(b).num_ext_entries == ext.dom().len(),
        decoded_header(b).num_dir_entries == dirs.len(),
{
    let body = b.subrange(0, b.len() - 4);
    assert(b.subrange(0, body.len() as int) =~= body);
    lemma_decoded_header_prefix(body, b);
    let h = decoded_header(body);
    lemma_table_count(body, h.trigram_dir_offset as int, h.num_trigrams as int, 3, h.bitmap_data_offset as int, tri);
    lemma_table_count(body, h.bi_gram_dir_offset as int, h.num_bi_gram_entries as int, 2, h.bitmap_data_offset as int, bi);
    lemma_table_count(body, h.ext_bitmap_dir_offset as int, h.num_ext_entries as int, 8, h.bitmap_data_offset as int, ext);
}

/// Every file of an index that `into_bytes` wrote reads back as it was added, when its
/// path fits a `u32` length and its MIME type a one-byte length.
pub proof fn lemma_written_files_read_back(
    rd: IndexReader,
    b: Seq<u8>,
    files: Seq<FileRecord>,
    tri: Map<u64, Set<u32>>,
    bi: Map<u64, Set<u32>>,
    ext: Map<u64, Set<u32>>,
    dirs: Seq<crate::index::dir::DirTableEntry>,
    cfg: Seq<u8>,
    i: int,
)
    requires
        index_encodes(b, files, tri, bi, ext, dirs, cfg),
        reads_index(rd, b),
        0 <= i < files.len(),
    ensures
        rd.entry_readable(i),
        record_fits(files[i]) ==> rd.file_record(i) == Some(files[i]),
{
    let body = b.subrange(0, b.len() - 4);
    assert(b.subrange(0, body.len() as int) =~= body);
    lemma_decoded_header_prefix(body, b);
    let h = decoded_header(b);
    let fd = h.file_dir_offset as int;
    let fo = h.file_offset_dir_offset as int;
    assert(files_encoded(body, fd, fo, files));
    let pieces = record_pieces(files);
    let fdb = file_dir_bytes(files);
    lemma_concat_piece(pieces, i);
    lemma_concat_prefix(pieces, i + 1);
    assert(u64_at(body, fo + 8 * i) == record_offset(files, i));
    assert(u64_at(body, fo + 8 * (i + 1)) == record_offset(files, i + 1));
    lemma_prefix_reads(body, b, fo + 8 * i, fo + 8 * i + 8);
    lemma_prefix_reads(body, b, fo + 8 * i + 8, fo + 8 * i + 16);
    assert(rd.offset_slot(i) == fo + 8 * i);
    assert(u64_at(b, fo + 8 * i) == record_offset(files, i));
    assert(u64_at(b, fo + 8 * i + 8) == record_offset(files, i + 1));
    let s = record_offset(files, i);
    let t = record_offset(files, i + 1);
    assert(t <= fdb.len());
    lemma_prefix_reads(body, b, fd + s, fd + t);
    assert(body.subrange(fd + s, fd + t) =~= body.subrange(fd, fd + fdb.len()).subrange(s, t));
    assert(pieces[i] == record_bytes(files[i]));
    assert(rd.entry_bytes(i) == record_bytes(files[i]));
    if record_fits(files[i]) {
        lemma_parse_record_bytes(files[i]);
    }
}

/// The configuration of an index that `into_bytes` wrote decompresses to the JSON text it
/// was written with.
pub proof fn lemma_written_config_read_back(
    rd: IndexReader,
    b: Seq<u8>,
    files: Seq<FileRecord>,
    tri: Map<u64, Set<u32>>,
    bi: Map<u64, Set<u32>>,
    ext: Map<u64, Set<u32>>,
    dirs: Seq<crate::index::dir::DirTableEntry>,
    cfg: Seq<u8>,
)
    requires
        index_encodes(b, files, tri, bi, ext, dirs, cfg),
        reads_index(rd, b),
    ensures
        ({
            let start = rd.header.config_offset as int;
            let end = start + rd.header.config_len;
            end <= b.len() && zstd_decompressed(b.subrange(start, end)) == Some(cfg)
        }),
{
    let body = b.subrange(0, b.len() - 4);
    assert(b.subrange(0, body.len() as int) =~= body);
    lemma_decoded_header_prefix(body, b);
    let h = decoded_header(b);
    lemma_prefix_reads(body, b, h.config_offset as int, h.config_offset + h.config_len);
}

/// A table the writer laid down, read in the whole index: it lies inside the data, is
/// sorted, and a lookup of any key finds exactly the documents recorded under it.
pub proof fn lemma_table_lookup(
    body: Seq<u8>,
    b: Seq<u8>,
    dir: int,
    n: int,
    kl: int,
    bm: int,
    docs: Map<u64, Set<u32>>,
    key: Seq<u8>,
    r: Option<RoaringBitmap>,
)
    requires
        table_encodes(body, dir, n, kl, bm, docs),
        body.len() <= b.len(),
        b.subrange(0, body.len() as int) == body,
        key.len() == kl,
        1 <= kl <= 8,
        0 <= n,
        lookup_result(b, dir, n, kl, bm, key, r),
    ensures
        r is Some <==> docs.contains_key(pack_be(key) as u64),
        r matches Some(x) ==> roaring_set(x) == docs[pack_be(key) as u64],
{
    lemma_pack_fits(key);
    lemma_table_slots(body, b, dir, n, kl, bm, docs);
    let k = pack_be(key) as u64;
    if docs.contains_key(k) {
        let j = choose|j: int| 0 <= j < n && pack_be(#[trigger] slot_key(body, dir, j, kl)) == k;
        assert(slot_key(b, dir, j, kl) == slot_key(body, dir, j, kl));
        lemma_pack_fits(slot_key(body, dir, j, kl));
        crate::index::layout::lemma_pack_injective(slot_key(body, dir, j, kl), key);
        assert(slot_bitmap_ok(b, dir, j, kl, bm));
        assert(r is Some);
    }
    if let Some(x) = r {
        let j = choose|j: int|
            0 <= j < n && slot_pos(dir, j + 1, kl) <= b.len() && #[trigger] slot_key(b, dir, j, kl) == key
                && slot_bitmap_ok(b, dir, j, kl, bm) && roaring_decoded(slot_bitmap(b, dir, j, kl, bm))
                == Some(roaring_set(x));
        assert(slot_key(b, dir, j, kl) == slot_key(body, dir, j, kl));
        assert(docs.contains_key(pack_be(slot_key(body, dir, j, kl)) as u64));
    }
}

/// The documents a table the writer laid down records under `key`, read in the whole
/// index, are those it was written with, and none for a key it was not.
pub proof fn lemma_table_docs(
    body: Seq<u8>,
    b: Seq<u8>,
    dir: int,
    n: int,
    kl: int,
    bm: int,
    docs: Map<u64, Set<u32>>,
    key: Seq<u8>,
)
    requires
        table_encodes(body, dir, n, kl, bm, docs),
        body.len() <= b.len(),
        b.subrange(0, body.len() as int) == body,
        key.len() == kl,
        1 <= kl <= 8,
        0 <= n,
    ensures
        crate::index::search::table_docs(b, dir, n, kl, bm, key) == crate::index::writer::docs_at(docs, pack_be(key) as u64),
{
    lemma_pack_fits(key);
    lemma_table_slots(body, b, dir, n, kl, bm, docs);
    let k = pack_be(key) as u64;
    if docs.contains_key(k) {
        let j = choose|j: int| 0 <= j < n && pack_be(#[trigger] slot_key(body, dir, j, kl)) == k;
        assert(slot_key(b, dir, j, kl) == slot_key(body, dir, j, kl));
        lemma_pack_fits(slot_key(body, dir, j, kl));
        crate::index::layout::lemma_pack_injective(slot_key(body, dir, j, kl), key);
        assert(slot_bitmap_ok(b, dir, j, kl, bm));
        let j2 = choose|j: int| 0 <= j < n && #[trigger] slot_key(b, dir, j, kl) == key && slot_bitmap_ok(b, dir, j, kl, bm);
        assert(slot_key(b, dir, j2, kl) == slot_key(body, dir, j2, kl));
    } else {
        if exists|j: int| 0 <= j < n && #[trigger] slot_key(b, dir, j, kl) == key && slot_bitmap_ok(b, dir, j, kl, bm) {
            let j2 = choose|j: int| 0 <= j < n && #[trigger] slot_key(b, dir, j, kl) == key && slot_bitmap_ok(b, dir, j, kl, bm);
            assert(slot_key(b, dir, j2, kl) == slot_key(body, dir, j2, kl));
            assert(docs.contains_key(pack_be(slot_key(body, dir, j2, kl)) as u64));
        }
    }
}

/// Every slot of a table the writer laid down reads the same in the whole index, its
/// bitmap decodes to the documents of its key, and the table is sorted.
proof fn lemma_table_slots(
    body: Seq<u8>,
    b: Seq<u8>,
    dir: int,
    n: int,
    kl: int,
    bm: int,
    docs: Map<u64, Set<u32>>,
)
    requires
        table_encodes(body, dir, n, kl, bm, docs),
        body.len() <= b.len(),
        b.subrange(0, body.len() as int) == body,
        1 <= kl <= 8,
        0 <= n,
    ensures
        forall|j: int| 0 <= j < n ==> #[trigger] slot_key(b, dir, j, kl) == slot_key(body, dir, j, kl)
            && slot_pos(dir, j + 1, kl) <= body.len()
            && slot_key(body, dir, j, kl).len() == kl,
        forall|j: int| 0 <= j < n ==> #[trigger] slot_bitmap_ok(b, dir, j, kl, bm)
            && roaring_decoded(slot_bitmap(b, dir, j, kl, bm)) == Some(docs[pack_be(slot_key(body, dir, j, kl)) as u64]),
        slot_pos(dir, n, kl) <= b.len(),
        table_sorted(b, dir, n, kl),
{
    assert(0 <= n * (kl + 12)) by (nonlinear_arith)
        requires
            0 <= n,
            0 <= kl,
    ;
    // every slot of the table reads the same in the whole index
    assert forall|j: int| 0 <= j < n implies #[trigger] slot_key(b, dir, j, kl) == slot_key(body, dir, j, kl)
        && slot_offset(b, dir, j, kl) == slot_offset(body, dir, j, kl)
        && slot_len(b, dir, j, kl) == slot_len(body, dir, j, kl)
        && slot_pos(dir, j + 1, kl) <= body.len()
        && slot_key(body, dir, j, kl).len() == kl by {
        assert(j * (kl + 12) + kl + 12 <= n * (kl + 12)) by (nonlinear_arith)
            requires
                0 <= j < n,
                0 <= kl,
        ;
        assert(0 <= j * (kl + 12)) by (nonlinear_arith)
            requires
                0 <= j,
                0 <= kl,
        ;
        assert((j + 1) * (kl + 12) == j * (kl + 12) + kl + 12) by (nonlinear_arith);
        let p = slot_pos(dir, j, kl);
        lemma_prefix_reads(body, b, p, p + kl);
        lemma_prefix_reads(body, b, p + kl, p + kl + 8);
        lemma_prefix_reads(body, b, p + kl + 8, p + kl + 12);
    }
    assert forall|j: int| 0 <= j < n implies #[trigger] slot_bitmap(b, dir, j, kl, bm) == slot_bitmap(body, dir, j, kl, bm)
        && slot_bitmap_ok(b, dir, j, kl, bm)
        && roaring_decoded(slot_bitmap(b, dir, j, kl, bm)) == Some(docs[pack_be(slot_key(body, dir, j, kl)) as u64]) by {
        assert(slot_key(b, dir, j, kl) == slot_key(body, dir, j, kl));
        let o = bm + slot_offset(body, dir, j, kl);
        lemma_prefix_reads(body, b, o, o + slot_len(body, dir, j, kl));
    }
    assert(slot_pos(dir, n, kl) <= b.len());
    assert(table_sorted(b, dir, n, kl)) by {
        assert forall|i: int, j: int| 0 <= i < j < n implies bytes_lt(#[trigger] slot_key(b, dir, i, kl), #[trigger] slot_key(b, dir, j, kl)) by {
            assert(slot_key(b, dir, i, kl) == slot_key(body, dir, i, kl));
            assert(slot_key(b, dir, j, kl) == slot_key(body, dir, j, kl));
            lemma_pack_lt_bytes_lt(slot_key(body, dir, i, kl), slot_key(body, dir, j, kl));
        }
    }
}

/// The body of a written index is a prefix of it, and the header reads the same in both.
proof fn lemma_body_prefix(b: Seq<u8>)
    requires
        b.len() >= 4 + 128,
    ensures
        b.subrange(0, b.len() - 4).len() <= b.len(),
        b.subrange(0, b.subrange(0, b.len() - 4).len() as int) == b.subrange(0, b.len() - 4),
        decoded_header(b) == decoded_header(b.subrange(0, b.len() - 4)),
{
    let body = b.subrange(0, b.len() - 4);
    assert(b.subrange(0, body.len() as int) =~= body);
    lemma_decoded_header_prefix(body, b);
}

/// Looking a trigram up in an index that `into_bytes` wrote finds exactly the documents
/// that were added with it, and nothing for a trigram that was never added.
pub proof fn lemma_written_trigram_lookup(
    rd: IndexReader,
    b: Seq<u8>,
    files: Seq<FileRecord>,
    tri: Map<u64, Set<u32>>,
    bi: Map<u64, Set<u32>>,
    ext: Map<u64, Set<u32>>,
    dirs: Seq<crate::index::dir::DirTableEntry>,
    cfg: Seq<u8>,
    key: Seq<u8>,
    r: Option<RoaringBitmap>,
)
    requires
        index_encodes(b, files, tri, bi, ext, dirs, cfg),
        reads_index(rd, b),
        key.len() == 3,
        lookup_result(
            b,
            rd.header.trigram_dir_offset as int,
            rd.header.num_trigrams as int,
            3,
            rd.header.bitmap_data_offset as int,
            key,
            r,
        ),
    ensures
        r is Some <==> tri.contains_key(pack_be(key) as u64),
        r matches Some(x) ==> roaring_set(x) == tri[pack_be(key) as u64],
{
    lemma_body_prefix(b);
    let body = b.subrange(0, b.len() - 4);
    let h = decoded_header(body);
    lemma_table_lookup(body, b, h.trigram_dir_offset as int, h.num_trigrams as int, 3, h.bitmap_data_offset as int, tri, key, r);
}

/// The documents an index that `into_bytes` wrote records under a trigram key are
/// exactly those that were added with it.
pub proof fn lemma_written_trigram_docs(
    rd: IndexReader,
    b: Seq<u8>,
    files: Seq<FileRecord>,
    tri: Map<u64, Set<u32>>,
    bi: Map<u64, Set<u32>>,
    ext: Map<u64, Set<u32>>,
    dirs: Seq<crate::index::dir::DirTableEntry>,
    cfg: Seq<u8>,
    key: Seq<u8>,
)
    requires
        index_encodes(b, files, tri, bi, ext, dirs, cfg),
        reads_index(rd, b),
        key.len() == 3,
    ensures
        rd.tri_docs(key) == crate::index::writer::docs_at(tri, pack_be(key) as u64),
{
    lemma_body_prefix(b);
    let body = b.subrange(0, b.len() - 4);
    let h = decoded_header(body);
    lemma_table_docs(body, b, h.trigram_dir_offset as int, h.num_trigrams as int, 3, h.bitmap_data_offset as int, tri, key);
}

/// The documents an index that `into_bytes` wrote records under a bigram key are
/// exactly those that were added with it.
pub proof fn lemma_written_bigram_docs(
    rd: IndexReader,
    b: Seq<u8>,
    files: Seq<FileRecord>,
    tri: Map<u64, Set<u32>>,
    bi: Map<u64, Set<u32>>,
    ext: Map<u64, Set<u32>>,
    dirs: Seq<crate::index::dir::DirTableEntry>,
    cfg: Seq<u8>,
    key: Seq<u8>,
)
    requires
        index_encodes(b, files, tri, bi, ext, dirs, cfg),
        reads_index(rd, b),
        key.len() == 2,
    ensures
        rd.bi_docs(key) == crate::index::writer::docs_at(bi, pack_be(key) as u64),
{
    lemma_body_prefix(b);
    let body = b.subrange(0, b.len() - 4);
    let h = decoded_header(body);
    lemma_table_docs(body, b, h.bi_gram_dir_offset as int, h.num_bi_gram_entries as int, 2, h.bitmap_data_offset as int, bi, key);
    let f: u64 = h.features;
    assert(f & crate::index::header::FEATURE_BIGRAM_INDEX != 0) by (bit_vector)
        requires
            f == 7u64,
    ;
    if h.num_bi_gram_entries == 0 {
        assert(!bi.contains_key(pack_be(key) as u64));
    }
}

/// Looking a bigram up in an index that `into_bytes` wrote finds exactly the documents
/// that were added with it.
pub proof fn lemma_written_bigram_lookup(
    rd: IndexReader,
    b: Seq<u8>,
    files: Seq<FileRecord>,
    tri: Map<u64, Set<u32>>,
    bi: Map<u64, Set<u32>>,
    ext: Map<u64, Set<u32>>,
    dirs: Seq<crate::index::dir::DirTableEntry>,
    cfg: Seq<u8>,
    key: Seq<u8>,
    r: Option<RoaringBitmap>,
)
    requires
        index_encodes(b, files, tri, bi, ext, dirs, cfg),
        reads_index(rd, b),
        key.len() == 2,
        (rd.header.features & crate::index::header::FEATURE_BIGRAM_INDEX == 0 || rd.header.num_bi_gram_entries == 0) ==> r is None,
        (rd.header.features & crate::index::header::FEATURE_BIGRAM_INDEX != 0 && rd.header.num_bi_gram_entries != 0) ==> lookup_result(
            b,
            rd.header.bi_gram_dir_offset as int,
            rd.header.num_bi_gram_entries as int,
            2,
            rd.header.bitmap_data_offset as int,
            key,
            r,
        ),
    ensures
        r is Some <==> bi.contains_key(pack_be(key) as u64),
        r matches Some(x) ==> roaring_set(x) == bi[pack_be(key) as u64],
{
    lemma_body_prefix(b);
    let body = b.subrange(0, b.len() - 4);
    let h = decoded_header(body);
    assert(7u64 & 4u64 != 0) by (bit_vector);
    if h.num_bi_gram_entries == 0 {
        if bi.contains_key(pack_be(key) as u64) {
            let j = choose|j: int| 0 <= j < 0 && pack_be(#[trigger] slot_key(body, h.bi_gram_dir_offset as int, j, 2)) == pack_be(key) as u64;
        }
    } else {
        lemma_table_lookup(body, b, h.bi_gram_dir_offset as int, h.num_bi_gram_entries as int, 2, h.bitmap_data_offset as int, bi, key, r);
    }
}

/// Looking an extension up in an index that `into_bytes` wrote finds exactly the
/// documents added with that eight-byte key.
pub proof fn lemma_written_ext_lookup(
    rd: IndexReader,
    b: Seq<u8>,
    files: Seq<FileRecord>,
    tri: Map<u64, Set<u32>>,
    bi: Map<u64, Set<u32>>,
    ext: Map<u64, Set<u32>>,
    dirs: Seq<crate::index::dir::DirTableEntry>,
    cfg: Seq<u8>,
    key: Seq<u8>,
    r: Option<RoaringBitmap>,
)
    requires
        index_encodes(b, files, tri, bi, ext, dirs, cfg),
        reads_index(rd, b),
        key.len() == 8,
        (rd.header.features & crate::index::header::FEATURE_EXT_INDEX == 0 || rd.header.num_ext_entries == 0) ==> r is None,
        (rd.header.features & crate::index::header::FEATURE_EXT_INDEX != 0 && rd.header.num_ext_entries != 0) ==> lookup_result(
            b,
            rd.header.ext_bitmap_dir_offset as int,
            rd.header.num_ext_entries as int,
            8,
            rd.header.bitmap_data_offset as int,
            key,
            r,
        ),
    ensures
        r is Some <==> ext.contains_key(pack_be(key) as u64),
        r matches Some(x) ==> roaring_set(x) == ext[pack_be(key) as u64],
{
    lemma_body_prefix(b);
    let body = b.subrange(0, b.len() - 4);
    let h = decoded_header(body);
    assert(7u64 & 2u64 != 0) by (bit_vector);
    if h.num_ext_entries == 0 {
        if ext.contains_key(pack_be(key) as u64) {
            let j = choose|j: int| 0 <= j < 0 && pack_be(#[trigger] slot_key(body, h.ext_bitmap_dir_offset as int, j, 8)) == pack_be(key) as u64;
        }
    } else {
        lemma_table_lookup(body, b, h.ext_bitmap_dir_offset as int, h.num_ext_entries as int, 8, h.bitmap_data_offset as int, ext, key, r);
    }
}


/// The number of documents of the keys `ks` together, each key's set counted once per
/// listing.
pub open spec fn docs_total(m: Map<u64, Set<u32>>, ks: Seq<u64>) -> int
    decreases ks.len(),
{
    if ks.len() == 0 {
        0
    } else {
        docs_total(m, ks.drop_last()) + m[ks.last()].len()
    }
}

/// The largest number of documents of any of the keys `ks`; 0 for none.
pub open spec fn docs_max(m: Map<u64, Set<u32>>, ks: Seq<u64>) -> int
    decreases ks.len(),
{
    if ks.len() == 0 {
        0
    } else {
        let rest = docs_max(m, ks.drop_last());
        if m[ks.last()].len() > rest { m[ks.last()].len() as int } else { rest }
    }
}

/// The smallest number of documents of any of the keys `ks`; 0 for none.
pub open spec fn docs_min(m: Map<u64, Set<u32>>, ks: Seq<u64>) -> int
    decreases ks.len(),
{
    if ks.len() == 0 {
        0
    } else if ks.len() == 1 {
        m[ks[0]].len() as int
    } else {
        let rest = docs_min(m, ks.drop_last());
        if m[ks.last()].len() < rest { m[ks.last()].len() as int } else { rest }
    }
}

/// Scanning the first `k` slots of a trigram table whose slots all lie in the data and
/// decode to the documents of the keys `ks` never stops early, and counts the documents
/// of the first `k` keys.
proof fn lemma_stats_prefix(b: Seq<u8>, dir: int, n: int, bm: int, tri: Map<u64, Set<u32>>, ks: Seq<u64>, k: nat)
    requires
        k <= n,
        ks.len() == n,
        forall|j: int|
            0 <= j < n ==> #[trigger] slot_bitmap_ok(b, dir, j, 3, bm) && slot_pos(dir, j + 1, 3) <= b.len()
                && roaring_decoded(slot_bitmap(b, dir, j, 3, bm)) == Some(tri[ks[j]]),
    ensures
        !stats_scan(b, dir, bm, n, k).4,
        stats_scan(b, dir, bm, n, k).1 == docs_total(tri, ks.take(k as int)),
        stats_scan(b, dir, bm, n, k).3 == docs_max(tri, ks.take(k as int)),
        (forall|j: int| 0 <= j < n ==> tri[#[trigger] ks[j]].len() > 0) ==> stats_scan(b, dir, bm, n, k).2 == docs_min(
            tri,
            ks.take(k as int),
        ),
    decreases k,
{
    if k > 0 {
        let j = k - 1;
        lemma_stats_prefix(b, dir, n, bm, tri, ks, j as nat);
        assert(slot_bitmap_ok(b, dir, j, 3, bm));
        assert(slot_card(b, dir, j, bm) == tri[ks[j]].len());
        assert(ks.take(k as int).drop_last() =~= ks.take(j));
        assert(ks.take(k as int).last() == ks[j]);
    }
}

/// The documents-per-trigram statistics of an index that `into_bytes` wrote, over the
/// trigram keys that were added (listed once each, in increasing order): the total (what
/// `trigram_stats` reports, modulo 2^64) is the sum of how many documents each key was
/// added with, the most is the largest of those counts, and the least the smallest when
/// no key was added with an empty set.
pub proof fn lemma_written_stats_total(
    rd: IndexReader,
    b: Seq<u8>,
    files: Seq<FileRecord>,
    tri: Map<u64, Set<u32>>,
    bi: Map<u64, Set<u32>>,
    ext: Map<u64, Set<u32>>,
    dirs: Seq<crate::index::dir::DirTableEntry>,
    cfg: Seq<u8>,
)
    requires
        index_encodes(b, files, tri, bi, ext, dirs, cfg),
        reads_index(rd, b),
    ensures
        exists|ks: Seq<u64>|
            #![trigger docs_total(tri, ks)]
            {
                &&& forall|i: int, j: int| 0 <= i < j < ks.len() ==> ks[i] < ks[j]
                &&& forall|key: u64| tri.contains_key(key) <==> ks.contains(key)
                &&& stats_scan(
                    b,
                    rd.header.trigram_dir_offset as int,
                    rd.header.bitmap_data_offset as int,
                    rd.header.num_trigrams as int,
                    rd.header.num_trigrams as nat,
                ).1 == docs_total(tri, ks)
                &&& stats_scan(
                    b,
                    rd.header.trigram_dir_offset as int,
                    rd.header.bitmap_data_offset as int,
                    rd.header.num_trigrams as int,
                    rd.header.num_trigrams as nat,
                ).3 == docs_max(tri, ks)
                &&& (forall|key: u64| tri.contains_key(key) ==> tri[key].len() > 0) ==> stats_scan(
                    b,
                    rd.header.trigram_dir_offset as int,
                    rd.header.bitmap_data_offset as int,
                    rd.header.num_trigrams as int,
                    rd.header.num_trigrams as nat,
                ).2 == docs_min(tri, ks)
            },
{
    lemma_body_prefix(b);
    let body = b.subrange(0, b.len() - 4);
    let h = decoded_header(body);
    let dir = h.trigram_dir_offset as int;
    let n = h.num_trigrams as int;
    let bm = h.bitmap_data_offset as int;
    assert(table_encodes(body, dir, n, 3, bm, tri));
    lemma_table_slots(body, b, dir, n, 3, bm, tri);
    let ks = Seq::new(n as nat, |j: int| pack_be(slot_key(body, dir, j, 3)) as u64);
    assert forall|j: int| 0 <= j < n implies #[trigger] slot_bitmap_ok(b, dir, j, 3, bm) && slot_pos(dir, j + 1, 3) <= b.len()
        && roaring_decoded(slot_bitmap(b, dir, j, 3, bm)) == Some(tri[ks[j]]) by {
        assert(slot_key(b, dir, j, 3) == slot_key(body, dir, j, 3));
        assert(ks[j] == pack_be(slot_key(body, dir, j, 3)) as u64);
        assert(slot_bitmap_ok(b, dir, j, 3, bm));
        assert(slot_pos(dir, j + 1, 3) <= b.len());
    }
    lemma_stats_prefix(b, dir, n, bm, tri, ks, n as nat);
    assert(ks.take(n) =~= ks);
    assert forall|i: int, j: int| 0 <= i < j < ks.len() implies ks[i] < ks[j] by {
        let _ = slot_key(body, dir, i, 3);
        let _ = slot_key(body, dir, j, 3);
    }
    assert forall|key: u64| tri.contains_key(key) <==> ks.contains(key) by {
        if tri.contains_key(key) {
            let j = choose|j: int| 0 <= j < n && pack_be(#[trigger] slot_key(body, dir, j, 3)) == key;
            assert(ks[j] == key);
        }
        if ks.contains(key) {
            let j = choose|j: int| 0 <= j < ks.len() && ks[j] == key;
            let _ = slot_key(body, dir, j, 3);
        }
    }
    assert forall|j: int| 0 <= j < n implies tri.contains_key(#[trigger] ks[j]) by {
        let _ = slot_key(body, dir, j, 3);
    }
    assert(docs_total(tri, ks) == docs_total(tri, ks));
}

} // verus!
