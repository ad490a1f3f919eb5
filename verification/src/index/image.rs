//! What a complete index file holds, stated over its bytes: the header, the compressed
//! configuration, the file directory and its offset table, the three bitmap tables and
//! the directory table, and the CRC-32 footer.
use vstd::prelude::*;
use vstd::bytes::*;
use crate::bitmap::roaring_decoded;
use crate::codec::{crc32_of, zstd_decompressed};
use crate::index::header::{Header, header_bytes, decoded_header, has_magic, u32_at, u64_at, FORMAT_VERSION, HEADER_SIZE_V2, lemma_header_roundtrip, lemma_header_bytes_fields, lemma_decoded_header_prefix};
use crate::index::header::{push_u64, push_u32, push_bytes};
use crate::index::layout::{FileRecord, record_pieces, file_dir_bytes, record_offset, pack_be, concat, pow256, unpack_key, lemma_concat_push, u64_pieces, lemma_concat_fixed, lemma_concat_len, lemma_concat_piece};
use crate::index::dir::DirTableEntry;
use crate::index::writer::{dir_key, dirs_sorted};

verus! {

/// The byte size of a slot in a bitmap table whose keys are `kl` bytes long.
pub open spec fn slot_size(kl: int) -> int {
    kl + 12
}

/// Where slot `j` of the table at `dir` starts.
pub open spec fn slot_pos(dir: int, j: int, kl: int) -> int {
    dir + j * slot_size(kl)
}

/// The key bytes of slot `j`.
pub open spec fn slot_key(d: Seq<u8>, dir: int, j: int, kl: int) -> Seq<u8> {
    d.subrange(slot_pos(dir, j, kl), slot_pos(dir, j, kl) + kl)
}

/// The bitmap offset (relative to the bitmap region) that slot `j` records.
pub open spec fn slot_offset(d: Seq<u8>, dir: int, j: int, kl: int) -> u64 {
    u64_at(d, slot_pos(dir, j, kl) + kl)
}

/// The bitmap length that slot `j` records.
pub open spec fn slot_len(d: Seq<u8>, dir: int, j: int, kl: int) -> u32 {
    u32_at(d, slot_pos(dir, j, kl) + kl + 8)
}

/// The serialized bitmap that slot `j` points at.
pub open spec fn slot_bitmap(d: Seq<u8>, dir: int, j: int, kl: int, bm: int) -> Seq<u8> {
    d.subrange(
        bm + slot_offset(d, dir, j, kl),
        bm + slot_offset(d, dir, j, kl) + slot_len(d, dir, j, kl),
    )
}

/// The table of `n` slots at `dir` maps exactly the keys of `docs`, in strictly
/// increasing key order, each to a bitmap inside the data that decodes to its documents.
pub open spec fn table_encodes(
    d: Seq<u8>,
    dir: int,
    n: int,
    kl: int,
    bm: int,
    docs: Map<u64, Set<u32>>,
) -> bool {
    &&& 0 <= dir
    &&& 0 <= bm
    &&& slot_pos(dir, n, kl) <= d.len()
    &&& forall|j: int|
        #![trigger slot_key(d, dir, j, kl)]
        0 <= j < n ==> {
            &&& docs.contains_key(pack_be(slot_key(d, dir, j, kl)) as u64)
            &&& pack_be(slot_key(d, dir, j, kl)) <= u64::MAX
            &&& bm + slot_offset(d, dir, j, kl) + slot_len(d, dir, j, kl) <= d.len()
            &&& roaring_decoded(slot_bitmap(d, dir, j, kl, bm)) == Some(
                docs[pack_be(slot_key(d, dir, j, kl)) as u64],
            )
        }
    &&& forall|i: int, j: int|
        0 <= i < j < n ==> pack_be(#[trigger] slot_key(d, dir, i, kl)) < pack_be(
            #[trigger] slot_key(d, dir, j, kl),
        )
    &&& forall|k: u64|
        docs.contains_key(k) ==> exists|j: int|
            0 <= j < n && pack_be(#[trigger] slot_key(d, dir, j, kl)) == k
}

/// The file directory and its offset table hold the records of `files`: the table has
/// one offset per file and a final one at the directory's end.
pub open spec fn files_encoded(d: Seq<u8>, fd: int, fo: int, files: Seq<FileRecord>) -> bool {
    &&& 0 <= fd
    &&& 0 <= fo
    &&& fd + file_dir_bytes(files).len() <= d.len()
    &&& fo + 8 * (files.len() + 1) <= d.len()
    &&& d.subrange(fd, fd + file_dir_bytes(files).len()) == file_dir_bytes(files)
    &&& forall|i: int|
        0 <= i <= files.len() ==> #[trigger] u64_at(d, fo + 8 * i) == record_offset(files, i)
}

/// A directory entry's bytes in the directory table: path length (u32), path, mtime,
/// inode, first file id, file count.
pub open spec fn dir_record_bytes(e: DirTableEntry) -> Seq<u8> {
    spec_u32_to_le_bytes(dir_key(e).len() as u32) + dir_key(e) + spec_u64_to_le_bytes(
        e.mtime as u64,
    ) + spec_u64_to_le_bytes(e.ino) + spec_u32_to_le_bytes(e.first_file_id)
        + spec_u32_to_le_bytes(e.num_files)
}

pub open spec fn dir_pieces(dirs: Seq<DirTableEntry>) -> Seq<Seq<u8>> {
    dirs.map_values(|e: DirTableEntry| dir_record_bytes(e))
}

/// The directory table between `start` and `end` holds `dirs`, sorted by path.
pub open spec fn dirs_encoded(d: Seq<u8>, start: int, end: int, dirs: Seq<DirTableEntry>) -> bool {
    &&& 0 <= start <= end <= d.len()
    &&& d.subrange(start, end) == concat(dir_pieces(dirs))
    &&& dirs_sorted(dirs)
}

/// The bytes of an index without its footer, as the writer lays them out around the
/// stored configuration bytes `cfg`: the header, `cfg` right after it, the file
/// directory, the three tables, the directory table and the bitmaps.
pub open spec fn body_lays_out(
    d: Seq<u8>,
    files: Seq<FileRecord>,
    tri: Map<u64, Set<u32>>,
    bi: Map<u64, Set<u32>>,
    ext: Map<u64, Set<u32>>,
    dirs: Seq<DirTableEntry>,
    cfg: Seq<u8>,
) -> bool {
    let h = decoded_header(d);
    &&& d.len() >= HEADER_SIZE_V2
    &&& has_magic(d)
    &&& u32_at(d, 8) == FORMAT_VERSION
    &&& h.num_files == files.len()
    &&& h.features == 7
    &&& files_encoded(d, h.file_dir_offset as int, h.file_offset_dir_offset as int, files)
    &&& table_encodes(d, h.trigram_dir_offset as int, h.num_trigrams as int, 3, h.bitmap_data_offset as int, tri)
    &&& table_encodes(d, h.bi_gram_dir_offset as int, h.num_bi_gram_entries as int, 2, h.bitmap_data_offset as int, bi)
    &&& table_encodes(d, h.ext_bitmap_dir_offset as int, h.num_ext_entries as int, 8, h.bitmap_data_offset as int, ext)
    &&& h.num_dir_entries == dirs.len()
    &&& dirs_encoded(d, h.dir_table_offset as int, h.bitmap_data_offset as int, dirs)
    &&& h.config_offset == HEADER_SIZE_V2
    &&& h.config_len == cfg.len()
    &&& h.config_offset + h.config_len <= d.len()
    &&& d.subrange(h.config_offset as int, h.config_offset + h.config_len) == cfg
}

/// The bytes of an index without its footer, as the writer lays them out.
pub open spec fn body_encodes(
    d: Seq<u8>,
    files: Seq<FileRecord>,
    tri: Map<u64, Set<u32>>,
    bi: Map<u64, Set<u32>>,
    ext: Map<u64, Set<u32>>,
    dirs: Seq<DirTableEntry>,
    config_json: Seq<u8>,
) -> bool {
    let h = decoded_header(d);
    &&& d.len() >= HEADER_SIZE_V2
    &&& has_magic(d)
    &&& u32_at(d, 8) == FORMAT_VERSION
    &&& h.num_files == files.len()
    &&& h.features == 7
    &&& files_encoded(d, h.file_dir_offset as int, h.file_offset_dir_offset as int, files)
    &&& table_encodes(d, h.trigram_dir_offset as int, h.num_trigrams as int, 3, h.bitmap_data_offset as int, tri)
    &&& table_encodes(d, h.bi_gram_dir_offset as int, h.num_bi_gram_entries as int, 2, h.bitmap_data_offset as int, bi)
    &&& table_encodes(d, h.ext_bitmap_dir_offset as int, h.num_ext_entries as int, 8, h.bitmap_data_offset as int, ext)
    &&& h.num_dir_entries == dirs.len()
    &&& dirs_encoded(d, h.dir_table_offset as int, h.bitmap_data_offset as int, dirs)
    &&& h.config_offset == HEADER_SIZE_V2
    &&& h.config_offset + h.config_len <= d.len()
    &&& zstd_decompressed(d.subrange(h.config_offset as int, h.config_offset + h.config_len))
        == Some(config_json)
}

/// A complete index file laid out around the stored configuration bytes `cfg`: a body as
/// above followed by the little-endian CRC-32 of the body.
pub open spec fn index_lays_out(
    b: Seq<u8>,
    files: Seq<FileRecord>,
    tri: Map<u64, Set<u32>>,
    bi: Map<u64, Set<u32>>,
    ext: Map<u64, Set<u32>>,
    dirs: Seq<DirTableEntry>,
    cfg: Seq<u8>,
) -> bool {
    &&& b.len() >= 4
    &&& body_lays_out(b.subrange(0, b.len() - 4), files, tri, bi, ext, dirs, cfg)
    &&& u32_at(b, b.len() - 4) == crc32_of(b.subrange(0, b.len() - 4))
}

/// A complete index file: a body as above followed by the little-endian CRC-32 of the body.
pub open spec fn index_encodes(
    b: Seq<u8>,
    files: Seq<FileRecord>,
    tri: Map<u64, Set<u32>>,
    bi: Map<u64, Set<u32>>,
    ext: Map<u64, Set<u32>>,
    dirs: Seq<DirTableEntry>,
    config_json: Seq<u8>,
) -> bool {
    &&& b.len() >= 4
    &&& body_encodes(b.subrange(0, b.len() - 4), files, tri, bi, ext, dirs, config_json)
    &&& u32_at(b, b.len() - 4) == crc32_of(b.subrange(0, b.len() - 4))
}

/// An index laid out around configuration bytes that decompress to `config_json` encodes
/// that configuration.
pub proof fn lemma_laid_out_encodes(
    b: Seq<u8>,
    files: Seq<FileRecord>,
    tri: Map<u64, Set<u32>>,
    bi: Map<u64, Set<u32>>,
    ext: Map<u64, Set<u32>>,
    dirs: Seq<DirTableEntry>,
    cfg: Seq<u8>,
    config_json: Seq<u8>,
)
    requires
        index_lays_out(b, files, tri, bi, ext, dirs, cfg),
        zstd_decompressed(cfg) == Some(config_json),
    ensures
        index_encodes(b, files, tri, bi, ext, dirs, config_json),
{
}

/// A range inside a prefix reads the same in the longer sequence.
pub proof fn lemma_prefix_range(a: Seq<u8>, b: Seq<u8>, x: int, y: int)
    requires
        a.is_prefix_of(b),
        0 <= x <= y <= a.len(),
    ensures
        b.subrange(x, y) == a.subrange(x, y),
{
    assert(b.subrange(x, y) =~= a.subrange(x, y));
}

/// A range of the second part of a concatenation, shifted by the first part's length.
pub proof fn lemma_suffix_range(a: Seq<u8>, b: Seq<u8>, x: int, y: int)
    requires
        0 <= x <= y <= b.len(),
    ensures
        (a + b).subrange(a.len() + x, a.len() + y) == b.subrange(x, y),
{
    assert((a + b).subrange(a.len() + x, a.len() + y) =~= b.subrange(x, y));
}

/// Being a prefix is transitive.
pub proof fn lemma_prefix_trans(a: Seq<u8>, b: Seq<u8>, c: Seq<u8>)
    requires
        a.is_prefix_of(b),
        b.is_prefix_of(c),
    ensures
        a.is_prefix_of(c),
{
    assert(a =~= c.subrange(0, a.len() as int));
}

/// Slot `j` of a table at `dir` says: key `key`, and a bitmap of `blob` found at the
/// recorded offset of `region`.
pub open spec fn slot_holds(d: Seq<u8>, dir: int, j: int, kl: int, region: Seq<u8>, key: u64, blob: Seq<u8>) -> bool {
    &&& slot_pos(dir, j + 1, kl) <= d.len()
    &&& pack_be(slot_key(d, dir, j, kl)) == key
    &&& slot_len(d, dir, j, kl) == blob.len()
    &&& slot_offset(d, dir, j, kl) + slot_len(d, dir, j, kl) <= region.len()
    &&& region.subrange(
        slot_offset(d, dir, j, kl) as int,
        slot_offset(d, dir, j, kl) + slot_len(d, dir, j, kl),
    ) == blob
}

proof fn lemma_slot_step(dir: int, j: int, kl: int)
    requires
        0 <= j,
        0 <= kl,
    ensures
        slot_pos(dir, j + 1, kl) == slot_pos(dir, j, kl) + kl + 12,
        slot_pos(dir, j, kl) <= slot_pos(dir, j + 1, kl),
{
    assert((j + 1) * (kl + 12) == j * (kl + 12) + kl + 12) by (nonlinear_arith);
}

/// A slot keeps what it says when the table grows and the region grows.
pub proof fn lemma_slot_holds_extend(
    d: Seq<u8>,
    d2: Seq<u8>,
    dir: int,
    j: int,
    kl: int,
    region: Seq<u8>,
    region2: Seq<u8>,
    key: u64,
    blob: Seq<u8>,
)
    requires
        slot_holds(d, dir, j, kl, region, key, blob),
        d.is_prefix_of(d2),
        region.is_prefix_of(region2),
        0 <= dir,
        0 <= j,
        0 <= kl,
    ensures
        slot_holds(d2, dir, j, kl, region2, key, blob),
{
    lemma_slot_step(dir, j, kl);
    let p = slot_pos(dir, j, kl);
    assert(0 <= j * (kl + 12)) by (nonlinear_arith)
        requires
            0 <= j,
            0 <= kl,
    ;
    lemma_prefix_range(d, d2, p, p + kl);
    lemma_prefix_range(d, d2, p + kl, p + kl + 8);
    lemma_prefix_range(d, d2, p + kl + 8, p + kl + 12);
    let off = slot_offset(d, dir, j, kl) as int;
    let len = slot_len(d, dir, j, kl) as int;
    lemma_prefix_range(region, region2, off, off + len);
}

/// Appends, for each key in order, a table slot to `out` (the key's `kl` big-endian
/// bytes, the bitmap's offset in `region`, its length) and the key's serialized bitmap
/// to `region`.
pub(crate) fn emit_table(out: &mut Vec<u8>, region: &mut Vec<u8>, keys: &Vec<u64>, blobs: &Vec<Vec<u8>>, kl: usize)
    requires
        keys@.len() == blobs@.len(),
        1 <= kl <= 8,
        forall|j: int| 0 <= j < keys@.len() ==> keys@[j] < pow256(kl as nat),
        forall|j: int| 0 <= j < blobs@.len() ==> #[trigger] blobs@[j]@.len() <= u32::MAX,
    ensures
        old(out)@.is_prefix_of(final(out)@),
        old(region)@.is_prefix_of(final(region)@),
        final(out)@.len() == slot_pos(old(out)@.len() as int, keys@.len() as int, kl as int),
        forall|j: int|
            0 <= j < keys@.len() ==> #[trigger] slot_holds(
                final(out)@,
                old(out)@.len() as int,
                j,
                kl as int,
                final(region)@,
                keys@[j],
                blobs@[j]@,
            ),
{
    let ghost o = out@.len() as int;
    let ghost out0 = out@;
    let ghost region0 = region@;
    let n = keys.len();
    let mut j: usize = 0;
    proof {
        assert(out0 =~= out@.subrange(0, out0.len() as int));
        assert(region0 =~= region@.subrange(0, region0.len() as int));
        assert(slot_pos(o, 0, kl as int) == o);
    }
    while j < n
        invariant
            n == keys@.len(),
            n == blobs@.len(),
            1 <= kl <= 8,
            forall|q: int| 0 <= q < keys@.len() ==> keys@[q] < pow256(kl as nat),
            forall|q: int| 0 <= q < blobs@.len() ==> #[trigger] blobs@[q]@.len() <= u32::MAX,
            0 <= j <= n,
            o == out0.len(),
            out0.is_prefix_of(out@),
            region0.is_prefix_of(region@),
            out@.len() == slot_pos(o, j as int, kl as int),
            forall|q: int|
                0 <= q < j ==> #[trigger] slot_holds(out@, o, q, kl as int, region@, keys@[q], blobs@[q]@),
        decreases n - j,
    {
        let ghost out_j = out@;
        let ghost region_j = region@;
        let key_bytes = unpack_key(keys[j], kl);
        push_bytes(out, key_bytes.as_slice());
        push_u64(out, region.len() as u64);
        let blob = &blobs[j];
        push_u32(out, blob.len() as u32);
        push_bytes(region, blob.as_slice());
        proof {
            let p = out_j.len() as int;
            let off = region_j.len() as int;
            lemma_slot_step(o, j as int, kl as int);
            lemma_auto_spec_u64_to_from_le_bytes();
            lemma_auto_spec_u32_to_from_le_bytes();
            assert(out@ == out_j + key_bytes@ + spec_u64_to_le_bytes(off as u64) + spec_u32_to_le_bytes(blob@.len() as u32));
            assert(out_j =~= out@.subrange(0, p));
            assert(region_j =~= region@.subrange(0, off));
            lemma_prefix_trans(out0, out_j, out@);
            lemma_prefix_trans(region0, region_j, region@);
            assert(out@.subrange(p, p + kl) =~= key_bytes@);
            assert(out@.subrange(p + kl, p + kl + 8) =~= spec_u64_to_le_bytes(off as u64));
            assert(out@.subrange(p + kl + 8, p + kl + 12) =~= spec_u32_to_le_bytes(blob@.len() as u32));
            assert(region@.subrange(off, off + blob@.len()) =~= blob@);
            assert(slot_holds(out@, o, j as int, kl as int, region@, keys@[j as int], blobs@[j as int]@));
            assert forall|q: int| 0 <= q < j implies #[trigger] slot_holds(out@, o, q, kl as int, region@, keys@[q], blobs@[q]@) by {
                lemma_slot_holds_extend(out_j, out@, o, q, kl as int, region_j, region@, keys@[q], blobs@[q]@);
            }
        }
        j = j + 1;
    }
}

/// Appends the directory table: each entry's record, in order.
pub(crate) fn emit_dirs(out: &mut Vec<u8>, dirs: &Vec<DirTableEntry>)
    ensures
        final(out)@ == old(out)@ + concat(dir_pieces(dirs@)),
{
    let n = dirs.len();
    let mut i: usize = 0;
    proof {
        assert(dir_pieces(dirs@).take(0) =~= Seq::<Seq<u8>>::empty());
        assert(out@ =~= old(out)@ + concat(dir_pieces(dirs@).take(0)));
    }
    while i < n
        invariant
            n == dirs@.len(),
            0 <= i <= n,
            out@ == old(out)@ + concat(dir_pieces(dirs@).take(i as int)),
        decreases n - i,
    {
        let e = &dirs[i];
        let path_bytes = e.path.as_str().as_bytes();
        let ghost before = out@;
        push_u32(out, path_bytes.len() as u32);
        push_bytes(out, path_bytes);
        push_u64(out, e.mtime as u64);
        push_u64(out, e.ino);
        push_u32(out, e.first_file_id);
        push_u32(out, e.num_files);
        proof {
            assert(path_bytes@ == dir_key(*e));
            assert(dir_pieces(dirs@).take(i + 1) =~= dir_pieces(dirs@).take(i as int).push(dir_record_bytes(*e)));
            lemma_concat_push(dir_pieces(dirs@).take(i as int), dir_record_bytes(*e));
            assert(out@ =~= before + dir_record_bytes(*e));
        }
        i = i + 1;
    }
    proof {
        assert(dir_pieces(dirs@).take(n as int) =~= dir_pieces(dirs@));
    }
}

/// Two sequences of one length that agree from position `k` on agree on every range
/// that starts there.
pub proof fn lemma_agree_range(a: Seq<u8>, b: Seq<u8>, k: int, x: int, y: int)
    requires
        a.len() == b.len(),
        forall|i: int| k <= i < a.len() ==> a[i] == b[i],
        k <= x <= y <= a.len(),
        0 <= x,
    ensures
        a.subrange(x, y) == b.subrange(x, y),
{
    assert(a.subrange(x, y) =~= b.subrange(x, y));
}

/// A slot reads the same in any sequence that has the same bytes where the slot is.
pub proof fn lemma_slot_holds_transfer(
    d: Seq<u8>,
    d2: Seq<u8>,
    dir: int,
    j: int,
    kl: int,
    region: Seq<u8>,
    key: u64,
    blob: Seq<u8>,
)
    requires
        slot_holds(d, dir, j, kl, region, key, blob),
        0 <= dir,
        0 <= j,
        0 <= kl,
        slot_pos(dir, j + 1, kl) <= d2.len(),
        d2.subrange(slot_pos(dir, j, kl), slot_pos(dir, j + 1, kl)) == d.subrange(
            slot_pos(dir, j, kl),
            slot_pos(dir, j + 1, kl),
        ),
    ensures
        slot_holds(d2, dir, j, kl, region, key, blob),
{
    lemma_slot_step(dir, j, kl);
    let p = slot_pos(dir, j, kl);
    assert(0 <= j * (kl + 12)) by (nonlinear_arith)
        requires
            0 <= j,
            0 <= kl,
    ;
    let s = d.subrange(p, p + kl + 12);
    assert(d2.subrange(p, p + kl) =~= s.subrange(0, kl));
    assert(d.subrange(p, p + kl) =~= s.subrange(0, kl));
    assert(d2.subrange(p + kl, p + kl + 8) =~= s.subrange(kl, kl + 8));
    assert(d.subrange(p + kl, p + kl + 8) =~= s.subrange(kl, kl + 8));
    assert(d2.subrange(p + kl + 8, p + kl + 12) =~= s.subrange(kl + 8, kl + 12));
    assert(d.subrange(p + kl + 8, p + kl + 12) =~= s.subrange(kl + 8, kl + 12));
}

/// A table whose slots hold the keys of a bitmap map in increasing order, with their
/// serialized bitmaps in a region placed at `bm`, encodes the map's document sets.
pub proof fn lemma_table_encoded(
    d: Seq<u8>,
    dir: int,
    kl: int,
    bm: int,
    region: Seq<u8>,
    keys: Seq<u64>,
    blobs: Seq<Seq<u8>>,
    docs: Map<u64, Set<u32>>,
)
    requires
        0 <= dir,
        0 <= bm,
        0 <= kl,
        keys.len() == blobs.len(),
        slot_pos(dir, keys.len() as int, kl) <= d.len(),
        forall|j: int| 0 <= j < keys.len() ==> #[trigger] slot_holds(d, dir, j, kl, region, keys[j], blobs[j]),
        bm + region.len() <= d.len(),
        d.subrange(bm, bm + region.len()) == region,
        forall|i: int, j: int| 0 <= i < j < keys.len() ==> keys[i] < keys[j],
        forall|k: u64| docs.contains_key(k) <==> keys.contains(k),
        forall|j: int| 0 <= j < keys.len() ==> roaring_decoded(#[trigger] blobs[j]) == Some(docs[keys[j]]),
    ensures
        table_encodes(d, dir, keys.len() as int, kl, bm, docs),
{
    let n = keys.len() as int;
    assert forall|j: int|
        #![trigger slot_key(d, dir, j, kl)]
        0 <= j < n implies {
            &&& docs.contains_key(pack_be(slot_key(d, dir, j, kl)) as u64)
            &&& pack_be(slot_key(d, dir, j, kl)) <= u64::MAX
            &&& bm + slot_offset(d, dir, j, kl) + slot_len(d, dir, j, kl) <= d.len()
            &&& roaring_decoded(slot_bitmap(d, dir, j, kl, bm)) == Some(
                docs[pack_be(slot_key(d, dir, j, kl)) as u64],
            )
        } by {
        assert(slot_holds(d, dir, j, kl, region, keys[j], blobs[j]));
        assert(keys.contains(keys[j]));
        let off = slot_offset(d, dir, j, kl) as int;
        let len = slot_len(d, dir, j, kl) as int;
        assert(d.subrange(bm + off, bm + off + len) =~= region.subrange(off, off + len));
    }
    assert forall|i: int, j: int|
        0 <= i < j < n implies pack_be(#[trigger] slot_key(d, dir, i, kl)) < pack_be(
            #[trigger] slot_key(d, dir, j, kl),
        ) by {
        assert(slot_holds(d, dir, i, kl, region, keys[i], blobs[i]));
        assert(slot_holds(d, dir, j, kl, region, keys[j], blobs[j]));
    }
    assert forall|k: u64| docs.contains_key(k) implies exists|j: int|
        0 <= j < n && pack_be(#[trigger] slot_key(d, dir, j, kl)) == k by {
        assert(keys.contains(k));
        let j = choose|j: int| 0 <= j < keys.len() && keys[j] == k;
        assert(slot_holds(d, dir, j, kl, region, keys[j], blobs[j]));
        assert(pack_be(slot_key(d, dir, j, kl)) == k);
    }
}

/// Appends each offset as a little-endian `u64`, then `last`.
pub(crate) fn emit_offsets(out: &mut Vec<u8>, offs: &Vec<u64>, last: u64)
    ensures
        final(out)@ == old(out)@ + concat(u64_pieces(offs@.push(last))),
{
    let n = offs.len();
    let ghost all = offs@.push(last);
    let mut i: usize = 0;
    proof {
        assert(u64_pieces(all).take(0) =~= Seq::<Seq<u8>>::empty());
        assert(out@ =~= old(out)@ + concat(u64_pieces(all).take(0)));
    }
    while i < n
        invariant
            n == offs@.len(),
            all == offs@.push(last),
            0 <= i <= n,
            out@ == old(out)@ + concat(u64_pieces(all).take(i as int)),
        decreases n - i,
    {
        let v = offs[i];
        push_u64(out, v);
        proof {
            assert(u64_pieces(all).take(i + 1) =~= u64_pieces(all).take(i as int).push(spec_u64_to_le_bytes(v)));
            lemma_concat_push(u64_pieces(all).take(i as int), spec_u64_to_le_bytes(v));
        }
        i = i + 1;
    }
    push_u64(out, last);
    proof {
        assert(u64_pieces(all).take(n + 1) =~= u64_pieces(all).take(n as int).push(spec_u64_to_le_bytes(last)));
        lemma_concat_push(u64_pieces(all).take(n as int), spec_u64_to_le_bytes(last));
        assert(u64_pieces(all).take(n + 1) =~= u64_pieces(all));
    }
}

/// The `u64` values laid out by `emit_offsets` read back at `8 * i`.
pub proof fn lemma_u64_pieces_read(vals: Seq<u64>, i: int)
    requires
        0 <= i < vals.len(),
    ensures
        concat(u64_pieces(vals)).len() == 8 * vals.len(),
        u64_at(concat(u64_pieces(vals)), 8 * i) == vals[i],
{
    let ps = u64_pieces(vals);
    lemma_auto_spec_u64_to_from_le_bytes();
    assert forall|q: int| 0 <= q < ps.len() implies #[trigger] ps[q].len() == 8 by {}
    lemma_concat_fixed(ps, 8, i);
    lemma_concat_fixed(ps, 8, ps.len() as int);
    lemma_concat_len(ps);
    lemma_concat_piece(ps, i);
}

/// Overwrites the first bytes of `out` with `hb`.
pub(crate) fn overwrite_prefix(out: &mut Vec<u8>, hb: &Vec<u8>)
    requires
        hb@.len() <= old(out)@.len(),
    ensures
        final(out)@.len() == old(out)@.len(),
        final(out)@.subrange(0, hb@.len() as int) == hb@,
        forall|i: int| hb@.len() <= i < old(out)@.len() ==> final(out)@[i] == old(out)@[i],
{
    let n = hb.len();
    let mut i: usize = 0;
    while i < n
        invariant
            n == hb@.len(),
            n <= old(out)@.len(),
            0 <= i <= n,
            out@.len() == old(out)@.len(),
            forall|q: int| 0 <= q < i ==> out@[q] == hb@[q],
            forall|q: int| i <= q < old(out)@.len() ==> out@[q] == old(out)@[q],
        decreases n - i,
    {
        out[i] = hb[i];
        i = i + 1;
    }
    proof {
        assert(out@.subrange(0, n as int) =~= hb@);
    }
}

/// The bytes `write_to` lays down encode the writer's contents: this collects what each
/// step appended into the statement of `body_lays_out`.
pub proof fn lemma_body_layout(
    d: Seq<u8>,
    pre: Seq<u8>,
    h: Header,
    o_cfg: Seq<u8>,
    o_fd: Seq<u8>,
    o_fo: Seq<u8>,
    o_tri: Seq<u8>,
    o_bi: Seq<u8>,
    o_ext: Seq<u8>,
    o_dirs: Seq<u8>,
    o_bm: Seq<u8>,
    cfg: Seq<u8>,
    region: Seq<u8>,
    r_bi: Seq<u8>,
    r_ext: Seq<u8>,
    tri_keys: Seq<u64>,
    tri_blobs: Seq<Seq<u8>>,
    bi_keys: Seq<u64>,
    bi_blobs: Seq<Seq<u8>>,
    ext_keys: Seq<u64>,
    ext_blobs: Seq<Seq<u8>>,
    files: Seq<FileRecord>,
    offsets: Seq<u64>,
    tri: Map<u64, Set<u32>>,
    bi: Map<u64, Set<u32>>,
    ext: Map<u64, Set<u32>>,
    dirs: Seq<DirTableEntry>,
)
    requires
        o_cfg.len() == HEADER_SIZE_V2,
        o_fd == o_cfg + cfg,
        o_fo == o_fd + file_dir_bytes(files),
        o_tri == o_fo + concat(u64_pieces(offsets.push(file_dir_bytes(files).len() as u64))),
        offsets.len() == files.len(),
        forall|i: int| 0 <= i < files.len() ==> offsets[i] == record_offset(files, i),
        o_tri.is_prefix_of(o_bi),
        o_bi.len() == slot_pos(o_tri.len() as int, tri_keys.len() as int, 3),
        o_bi.is_prefix_of(o_ext),
        o_ext.len() == slot_pos(o_bi.len() as int, bi_keys.len() as int, 2),
        o_ext.is_prefix_of(o_dirs),
        o_dirs.len() == slot_pos(o_ext.len() as int, ext_keys.len() as int, 8),
        r_bi.is_prefix_of(r_ext),
        r_ext.is_prefix_of(region),
        tri_keys.len() == tri_blobs.len(),
        bi_keys.len() == bi_blobs.len(),
        ext_keys.len() == ext_blobs.len(),
        forall|j: int| 0 <= j < tri_keys.len() ==> #[trigger] slot_holds(o_bi, o_tri.len() as int, j, 3, r_bi, tri_keys[j], tri_blobs[j]),
        forall|j: int| 0 <= j < bi_keys.len() ==> #[trigger] slot_holds(o_ext, o_bi.len() as int, j, 2, r_ext, bi_keys[j], bi_blobs[j]),
        forall|j: int| 0 <= j < ext_keys.len() ==> #[trigger] slot_holds(o_dirs, o_ext.len() as int, j, 8, region, ext_keys[j], ext_blobs[j]),
        o_bm == o_dirs + concat(dir_pieces(dirs)),
        pre == o_bm + region,
        d.len() == pre.len(),
        d.subrange(0, HEADER_SIZE_V2 as int) == header_bytes(h),
        forall|i: int| HEADER_SIZE_V2 <= i < pre.len() ==> d[i] == pre[i],
        h.version == FORMAT_VERSION,
        h.num_files == files.len(),
        h.features == 7,
        h.config_offset == o_cfg.len(),
        h.config_len == cfg.len(),
        cfg.len() <= u32::MAX,
        h.file_dir_offset == o_fd.len(),
        h.file_offset_dir_offset == o_fo.len(),
        h.trigram_dir_offset == o_tri.len(),
        h.num_trigrams == tri_keys.len(),
        h.bi_gram_dir_offset == o_bi.len(),
        h.num_bi_gram_entries == bi_keys.len(),
        h.ext_bitmap_dir_offset == o_ext.len(),
        h.num_ext_entries == ext_keys.len(),
        h.dir_table_offset == o_dirs.len(),
        h.num_dir_entries == dirs.len(),
        h.bitmap_data_offset == o_bm.len(),
        dirs_sorted(dirs),
        forall|i: int, j: int| 0 <= i < j < tri_keys.len() ==> tri_keys[i] < tri_keys[j],
        forall|k: u64| tri.contains_key(k) <==> tri_keys.contains(k),
        forall|j: int| 0 <= j < tri_keys.len() ==> roaring_decoded(#[trigger] tri_blobs[j]) == Some(tri[tri_keys[j]]),
        forall|i: int, j: int| 0 <= i < j < bi_keys.len() ==> bi_keys[i] < bi_keys[j],
        forall|k: u64| bi.contains_key(k) <==> bi_keys.contains(k),
        forall|j: int| 0 <= j < bi_keys.len() ==> roaring_decoded(#[trigger] bi_blobs[j]) == Some(bi[bi_keys[j]]),
        forall|i: int, j: int| 0 <= i < j < ext_keys.len() ==> ext_keys[i] < ext_keys[j],
        forall|k: u64| ext.contains_key(k) <==> ext_keys.contains(k),
        forall|j: int| 0 <= j < ext_keys.len() ==> roaring_decoded(#[trigger] ext_blobs[j]) == Some(ext[ext_keys[j]]),
    ensures
        body_lays_out(d, files, tri, bi, ext, dirs, cfg),
{
    let k = HEADER_SIZE_V2 as int;
    let fdb = file_dir_bytes(files);
    let offs = offsets.push(fdb.len() as u64);
    let dtab = concat(dir_pieces(dirs));
    // the chain of prefixes up to the full image
    assert(o_cfg.is_prefix_of(o_fd)) by { assert(o_cfg =~= o_fd.subrange(0, o_cfg.len() as int)); }
    assert(o_fd.is_prefix_of(o_fo)) by { assert(o_fd =~= o_fo.subrange(0, o_fd.len() as int)); }
    assert(o_fo.is_prefix_of(o_tri)) by { assert(o_fo =~= o_tri.subrange(0, o_fo.len() as int)); }
    assert(o_dirs.is_prefix_of(o_bm)) by { assert(o_dirs =~= o_bm.subrange(0, o_dirs.len() as int)); }
    assert(o_bm.is_prefix_of(pre)) by { assert(o_bm =~= pre.subrange(0, o_bm.len() as int)); }
    lemma_prefix_trans(o_dirs, o_bm, pre);
    lemma_prefix_trans(o_ext, o_dirs, pre);
    lemma_prefix_trans(o_bi, o_ext, pre);
    lemma_prefix_trans(o_tri, o_bi, pre);
    lemma_prefix_trans(o_fo, o_tri, pre);
    lemma_prefix_trans(o_fd, o_fo, pre);
    lemma_prefix_trans(r_bi, r_ext, region);
    // the header
    lemma_header_roundtrip(h);
    lemma_header_bytes_fields(h);
    lemma_decoded_header_prefix(header_bytes(h), d);
    assert(decoded_header(d) == h);
    // the configuration
    assert(d.subrange(k, k + cfg.len()) == cfg) by {
        lemma_prefix_range(o_fd, pre, k, k + cfg.len());
        lemma_suffix_range(o_cfg, cfg, 0, cfg.len() as int);
        assert(cfg.subrange(0, cfg.len() as int) =~= cfg);
        lemma_agree_range(d, pre, k, k, k + cfg.len());
    }
    // the file directory and its offsets
    let fd = o_fd.len() as int;
    let fo = o_fo.len() as int;
    assert(d.subrange(fd, fd + fdb.len()) == fdb) by {
        lemma_prefix_range(o_fo, pre, fd, fd + fdb.len());
        lemma_suffix_range(o_fd, fdb, 0, fdb.len() as int);
        assert(fdb.subrange(0, fdb.len() as int) =~= fdb);
        lemma_agree_range(d, pre, k, fd, fd + fdb.len());
    }
    lemma_concat_len(record_pieces(files));
    lemma_u64_pieces_read(offs, 0);
    assert forall|i: int| 0 <= i <= files.len() implies #[trigger] u64_at(d, fo + 8 * i) == record_offset(files, i) by {
        lemma_u64_pieces_read(offs, i);
        let pc = concat(u64_pieces(offs));
        lemma_prefix_range(o_tri, pre, fo + 8 * i, fo + 8 * i + 8);
        lemma_suffix_range(o_fo, pc, 8 * i, 8 * i + 8);
        lemma_agree_range(d, pre, k, fo + 8 * i, fo + 8 * i + 8);
    }
    assert(files_encoded(d, fd, fo, files));
    // the three tables
    let bm = o_bm.len() as int;
    assert(d.subrange(bm, bm + region.len()) == region) by {
        lemma_suffix_range(o_bm, region, 0, region.len() as int);
        assert(region.subrange(0, region.len() as int) =~= region);
        lemma_agree_range(d, pre, k, bm, bm + region.len());
    }
    let tdir = o_tri.len() as int;
    assert forall|j: int| 0 <= j < tri_keys.len() implies #[trigger] slot_holds(d, tdir, j, 3, region, tri_keys[j], tri_blobs[j]) by {
        lemma_slot_holds_extend(o_bi, pre, tdir, j, 3, r_bi, region, tri_keys[j], tri_blobs[j]);
        lemma_slot_step(tdir, j, 3);
        assert(tdir <= slot_pos(tdir, j, 3)) by (nonlinear_arith) requires 0 <= j;
        lemma_agree_range(d, pre, k, slot_pos(tdir, j, 3), slot_pos(tdir, j + 1, 3));
        lemma_slot_holds_transfer(pre, d, tdir, j, 3, region, tri_keys[j], tri_blobs[j]);
    }
    lemma_table_encoded(d, tdir, 3, bm, region, tri_keys, tri_blobs, tri);
    let bdir = o_bi.len() as int;
    assert forall|j: int| 0 <= j < bi_keys.len() implies #[trigger] slot_holds(d, bdir, j, 2, region, bi_keys[j], bi_blobs[j]) by {
        lemma_slot_holds_extend(o_ext, pre, bdir, j, 2, r_ext, region, bi_keys[j], bi_blobs[j]);
        lemma_slot_step(bdir, j, 2);
        assert(bdir <= slot_pos(bdir, j, 2)) by (nonlinear_arith) requires 0 <= j;
        lemma_agree_range(d, pre, k, slot_pos(bdir, j, 2), slot_pos(bdir, j + 1, 2));
        lemma_slot_holds_transfer(pre, d, bdir, j, 2, region, bi_keys[j], bi_blobs[j]);
    }
    lemma_table_encoded(d, bdir, 2, bm, region, bi_keys, bi_blobs, bi);
    let edir = o_ext.len() as int;
    assert forall|j: int| 0 <= j < ext_keys.len() implies #[trigger] slot_holds(d, edir, j, 8, region, ext_keys[j], ext_blobs[j]) by {
        lemma_slot_holds_extend(o_dirs, pre, edir, j, 8, region, region, ext_keys[j], ext_blobs[j]);
        lemma_slot_step(edir, j, 8);
        assert(edir <= slot_pos(edir, j, 8)) by (nonlinear_arith) requires 0 <= j;
        lemma_agree_range(d, pre, k, slot_pos(edir, j, 8), slot_pos(edir, j + 1, 8));
        lemma_slot_holds_transfer(pre, d, edir, j, 8, region, ext_keys[j], ext_blobs[j]);
    }
    lemma_table_encoded(d, edir, 8, bm, region, ext_keys, ext_blobs, ext);
    // the directory table
    let dt = o_dirs.len() as int;
    assert(d.subrange(dt, bm) == dtab) by {
        lemma_prefix_range(o_bm, pre, dt, bm);
        lemma_suffix_range(o_dirs, dtab, 0, dtab.len() as int);
        assert(dtab.subrange(0, dtab.len() as int) =~= dtab);
        lemma_agree_range(d, pre, k, dt, bm);
    }
}

} // verus!

