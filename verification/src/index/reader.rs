//! Reading an index from its bytes: the checksum and header check, file records,
//! bitmap lookups by binary search over the sorted tables, and the configuration blob.
use vstd::prelude::*;
use roaring::RoaringBitmap;
use crate::bitmap::{roaring_decoded, roaring_set, bitmap_deserialize};
use crate::codec::{crc32, crc32_of, one_bit_flip, utf8_lossy, lossy_string, zstd_decompress, zstd_decompressed, io_error_text};
use vstd::bytes::{spec_u32_from_le_bytes, spec_u32_to_le_bytes, lemma_auto_spec_u32_to_from_le_bytes};
use crate::index::format::DiskFileEntry;
use crate::index::dir::DirTableEntry;
use crate::text::{str_chars, string_from_chars, append_chars, append_str, dec_u128, dec_digits, hex_fixed, hex_digits};
use crate::index::header::{Header, decoded_header, has_magic, is_truncated_v2_header, version_supported, u32_at, u64_at, read_u32_at, read_u64_at, magic_seq, MAGIC, FORMAT_VERSION, HEADER_SIZE_V1, HEADER_SIZE_V2, FEATURE_BIGRAM_INDEX, FEATURE_EXT_INDEX};
use crate::index::image::{slot_pos, slot_key, slot_offset, slot_len, slot_bitmap};
use crate::index::layout::{FileRecord, bytes_lt, compare_bytes, lemma_bytes_lt_transitive, lemma_bytes_lt_irreflexive, lemma_bytes_lt_asymmetric};

verus! {

/// A read-only view of an index whose checksum and header were accepted.
pub struct IndexReader<'a> {
    pub data: &'a [u8],
    pub header: Header,
}

/// What `from_bytes` accepts: a footer whose CRC-32 matches the bytes before it, and a
/// header with the magic bytes and a known version.
pub open spec fn accepted_index(d: Seq<u8>) -> bool {
    &&& d.len() >= 4
    &&& u32_at(d, d.len() - 4) == crc32_of(d.subrange(0, d.len() - 4))
    &&& d.len() >= HEADER_SIZE_V1
    &&& has_magic(d)
    &&& version_supported(d)
}

/// An index whose footer holds its body's CRC, with one bit flipped, is refused: a flip
/// in the body changes the body's CRC, a flip in the footer changes the stored one.
proof fn lemma_flip_refused(a: Seq<u8>, d: Seq<u8>, i: int, k: u8)
    requires
        a.len() >= 4,
        u32_at(a, a.len() - 4) == crc32_of(a.subrange(0, a.len() - 4)),
        forall|b: Seq<u8>, j: int, m: u8| #[trigger] one_bit_flip(a.subrange(0, a.len() - 4), b, j, m)
            ==> crc32_of(b) != crc32_of(a.subrange(0, a.len() - 4)),
        one_bit_flip(a, d, i, k),
    ensures
        !accepted_index(d),
{
    let n = a.len() as int;
    let x = a[i];
    assert(x ^ (1u8 << k) != x) by (bit_vector)
        requires
            k < 8,
    ;
    if i < n - 4 {
        let b1 = a.subrange(0, n - 4);
        let b2 = d.subrange(0, n - 4);
        assert(one_bit_flip(b1, b2, i, k));
        assert(a.subrange(n - 4, n) =~= d.subrange(n - 4, n));
    } else {
        assert(a.subrange(0, n - 4) =~= d.subrange(0, n - 4));
        let s1 = a.subrange(n - 4, n);
        let s2 = d.subrange(n - 4, n);
        assert(s1[i - (n - 4)] != s2[i - (n - 4)]);
        lemma_auto_spec_u32_to_from_le_bytes();
        if spec_u32_from_le_bytes(s1) == spec_u32_from_le_bytes(s2) {
            assert(spec_u32_to_le_bytes(spec_u32_from_le_bytes(s1)) == s1);
            assert(spec_u32_to_le_bytes(spec_u32_from_le_bytes(s2)) == s2);
        }
    }
}

/// Why `from_bytes` refuses an index of at least four bytes: a checksum that does not
/// match, else what the header check reports.
pub open spec fn reject_text(d: Seq<u8>) -> Seq<char> {
    let stored = u32_at(d, d.len() - 4);
    let computed = crc32_of(d.subrange(0, d.len() - 4));
    if stored != computed {
        checksum_text(stored, computed)
    } else if d.len() < HEADER_SIZE_V1 {
        "header too short"@
    } else if !has_magic(d) {
        "invalid magic bytes"@
    } else {
        "unsupported format version"@
    }
}

/// The fields of a file record read from `e`, or `None` when `e` is too short for the
/// lengths it records.
pub open spec fn parse_record(e: Seq<u8>) -> Option<FileRecord> {
    if e.len() < 4 {
        None
    } else {
        let off = 4 + u32_at(e, 0);
        if e.len() < off + 21 {
            None
        } else {
            let ml = e[off + 20] as int;
            if e.len() < off + 21 + ml {
                None
            } else {
                Some(
                    FileRecord {
                        path: e.subrange(4, off),
                        size: u64_at(e, off),
                        mtime: u64_at(e, off + 8) as i64,
                        mode: u32_at(e, off + 16),
                        mime: e.subrange(off + 21, off + 21 + ml),
                    },
                )
            }
        }
    }
}

/// The error text `parse_record`'s failure carries.
pub open spec fn parse_error(e: Seq<u8>) -> Seq<char> {
    if e.len() < 4 {
        "file entry too short"@
    } else if e.len() < 4 + u32_at(e, 0) + 21 {
        "file entry truncated"@
    } else {
        "mime field truncated"@
    }
}

/// An entry handed out for a record: the path and MIME type decoded from their bytes.
pub open spec fn entry_matches(e: DiskFileEntry, r: FileRecord) -> bool {
    &&& e.full_path@ == utf8_lossy(r.path)
    &&& vstd::utf8::valid_utf8(r.path) ==> e.full_path@ == vstd::utf8::decode_utf8(r.path)
    &&& vstd::utf8::valid_utf8(r.mime) ==> e.mime_type@ == vstd::utf8::decode_utf8(r.mime)
    &&& e.size == r.size
    &&& e.mtime == r.mtime
    &&& e.mode == r.mode
    &&& e.mime_type@ == utf8_lossy(r.mime)
}

/// The bitmap recorded in slot `j` of a table is inside the data and decodes.
pub open spec fn slot_bitmap_ok(d: Seq<u8>, dir: int, j: int, kl: int, bm: int) -> bool {
    &&& bm + slot_offset(d, dir, j, kl) + slot_len(d, dir, j, kl) <= d.len()
    &&& roaring_decoded(slot_bitmap(d, dir, j, kl, bm)) is Some
}

/// The table's keys are in strictly increasing byte order.
pub open spec fn table_sorted(d: Seq<u8>, dir: int, n: int, kl: int) -> bool {
    forall|i: int, j: int|
        0 <= i < j < n ==> bytes_lt(#[trigger] slot_key(d, dir, i, kl), #[trigger] slot_key(d, dir, j, kl))
}

/// What a table lookup for `key` may return: a bitmap decoded from a slot holding
/// `key`; and, where the table lies inside the data and is sorted, nothing only when
/// no slot holding `key` has a bitmap that decodes.
pub open spec fn lookup_result(
    d: Seq<u8>,
    dir: int,
    n: int,
    kl: int,
    bm: int,
    key: Seq<u8>,
    r: Option<RoaringBitmap>,
) -> bool {
    &&& r matches Some(b) ==> exists|j: int|
        0 <= j < n && slot_pos(dir, j + 1, kl) <= d.len() && #[trigger] slot_key(d, dir, j, kl) == key
            && slot_bitmap_ok(d, dir, j, kl, bm) && roaring_decoded(slot_bitmap(d, dir, j, kl, bm))
            == Some(roaring_set(b))
    &&& (r is None && 0 <= dir && slot_pos(dir, n, kl) <= d.len() && table_sorted(d, dir, n, kl)) ==> forall|j: int|
        0 <= j < n && #[trigger] slot_key(d, dir, j, kl) == key ==> !slot_bitmap_ok(d, dir, j, kl, bm)
}

/// The eight-byte key of an extension: its first eight bytes, zero-padded.
pub open spec fn ext_key(ext: Seq<u8>) -> Seq<u8> {
    if ext.len() >= 8 {
        ext.subrange(0, 8)
    } else {
        ext + Seq::new((8 - ext.len()) as nat, |i: int| 0u8)
    }
}

/// The message for a checksum that does not match.
pub open spec fn checksum_text(stored: u32, computed: u32) -> Seq<char> {
    "index checksum mismatch (stored: "@ + hex_digits(stored as nat, 8) + ", computed: "@ + hex_digits(
        computed as nat,
        8,
    ) + "). The index may be corrupt or truncated."@
}

/// The message for a checksum that does not match, both values in eight hex digits.
fn checksum_message(stored: u32, computed: u32) -> (m: String)
    ensures
        m@ == checksum_text(stored, computed),
{
    let mut v = str_chars("index checksum mismatch (stored: ");
    append_chars(&mut v, hex_fixed(stored as u64, 8).as_slice());
    append_str(&mut v, ", computed: ");
    append_chars(&mut v, hex_fixed(computed as u64, 8).as_slice());
    append_str(&mut v, "). The index may be corrupt or truncated.");
    string_from_chars(v.as_slice())
}

/// The message for a file id past the end of the index.
pub open spec fn doc_range_text(doc_id: u32, num_files: u64) -> Seq<char> {
    "doc_id "@ + dec_digits(doc_id as nat) + " out of range (max "@ + dec_digits(num_files as nat) + ")"@
}

/// The message for a file id past the end of the index.
fn doc_range_message(doc_id: u32, num_files: u64) -> (m: String)
    ensures
        m@ == doc_range_text(doc_id, num_files),
{
    let mut v = str_chars("doc_id ");
    append_chars(&mut v, dec_u128(doc_id as u128).as_slice());
    append_str(&mut v, " out of range (max ");
    append_chars(&mut v, dec_u128(num_files as u128).as_slice());
    append_str(&mut v, ")");
    string_from_chars(v.as_slice())
}

/// `m` slots of `es` bytes fit in `room` bytes exactly when `room / es` is at least `m`.
pub(crate) proof fn lemma_room(room: int, es: int, m: int)
    requires
        room >= 0,
        es > 0,
        m >= 0,
    ensures
        (room / es >= m) <==> (m * es <= room),
{
    vstd::arithmetic::div_mod::lemma_fundamental_div_mod(room, es);
    let q = room / es;
    let r = room % es;
    if q >= m {
        vstd::arithmetic::mul::lemma_mul_inequality(m, q, es);
        assert(q * es == es * q) by (nonlinear_arith);
    } else {
        vstd::arithmetic::mul::lemma_mul_inequality(q + 1, m, es);
        assert((q + 1) * es == es * q + es) by (nonlinear_arith);
    }
}

/// Looks `key` up in a table of `n` slots of `kl`-byte keys at `dir`, by binary search;
/// bitmap offsets count from `bm`.
fn binary_search_bitmap(data: &[u8], dir: u64, n: u64, kl: usize, key: &[u8], bm: u64) -> (r: Option<RoaringBitmap>)
    requires
        1 <= kl <= 8,
        key@.len() == kl,
    ensures
        lookup_result(data@, dir as int, n as int, kl as int, bm as int, key@, r),
{
    let ulen = data.len();
    let len = ulen as u64;
    let es = (kl as u64) + 12;
    let mut lo: u64 = 0;
    let mut hi: u64 = n;
    while lo < hi
        invariant
            lo <= hi <= n,
            len == data@.len(),
            ulen == data@.len(),
            es == kl + 12,
            1 <= kl <= 8,
            key@.len() == kl,
            (0 <= dir && slot_pos(dir as int, n as int, kl as int) <= data@.len() && table_sorted(data@, dir as int, n as int, kl as int))
                ==> (forall|j: int| 0 <= j < lo && slot_key(data@, dir as int, j, kl as int) == key@ ==> false)
                && (forall|j: int| hi <= j < n && slot_key(data@, dir as int, j, kl as int) == key@ ==> false),
        decreases hi - lo,
    {
        let mid = lo + (hi - lo) / 2;
        if dir > len || (len - dir) / es < mid + 1 {
            proof {
                if dir <= len {
                    lemma_room((len - dir) as int, es as int, (mid + 1) as int);
                    assert(n * es >= (mid + 1) * es) by (nonlinear_arith)
                        requires
                            n >= mid + 1,
                            es > 0,
                    ;
                }
            }
            return None;
        }
        let ghost p = slot_pos(dir as int, mid as int, kl as int);
        proof {
            lemma_room((len - dir) as int, es as int, (mid + 1) as int);
            assert(mid * es + es == (mid + 1) * es) by (nonlinear_arith);
            assert(dir + mid * es + es <= len);
            assert(len == ulen);
            assert(p == dir + mid * es);
        }
        let entry_off = (dir + mid * es) as usize;
        assert(entry_off == dir + mid * es);
        let mid_key = &data[entry_off..entry_off + kl];
        let c = compare_bytes(mid_key, key);
        proof {
            assert(mid_key@ == slot_key(data@, dir as int, mid as int, kl as int));
        }
        if c < 0 {
            proof {
                assert forall|j: int| 0 <= j < mid + 1 && (0 <= dir && slot_pos(dir as int, n as int, kl as int) <= data@.len() && table_sorted(data@, dir as int, n as int, kl as int)) implies slot_key(data@, dir as int, j, kl as int) != key@ by {
                    if j < mid {
                        assert(bytes_lt(slot_key(data@, dir as int, j, kl as int), slot_key(data@, dir as int, mid as int, kl as int)));
                        lemma_bytes_lt_transitive(slot_key(data@, dir as int, j, kl as int), mid_key@, key@);
                        lemma_bytes_lt_irreflexive(key@);
                    } else {
                        lemma_bytes_lt_irreflexive(key@);
                    }
                }
            }
            lo = mid + 1;
        } else if c > 0 {
            proof {
                assert forall|j: int| mid <= j < n && (0 <= dir && slot_pos(dir as int, n as int, kl as int) <= data@.len() && table_sorted(data@, dir as int, n as int, kl as int)) implies slot_key(data@, dir as int, j, kl as int) != key@ by {
                    if j > mid {
                        assert(bytes_lt(slot_key(data@, dir as int, mid as int, kl as int), slot_key(data@, dir as int, j, kl as int)));
                        lemma_bytes_lt_transitive(key@, mid_key@, slot_key(data@, dir as int, j, kl as int));
                        lemma_bytes_lt_irreflexive(key@);
                    } else {
                        lemma_bytes_lt_irreflexive(key@);
                    }
                }
            }
            hi = mid;
        } else {
            let bm_off = read_u64_at(data, entry_off + kl);
            let bm_len = read_u32_at(data, entry_off + kl + 8) as u64;
            proof {
                assert(bm_off == slot_offset(data@, dir as int, mid as int, kl as int));
                assert(bm_len == slot_len(data@, dir as int, mid as int, kl as int));
            }
            if bm > len || bm_off > len - bm || bm_len > len - bm - bm_off {
                proof {
                    assert forall|j: int| 0 <= j < n && #[trigger] slot_key(data@, dir as int, j, kl as int) == key@
                        && table_sorted(data@, dir as int, n as int, kl as int) implies !slot_bitmap_ok(data@, dir as int, j, kl as int, bm as int) by {
                        if j != mid {
                            if j < mid {
                                assert(bytes_lt(slot_key(data@, dir as int, j, kl as int), slot_key(data@, dir as int, mid as int, kl as int)));
                            } else {
                                assert(bytes_lt(slot_key(data@, dir as int, mid as int, kl as int), slot_key(data@, dir as int, j, kl as int)));
                            }
                            lemma_bytes_lt_irreflexive(key@);
                        }
                    }
                }
                return None;
            }
            assert(bm + bm_off + bm_len <= len);
            let start = (bm + bm_off) as usize;
            let end = (bm + bm_off + bm_len) as usize;
            let r = bitmap_deserialize(&data[start..end]);
            proof {
                assert(data@.subrange(start as int, end as int) == slot_bitmap(data@, dir as int, mid as int, kl as int, bm as int));
                assert(slot_key(data@, dir as int, mid as int, kl as int) == key@);
                if r is None {
                    assert forall|j: int| 0 <= j < n && #[trigger] slot_key(data@, dir as int, j, kl as int) == key@
                        && table_sorted(data@, dir as int, n as int, kl as int) implies !slot_bitmap_ok(data@, dir as int, j, kl as int, bm as int) by {
                        if j != mid {
                            if j < mid {
                                assert(bytes_lt(slot_key(data@, dir as int, j, kl as int), slot_key(data@, dir as int, mid as int, kl as int)));
                            } else {
                                assert(bytes_lt(slot_key(data@, dir as int, mid as int, kl as int), slot_key(data@, dir as int, j, kl as int)));
                            }
                            lemma_bytes_lt_irreflexive(key@);
                        }
                    }
                }
            }
            return r;
        }
    }
    None
}

impl<'a> IndexReader<'a> {
    /// Where the offset-table slot of file `doc` starts.
    pub open spec fn offset_slot(&self, doc: int) -> int {
        self.header.file_offset_dir_offset + 8 * doc
    }

    /// The offset table holds file `doc`'s start and the next file's start inside the
    /// data, in order, and the record between them lies inside the data.
    pub open spec fn entry_readable(&self, doc: int) -> bool {
        let d = self.data@;
        let slot = self.offset_slot(doc);
        &&& slot + 16 <= d.len()
        &&& u64_at(d, slot) <= u64_at(d, slot + 8)
        &&& self.header.file_dir_offset + u64_at(d, slot + 8) <= d.len()
    }

    /// The bytes of file `doc`'s record.
    pub open spec fn entry_bytes(&self, doc: int) -> Seq<u8> {
        let d = self.data@;
        let slot = self.offset_slot(doc);
        d.subrange(
            self.header.file_dir_offset + u64_at(d, slot),
            self.header.file_dir_offset + u64_at(d, slot + 8),
        )
    }

    /// Every file's record can be read.
    pub open spec fn files_readable(&self) -> bool {
        forall|doc: int| 0 <= doc < self.header.num_files ==> #[trigger] self.entry_readable(doc)
    }

    /// File `doc`'s record, or `None` when it is out of range or does not parse.
    pub open spec fn file_record(&self, doc: int) -> Option<FileRecord> {
        if doc >= self.header.num_files {
            None
        } else {
            parse_record(self.entry_bytes(doc))
        }
    }

    /// Checks the footer's CRC-32 over the bytes before it, then decodes the header.
    pub fn from_bytes(data: &'a [u8]) -> (r: Result<Self, String>)
        requires
            !is_truncated_v2_header(data@),
        ensures
            r is Ok <==> accepted_index(data@),
            r matches Ok(rd) ==> rd.data == data && rd.header == decoded_header(data@),
            data@.len() < 4 ==> (r matches Err(e) && e@ == "index too short (missing CRC footer)"@),
            data@.len() >= 4 ==> (r matches Err(e) ==> e@ == reject_text(data@)),
            r is Ok ==> forall|d: Seq<u8>, i: int, k: u8| #[trigger] one_bit_flip(data@, d, i, k) ==> !accepted_index(d),
    {
        let n = data.len();
        if n < 4 {
            return Err(String::from_str("index too short (missing CRC footer)"));
        }
        let stored = read_u32_at(data, n - 4);
        let body = &data[0..n - 4];
        let computed = crc32(body);
        if stored != computed {
            return Err(checksum_message(stored, computed));
        }
        proof {
            assert forall|d: Seq<u8>, i: int, k: u8| #[trigger] one_bit_flip(data@, d, i, k) implies !accepted_index(d) by {
                lemma_flip_refused(data@, d, i, k);
            }
        }
        match Header::from_bytes(data) {
            Ok(header) => Ok(IndexReader { data, header }),
            Err(e) => Err(String::from_str(e)),
        }
    }

    /// Whether every file's offsets lie inside the data (see `files_readable`).
    pub fn files_in_bounds(&self) -> (b: bool)
        ensures
            b == self.files_readable(),
    {
        let n = self.header.num_files;
        let ulen = self.data.len();
        let len = ulen as u128;
        let base = self.header.file_offset_dir_offset as u128;
        let fdo = self.header.file_dir_offset as u128;
        let mut doc: u64 = 0;
        while doc < n
            invariant
                ulen == self.data@.len(),
                len == ulen,
                base == self.header.file_offset_dir_offset,
                fdo == self.header.file_dir_offset,
                n == self.header.num_files,
                0 <= doc <= n,
                forall|d: int| 0 <= d < doc ==> #[trigger] self.entry_readable(d),
            decreases n - doc,
        {
            let slot = base + 8 * (doc as u128);
            assert(slot == self.offset_slot(doc as int));
            if slot + 16 > len {
                assert(!self.entry_readable(doc as int));
                return false;
            }
            let start = read_u64_at(self.data, slot as usize);
            let next = read_u64_at(self.data, (slot + 8) as usize);
            if start > next || fdo + (next as u128) > len {
                assert(!self.entry_readable(doc as int));
                return false;
            }
            doc = doc + 1;
        }
        true
    }

    pub fn num_files(&self) -> (n: u64)
        ensures
            n == self.header.num_files,
    {
        self.header.num_files
    }

    pub fn header(&self) -> (h: &Header)
        ensures
            *h == self.header,
    {
        &self.header
    }

    /// Whether the header's feature bits include any of `feature`'s.
    pub fn has_feature(&self, feature: u64) -> (b: bool)
        ensures
            b == (self.header.features & feature != 0),
    {
        self.header.features & feature != 0
    }

    /// Decodes a file record: path length (u32), path, size, mtime, mode, MIME length
    /// (one byte), MIME type.
    pub(crate) fn parse_file_entry(data: &[u8]) -> (r: Result<DiskFileEntry, String>)
        ensures
            match r {
                Ok(e) => parse_record(data@) matches Some(rec) && entry_matches(e, rec),
                Err(msg) => parse_record(data@) is None && msg@ == parse_error(data@),
            },
    {
        let n = data.len();
        if n < 4 {
            return Err(String::from_str("file entry too short"));
        }
        let path_len = read_u32_at(data, 0) as usize;
        if path_len > n - 4 || n - 4 - path_len < 21 {
            return Err(String::from_str("file entry truncated"));
        }
        let off = 4 + path_len;
        let path = lossy_string(&data[4..off]);
        let size = read_u64_at(data, off);
        let mtime = read_u64_at(data, off + 8) as i64;
        let mode = read_u32_at(data, off + 16);
        let mime_len = data[off + 20] as usize;
        let mime_off = off + 21;
        if mime_len > n - mime_off {
            return Err(String::from_str("mime field truncated"));
        }
        let mime_type = lossy_string(&data[mime_off..mime_off + mime_len]);
        Ok(DiskFileEntry { full_path: path, size, mtime, mode, mime_type })
    }

    /// The record of file `doc_id`. Ids past the last file are an error.
    pub fn file_entry(&self, doc_id: u32) -> (r: Result<DiskFileEntry, String>)
        requires
            doc_id < self.header.num_files ==> self.entry_readable(doc_id as int),
        ensures
            r is Ok <==> self.file_record(doc_id as int) is Some,
            r matches Ok(e) ==> entry_matches(e, self.file_record(doc_id as int)->0),
            r matches Err(msg) ==> (doc_id < self.header.num_files ==> msg@ == parse_error(
                self.entry_bytes(doc_id as int),
            )),
            doc_id >= self.header.num_files ==> (r matches Err(msg) && msg@ == doc_range_text(doc_id, self.header.num_files)),
    {
        if doc_id as u64 >= self.header.num_files {
            return Err(doc_range_message(doc_id, self.header.num_files));
        }
        let ghost slot = self.offset_slot(doc_id as int);
        let ulen = self.data.len();
        proof {
            assert(slot + 16 <= ulen);
        }
        let off_idx = self.header.file_offset_dir_offset as usize + (doc_id as usize) * 8;
        let entry_off = read_u64_at(self.data, off_idx);
        let next_off = read_u64_at(self.data, off_idx + 8);
        let entry_len = (next_off - entry_off) as usize;
        let start = self.header.file_dir_offset as usize + entry_off as usize;
        let entry_data = &self.data[start..start + entry_len];
        proof {
            assert(entry_data@ == self.entry_bytes(doc_id as int));
        }
        Self::parse_file_entry(entry_data)
    }

    /// The path of file `doc_id`.
    pub fn file_path(&self, doc_id: u32) -> (r: Result<String, String>)
        requires
            doc_id < self.header.num_files ==> self.entry_readable(doc_id as int),
        ensures
            r is Ok <==> self.file_record(doc_id as int) is Some,
            r matches Ok(p) ==> p@ == utf8_lossy(self.file_record(doc_id as int)->0.path),
            r matches Err(msg) ==> msg@ == self.file_error_text(doc_id),
    {
        match self.file_entry(doc_id) {
            Ok(e) => Ok(e.full_path),
            Err(e) => Err(e),
        }
    }

    /// The path of file `doc_id`, read without the rest of its record.
    pub fn file_path_only(&self, doc_id: u32) -> (r: Result<String, String>)
        requires
            doc_id < self.header.num_files ==> self.offset_slot(doc_id as int) + 8 <= self.data@.len(),
        ensures
            ({
                let d = self.data@;
                let start = self.header.file_dir_offset + u64_at(d, self.offset_slot(doc_id as int));
                let pl = u32_at(d, start);
                &&& r is Ok <==> (doc_id < self.header.num_files && start + 4 <= d.len() && start + 4 + pl <= d.len())
                &&& r matches Ok(p) ==> p@ == utf8_lossy(d.subrange(start + 4, start + 4 + pl))
                &&& (doc_id < self.header.num_files && start + 4 > d.len()) ==> (r matches Err(e) && e@ == "file entry too short"@)
                &&& (doc_id < self.header.num_files && start + 4 <= d.len() && start + 4 + pl > d.len()) ==> (r matches Err(e) && e@ == "path truncated"@)
                &&& doc_id >= self.header.num_files ==> (r matches Err(e) && e@ == doc_range_text(doc_id, self.header.num_files))
            }),
    {
        if doc_id as u64 >= self.header.num_files {
            return Err(doc_range_message(doc_id, self.header.num_files));
        }
        let ulen = self.data.len();
        let len = ulen as u64;
        let off_idx = self.header.file_offset_dir_offset as usize + (doc_id as usize) * 8;
        let entry_off = read_u64_at(self.data, off_idx);
        let fd = self.header.file_dir_offset;
        if fd > len || entry_off > len - fd || len - fd - entry_off < 4 {
            return Err(String::from_str("file entry too short"));
        }
        let start = (fd + entry_off) as usize;
        let path_len = read_u32_at(self.data, start) as usize;
        if path_len > ulen - start - 4 {
            return Err(String::from_str("path truncated"));
        }
        let path_start = start + 4;
        Ok(lossy_string(&self.data[path_start..path_start + path_len]))
    }

    /// The configuration blob, decompressed: the JSON text the index was written with.
    pub fn config(&self) -> (r: Result<Vec<u8>, String>)
        ensures
            ({
                let start = self.header.config_offset as int;
                let end = start + self.header.config_len;
                &&& r is Ok <==> (end <= self.data@.len() && zstd_decompressed(self.data@.subrange(start, end)) is Some)
                &&& r matches Ok(v) ==> zstd_decompressed(self.data@.subrange(start, end)) == Some(v@)
                &&& end > self.data@.len() ==> (r matches Err(e) && e@ == "config blob out of bounds"@)
            }),
    {
        let ulen = self.data.len();
        let len = ulen as u64;
        let start = self.header.config_offset;
        let clen = self.header.config_len as u64;
        if start > len || clen > len - start {
            return Err(String::from_str("config blob out of bounds"));
        }
        let s = start as usize;
        let e = (start + clen) as usize;
        match zstd_decompress(&self.data[s..e]) {
            Ok(v) => Ok(v),
            Err(err) => Err(io_error_text(&err)),
        }
    }

    /// The documents containing the trigram with these bytes.
    pub fn trigram_bitmap(&self, trigram: [u8; 3]) -> (r: Option<RoaringBitmap>)
        ensures
            lookup_result(
                self.data@,
                self.header.trigram_dir_offset as int,
                self.header.num_trigrams as int,
                3,
                self.header.bitmap_data_offset as int,
                trigram@,
                r,
            ),
    {
        binary_search_bitmap(
            self.data,
            self.header.trigram_dir_offset,
            self.header.num_trigrams,
            3,
            &trigram,
            self.header.bitmap_data_offset,
        )
    }

    /// The documents containing the bigram with these bytes; none when the index has no
    /// bigram table.
    pub fn bigram_bitmap(&self, bigram: [u8; 2]) -> (r: Option<RoaringBitmap>)
        ensures
            (self.header.features & FEATURE_BIGRAM_INDEX == 0 || self.header.num_bi_gram_entries == 0) ==> r is None,
            (self.header.features & FEATURE_BIGRAM_INDEX != 0 && self.header.num_bi_gram_entries != 0) ==> lookup_result(
                self.data@,
                self.header.bi_gram_dir_offset as int,
                self.header.num_bi_gram_entries as int,
                2,
                self.header.bitmap_data_offset as int,
                bigram@,
                r,
            ),
    {
        if !self.has_feature(FEATURE_BIGRAM_INDEX) || self.header.num_bi_gram_entries == 0 {
            return None;
        }
        binary_search_bitmap(
            self.data,
            self.header.bi_gram_dir_offset,
            self.header.num_bi_gram_entries,
            2,
            &bigram,
            self.header.bitmap_data_offset,
        )
    }

    /// The documents with this extension (its first eight bytes, zero-padded); none when
    /// the index has no extension table.
    pub fn ext_bitmap(&self, ext: &[u8]) -> (r: Option<RoaringBitmap>)
        ensures
            (self.header.features & FEATURE_EXT_INDEX == 0 || self.header.num_ext_entries == 0) ==> r is None,
            (self.header.features & FEATURE_EXT_INDEX != 0 && self.header.num_ext_entries != 0) ==> lookup_result(
                self.data@,
                self.header.ext_bitmap_dir_offset as int,
                self.header.num_ext_entries as int,
                8,
                self.header.bitmap_data_offset as int,
                ext_key(ext@),
                r,
            ),
    {
        if !self.has_feature(FEATURE_EXT_INDEX) || self.header.num_ext_entries == 0 {
            return None;
        }
        let mut key: Vec<u8> = Vec::new();
        let mut i: usize = 0;
        while i < 8
            invariant
                0 <= i <= 8,
                key@.len() == i,
                forall|q: int| 0 <= q < i ==> key@[q] == ext_key(ext@)[q],
            decreases 8 - i,
        {
            if i < ext.len() {
                key.push(ext[i]);
            } else {
                key.push(0u8);
            }
            i = i + 1;
        }
        proof {
            assert(key@ =~= ext_key(ext@));
        }
        binary_search_bitmap(
            self.data,
            self.header.ext_bitmap_dir_offset,
            self.header.num_ext_entries,
            8,
            key.as_slice(),
            self.header.bitmap_data_offset,
        )
    }
}

impl<'a> IndexReader<'a> {
    /// The records of the files of a directory entry: ids `first_file_id` onward, one
    /// per file. Fails at the first record that cannot be read.
    /// The message `file_entry` fails with for file `doc`.
    pub open spec fn file_error_text(&self, doc: u32) -> Seq<char> {
        if doc < self.header.num_files {
            parse_error(self.entry_bytes(doc as int))
        } else {
            doc_range_text(doc, self.header.num_files)
        }
    }

    pub fn get_files_in_dir(&self, dir_entry: &DirTableEntry) -> (r: Result<Vec<DiskFileEntry>, String>)
        requires
            dir_entry.first_file_id + dir_entry.num_files <= u32::MAX + 1,
            forall|doc: int|
                dir_entry.first_file_id <= doc < dir_entry.first_file_id + dir_entry.num_files && doc
                    < self.header.num_files ==> #[trigger] self.entry_readable(doc),
        ensures
            r is Ok <==> forall|i: int|
                0 <= i < dir_entry.num_files ==> #[trigger] self.file_record(dir_entry.first_file_id + i) is Some,
            r matches Err(msg) ==> exists|k: int|
                0 <= k < dir_entry.num_files && (#[trigger] self.file_record(dir_entry.first_file_id + k)) is None
                && (forall|q: int| 0 <= q < k ==> (#[trigger] self.file_record(dir_entry.first_file_id + q)) is Some)
                && msg@ == self.file_error_text((dir_entry.first_file_id + k) as u32),
            r matches Ok(v) ==> v@.len() == dir_entry.num_files && forall|i: int|
                0 <= i < dir_entry.num_files ==> entry_matches(
                    #[trigger] v@[i],
                    self.file_record(dir_entry.first_file_id + i)->0,
                ),
    {
        let mut entries: Vec<DiskFileEntry> = Vec::new();
        let mut i: u32 = 0;
        while i < dir_entry.num_files
            invariant
                dir_entry.first_file_id + dir_entry.num_files <= u32::MAX + 1,
                forall|doc: int|
                    dir_entry.first_file_id <= doc < dir_entry.first_file_id + dir_entry.num_files && doc
                        < self.header.num_files ==> #[trigger] self.entry_readable(doc),
                0 <= i <= dir_entry.num_files,
                entries@.len() == i,
                forall|q: int| 0 <= q < i ==> #[trigger] self.file_record(dir_entry.first_file_id + q) is Some,
                forall|q: int|
                    0 <= q < i ==> entry_matches(
                        #[trigger] entries@[q],
                        self.file_record(dir_entry.first_file_id + q)->0,
                    ),
            decreases dir_entry.num_files - i,
        {
            let doc_id = dir_entry.first_file_id + i;
            proof {
                if doc_id < self.header.num_files {
                    assert(self.entry_readable(doc_id as int));
                }
            }
            match self.file_entry(doc_id) {
                Ok(e) => entries.push(e),
                Err(e) => {
                    return Err(e);
                },
            }
            i = i + 1;
        }
        Ok(entries)
    }

    /// The paths of the files of a directory entry, in id order.
    pub fn get_file_paths_in_dir(&self, dir_entry: &DirTableEntry) -> (r: Result<Vec<String>, String>)
        requires
            dir_entry.first_file_id + dir_entry.num_files <= u32::MAX + 1,
            forall|doc: int|
                dir_entry.first_file_id <= doc < dir_entry.first_file_id + dir_entry.num_files && doc
                    < self.header.num_files ==> #[trigger] self.entry_readable(doc),
        ensures
            r is Ok <==> forall|i: int|
                0 <= i < dir_entry.num_files ==> #[trigger] self.file_record(dir_entry.first_file_id + i) is Some,
            r matches Ok(v) ==> v@.len() == dir_entry.num_files && forall|i: int|
                0 <= i < dir_entry.num_files ==> (#[trigger] v@[i])@ == utf8_lossy(
                    self.file_record(dir_entry.first_file_id + i)->0.path,
                ),
            r matches Err(msg) ==> exists|k: int|
                0 <= k < dir_entry.num_files && (#[trigger] self.file_record(dir_entry.first_file_id + k)) is None
                && (forall|q: int| 0 <= q < k ==> (#[trigger] self.file_record(dir_entry.first_file_id + q)) is Some)
                && msg@ == self.file_error_text((dir_entry.first_file_id + k) as u32),
    {
        let mut paths: Vec<String> = Vec::new();
        let mut i: u32 = 0;
        while i < dir_entry.num_files
            invariant
                dir_entry.first_file_id + dir_entry.num_files <= u32::MAX + 1,
                forall|doc: int|
                    dir_entry.first_file_id <= doc < dir_entry.first_file_id + dir_entry.num_files && doc
                        < self.header.num_files ==> #[trigger] self.entry_readable(doc),
                0 <= i <= dir_entry.num_files,
                paths@.len() == i,
                forall|q: int| 0 <= q < i ==> #[trigger] self.file_record(dir_entry.first_file_id + q) is Some,
                forall|q: int|
                    0 <= q < i ==> (#[trigger] paths@[q])@ == utf8_lossy(
                        self.file_record(dir_entry.first_file_id + q)->0.path,
                    ),
            decreases dir_entry.num_files - i,
        {
            let doc_id = dir_entry.first_file_id + i;
            proof {
                if doc_id < self.header.num_files {
                    assert(self.entry_readable(doc_id as int));
                }
            }
            match self.file_path(doc_id) {
                Ok(p) => paths.push(p),
                Err(e) => {
                    return Err(e);
                },
            }
            i = i + 1;
        }
        Ok(paths)
    }
}

/// Whether `buf` holds a version 2 header cut short (see `is_truncated_v2_header`).
pub fn header_cut_short(buf: &[u8]) -> (b: bool)
    ensures
        b == is_truncated_v2_header(buf@),
{
    let n = buf.len();
    if n < HEADER_SIZE_V1 || n >= HEADER_SIZE_V2 {
        return false;
    }
    let mut i: usize = 0;
    while i < 7
        invariant
            0 <= i <= 7,
            n == buf@.len(),
            n >= HEADER_SIZE_V1,
            forall|j: int| 0 <= j < i ==> buf@[j] == magic_seq()[j],
        decreases 7 - i,
    {
        if buf[i] != MAGIC[i] {
            proof {
                assert(buf@.subrange(0, 7)[i as int] != magic_seq()[i as int]);
            }
            return false;
        }
        i = i + 1;
    }
    assert(buf@.subrange(0, 7) =~= magic_seq());
    read_u32_at(buf, 8) == FORMAT_VERSION
}

} // verus!
