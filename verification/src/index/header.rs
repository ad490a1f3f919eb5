use vstd::prelude::*;
use vstd::bytes::*;

verus! {

/// The first seven bytes of every index file.
pub const MAGIC: [u8; 7] = [0x6d, 0x6c, 0x6f, 0x63, 0x61, 0x74, 0x65];
/// The magic bytes followed by a NUL, as written at the start of a header.
pub const MAGIC_FULL: [u8; 8] = [0x6d, 0x6c, 0x6f, 0x63, 0x61, 0x74, 0x65, 0x00];
/// The format version this library writes.
pub const FORMAT_VERSION: u32 = 2;

pub const HEADER_SIZE_V1: usize = 72;
pub const HEADER_SIZE_V2: usize = 128;

pub const FEATURE_DIR_TABLE: u64 = 1;
pub const FEATURE_EXT_INDEX: u64 = 2;
pub const FEATURE_BIGRAM_INDEX: u64 = 4;

pub open spec fn magic_seq() -> Seq<u8> {
    seq![0x6du8, 0x6cu8, 0x6fu8, 0x63u8, 0x61u8, 0x74u8, 0x65u8]
}

pub open spec fn magic_full_seq() -> Seq<u8> {
    magic_seq().push(0u8)
}

#[derive(Debug, Clone, Copy)]
pub struct Header {
    pub version: u32,
    pub num_files: u64,
    pub num_trigrams: u64,
    pub config_offset: u64,
    pub config_len: u32,
    pub file_dir_offset: u64,
    pub file_offset_dir_offset: u64,
    pub trigram_dir_offset: u64,
    pub bitmap_data_offset: u64,
    pub dir_table_offset: u64,
    pub num_dir_entries: u64,
    pub ext_bitmap_dir_offset: u64,
    pub num_ext_entries: u64,
    pub bi_gram_dir_offset: u64,
    pub num_bi_gram_entries: u64,
    pub features: u64,
}

/// The 128 bytes that encode a header: magic, then each field in little-endian order.
pub open spec fn header_bytes(h: Header) -> Seq<u8> {
    magic_full_seq()
        + spec_u32_to_le_bytes(h.version)
        + spec_u64_to_le_bytes(h.num_files)
        + spec_u64_to_le_bytes(h.num_trigrams)
        + spec_u64_to_le_bytes(h.config_offset)
        + spec_u32_to_le_bytes(h.config_len)
        + spec_u64_to_le_bytes(h.file_dir_offset)
        + spec_u64_to_le_bytes(h.file_offset_dir_offset)
        + spec_u64_to_le_bytes(h.trigram_dir_offset)
        + spec_u64_to_le_bytes(h.bitmap_data_offset)
        + spec_u64_to_le_bytes(h.dir_table_offset)
        + spec_u64_to_le_bytes(h.num_dir_entries)
        + spec_u64_to_le_bytes(h.ext_bitmap_dir_offset)
        + spec_u64_to_le_bytes(h.num_ext_entries)
        + spec_u64_to_le_bytes(h.bi_gram_dir_offset)
        + spec_u64_to_le_bytes(h.num_bi_gram_entries)
        + spec_u64_to_le_bytes(h.features)
}

/// The little-endian `u64` stored at `off` in `b`.
pub open spec fn u64_at(b: Seq<u8>, off: int) -> u64 {
    spec_u64_from_le_bytes(b.subrange(off, off + 8))
}

/// The little-endian `u32` stored at `off` in `b`.
pub open spec fn u32_at(b: Seq<u8>, off: int) -> u32 {
    spec_u32_from_le_bytes(b.subrange(off, off + 4))
}

/// `b` starts with the seven magic bytes.
pub open spec fn has_magic(b: Seq<u8>) -> bool {
    b.len() >= 7 && b.subrange(0, 7) == magic_seq()
}

/// The header that `b` encodes, given that its magic and version were accepted:
/// the fields that only version 2 carries read as zero in a version 1 header.
pub open spec fn decoded_header(b: Seq<u8>) -> Header {
    let version = u32_at(b, 8);
    let v2 = version == FORMAT_VERSION;
    Header {
        version,
        num_files: u64_at(b, 12),
        num_trigrams: u64_at(b, 20),
        config_offset: u64_at(b, 28),
        config_len: u32_at(b, 36),
        file_dir_offset: u64_at(b, 40),
        file_offset_dir_offset: u64_at(b, 48),
        trigram_dir_offset: u64_at(b, 56),
        bitmap_data_offset: u64_at(b, 64),
        dir_table_offset: if v2 { u64_at(b, 72) } else { 0 },
        num_dir_entries: if v2 { u64_at(b, 80) } else { 0 },
        ext_bitmap_dir_offset: if v2 { u64_at(b, 88) } else { 0 },
        num_ext_entries: if v2 { u64_at(b, 96) } else { 0 },
        bi_gram_dir_offset: if v2 { u64_at(b, 104) } else { 0 },
        num_bi_gram_entries: if v2 { u64_at(b, 112) } else { 0 },
        features: if v2 { u64_at(b, 120) } else { 0 },
    }
}

/// A buffer that passes the magic and version checks but is a version 2 header
/// shorter than 128 bytes: reading its version 2 fields would run past its end.
pub open spec fn is_truncated_v2_header(b: Seq<u8>) -> bool {
    &&& b.len() >= HEADER_SIZE_V1
    &&& has_magic(b)
    &&& u32_at(b, 8) == FORMAT_VERSION
    &&& b.len() < HEADER_SIZE_V2
}

/// The version field of a header that passed the length and magic checks is accepted.
pub open spec fn version_supported(b: Seq<u8>) -> bool {
    u32_at(b, 8) == 1 || u32_at(b, 8) == FORMAT_VERSION
}

pub(crate) fn read_u64_at(b: &[u8], off: usize) -> (v: u64)
    requires
        off + 8 <= b@.len(),
    ensures
        v == u64_at(b@, off as int),
{
    let _n = b.len();
    u64_from_le_bytes(&b[off..off + 8])
}

pub(crate) fn read_u32_at(b: &[u8], off: usize) -> (v: u32)
    requires
        off + 4 <= b@.len(),
    ensures
        v == u32_at(b@, off as int),
{
    let _n = b.len();
    u32_from_le_bytes(&b[off..off + 4])
}

pub(crate) fn push_u64(buf: &mut Vec<u8>, v: u64)
    ensures
        final(buf)@ == old(buf)@ + spec_u64_to_le_bytes(v),
{
    let mut bytes = u64_to_le_bytes(v);
    buf.append(&mut bytes);
}

pub(crate) fn push_u32(buf: &mut Vec<u8>, v: u32)
    ensures
        final(buf)@ == old(buf)@ + spec_u32_to_le_bytes(v),
{
    let mut bytes = u32_to_le_bytes(v);
    buf.append(&mut bytes);
}

/// Appends the bytes of `b` to `buf`.
pub(crate) fn push_bytes(buf: &mut Vec<u8>, b: &[u8])
    ensures
        final(buf)@ == old(buf)@ + b@,
{
    let n = b.len();
    let mut i: usize = 0;
    while i < n
        invariant
            n == b@.len(),
            0 <= i <= n,
            buf@ == old(buf)@ + b@.take(i as int),
        decreases n - i,
    {
        buf.push(b[i]);
        proof {
            assert(old(buf)@ + b@.take(i + 1) =~= (old(buf)@ + b@.take(i as int)).push(b@[i as int]));
        }
        i = i + 1;
    }
    proof {
        assert(b@.take(n as int) =~= b@);
    }
}

impl Header {
    /// Encodes the header in its 128-byte on-disk form.
    pub fn to_bytes(&self) -> (buf: Vec<u8>)
        ensures
            buf@ == header_bytes(*self),
            buf@.len() == HEADER_SIZE_V2,
    {
        let mut buf: Vec<u8> = Vec::with_capacity(HEADER_SIZE_V2);
        let mut i: usize = 0;
        while i < 8
            invariant
                0 <= i <= 8,
                buf@ == magic_full_seq().subrange(0, i as int),
            decreases 8 - i,
        {
            buf.push(MAGIC_FULL[i]);
            i = i + 1;
        }
        push_u32(&mut buf, self.version);
        push_u64(&mut buf, self.num_files);
        push_u64(&mut buf, self.num_trigrams);
        push_u64(&mut buf, self.config_offset);
        push_u32(&mut buf, self.config_len);
        push_u64(&mut buf, self.file_dir_offset);
        push_u64(&mut buf, self.file_offset_dir_offset);
        push_u64(&mut buf, self.trigram_dir_offset);
        push_u64(&mut buf, self.bitmap_data_offset);
        push_u64(&mut buf, self.dir_table_offset);
        push_u64(&mut buf, self.num_dir_entries);
        push_u64(&mut buf, self.ext_bitmap_dir_offset);
        push_u64(&mut buf, self.num_ext_entries);
        push_u64(&mut buf, self.bi_gram_dir_offset);
        push_u64(&mut buf, self.num_bi_gram_entries);
        push_u64(&mut buf, self.features);
        proof {
            lemma_auto_spec_u64_to_from_le_bytes();
            lemma_auto_spec_u32_to_from_le_bytes();
        }
        buf
    }
}

impl Header {
    /// Decodes a header from the start of `buf`. Version 1 headers carry only the first
    /// 72 bytes; their later fields read as zero.
    pub fn from_bytes(buf: &[u8]) -> (r: Result<Self, &'static str>)
        requires
            !is_truncated_v2_header(buf@),
        ensures
            buf@.len() < HEADER_SIZE_V1 ==> (r matches Err(e) && e@ == "header too short"@),
            buf@.len() >= HEADER_SIZE_V1 && !has_magic(buf@) ==> (r matches Err(e) && e@
                == "invalid magic bytes"@),
            buf@.len() >= HEADER_SIZE_V1 && has_magic(buf@) && !version_supported(buf@) ==> (r matches Err(
                e,
            ) && e@ == "unsupported format version"@),
            buf@.len() >= HEADER_SIZE_V1 && has_magic(buf@) && version_supported(buf@) ==> r == Ok::<
                Header,
                &'static str,
            >(decoded_header(buf@)),
    {
        if buf.len() < HEADER_SIZE_V1 {
            return Err("header too short");
        }
        let mut i: usize = 0;
        while i < 7
            invariant
                0 <= i <= 7,
                buf@.len() >= HEADER_SIZE_V1,
                forall|j: int| 0 <= j < i ==> buf@[j] == magic_seq()[j],
            decreases 7 - i,
        {
            if buf[i] != MAGIC[i] {
                proof {
                    assert(buf@.subrange(0, 7)[i as int] != magic_seq()[i as int]);
                }
                return Err("invalid magic bytes");
            }
            i = i + 1;
        }
        assert(buf@.subrange(0, 7) =~= magic_seq());
        let version = read_u32_at(buf, 8);
        if version != 1 && version != FORMAT_VERSION {
            return Err("unsupported format version");
        }
        let v2 = version == FORMAT_VERSION;
        Ok(Header {
            version,
            num_files: read_u64_at(buf, 12),
            num_trigrams: read_u64_at(buf, 20),
            config_offset: read_u64_at(buf, 28),
            config_len: read_u32_at(buf, 36),
            file_dir_offset: read_u64_at(buf, 40),
            file_offset_dir_offset: read_u64_at(buf, 48),
            trigram_dir_offset: read_u64_at(buf, 56),
            bitmap_data_offset: read_u64_at(buf, 64),
            dir_table_offset: if v2 { read_u64_at(buf, 72) } else { 0 },
            num_dir_entries: if v2 { read_u64_at(buf, 80) } else { 0 },
            ext_bitmap_dir_offset: if v2 { read_u64_at(buf, 88) } else { 0 },
            num_ext_entries: if v2 { read_u64_at(buf, 96) } else { 0 },
            bi_gram_dir_offset: if v2 { read_u64_at(buf, 104) } else { 0 },
            num_bi_gram_entries: if v2 { read_u64_at(buf, 112) } else { 0 },
            features: if v2 { read_u64_at(buf, 120) } else { 0 },
        })
    }
}

/// The encoded header is 128 bytes long, starts with the magic bytes, and each field
/// reads back from its offset.
pub proof fn lemma_header_bytes_fields(h: Header)
    ensures
        header_bytes(h).len() == HEADER_SIZE_V2,
        has_magic(header_bytes(h)),
        u32_at(header_bytes(h), 8) == h.version,
        u64_at(header_bytes(h), 12) == h.num_files,
        u64_at(header_bytes(h), 20) == h.num_trigrams,
        u64_at(header_bytes(h), 28) == h.config_offset,
        u32_at(header_bytes(h), 36) == h.config_len,
        u64_at(header_bytes(h), 40) == h.file_dir_offset,
        u64_at(header_bytes(h), 48) == h.file_offset_dir_offset,
        u64_at(header_bytes(h), 56) == h.trigram_dir_offset,
        u64_at(header_bytes(h), 64) == h.bitmap_data_offset,
        u64_at(header_bytes(h), 72) == h.dir_table_offset,
        u64_at(header_bytes(h), 80) == h.num_dir_entries,
        u64_at(header_bytes(h), 88) == h.ext_bitmap_dir_offset,
        u64_at(header_bytes(h), 96) == h.num_ext_entries,
        u64_at(header_bytes(h), 104) == h.bi_gram_dir_offset,
        u64_at(header_bytes(h), 112) == h.num_bi_gram_entries,
        u64_at(header_bytes(h), 120) == h.features,
{
    lemma_auto_spec_u64_to_from_le_bytes();
    lemma_auto_spec_u32_to_from_le_bytes();
    let b = header_bytes(h);
    assert(b.len() == 128);
    assert(b.subrange(0, 7) =~= magic_seq());
    assert(b.subrange(8, 12) =~= spec_u32_to_le_bytes(h.version));
    assert(b.subrange(12, 20) =~= spec_u64_to_le_bytes(h.num_files));
    assert(b.subrange(20, 28) =~= spec_u64_to_le_bytes(h.num_trigrams));
    assert(b.subrange(28, 36) =~= spec_u64_to_le_bytes(h.config_offset));
    assert(b.subrange(36, 40) =~= spec_u32_to_le_bytes(h.config_len));
    assert(b.subrange(40, 48) =~= spec_u64_to_le_bytes(h.file_dir_offset));
    assert(b.subrange(48, 56) =~= spec_u64_to_le_bytes(h.file_offset_dir_offset));
    assert(b.subrange(56, 64) =~= spec_u64_to_le_bytes(h.trigram_dir_offset));
    assert(b.subrange(64, 72) =~= spec_u64_to_le_bytes(h.bitmap_data_offset));
    assert(b.subrange(72, 80) =~= spec_u64_to_le_bytes(h.dir_table_offset));
    assert(b.subrange(80, 88) =~= spec_u64_to_le_bytes(h.num_dir_entries));
    assert(b.subrange(88, 96) =~= spec_u64_to_le_bytes(h.ext_bitmap_dir_offset));
    assert(b.subrange(96, 104) =~= spec_u64_to_le_bytes(h.num_ext_entries));
    assert(b.subrange(104, 112) =~= spec_u64_to_le_bytes(h.bi_gram_dir_offset));
    assert(b.subrange(112, 120) =~= spec_u64_to_le_bytes(h.num_bi_gram_entries));
    assert(b.subrange(120, 128) =~= spec_u64_to_le_bytes(h.features));
}

/// Decoding the encoding of a version 2 header gives the header back: what `to_bytes`
/// writes, `from_bytes` reads as the same header.
pub proof fn lemma_header_roundtrip(h: Header)
    requires
        h.version == FORMAT_VERSION,
    ensures
        !is_truncated_v2_header(header_bytes(h)),
        header_bytes(h).len() >= HEADER_SIZE_V1,
        has_magic(header_bytes(h)),
        version_supported(header_bytes(h)),
        decoded_header(header_bytes(h)) == h,
{
    lemma_header_bytes_fields(h);
}

/// Two sequences that agree on a prefix agree on every range inside it.
pub proof fn lemma_subrange_of_prefix(a: Seq<u8>, b: Seq<u8>, i: int, j: int)
    requires
        b.len() >= a.len(),
        b.subrange(0, a.len() as int) == a,
        0 <= i <= j <= a.len(),
    ensures
        b.subrange(i, j) == a.subrange(i, j),
{
    assert(b.subrange(i, j) =~= a.subrange(i, j));
}

/// Any buffer that starts with the whole of a header's bytes decodes to the same header.
pub proof fn lemma_decoded_header_prefix(a: Seq<u8>, b: Seq<u8>)
    requires
        a.len() >= HEADER_SIZE_V2,
        b.len() >= a.len(),
        b.subrange(0, a.len() as int) == a,
    ensures
        decoded_header(b) == decoded_header(a),
        has_magic(b) == has_magic(a),
        u32_at(b, 8) == u32_at(a, 8),
{
    lemma_subrange_of_prefix(a, b, 0, 7);
    lemma_subrange_of_prefix(a, b, 8, 12);
    lemma_subrange_of_prefix(a, b, 36, 40);
    lemma_subrange_of_prefix(a, b, 12, 20);
    lemma_subrange_of_prefix(a, b, 20, 28);
    lemma_subrange_of_prefix(a, b, 28, 36);
    lemma_subrange_of_prefix(a, b, 40, 48);
    lemma_subrange_of_prefix(a, b, 48, 56);
    lemma_subrange_of_prefix(a, b, 56, 64);
    lemma_subrange_of_prefix(a, b, 64, 72);
    lemma_subrange_of_prefix(a, b, 72, 80);
    lemma_subrange_of_prefix(a, b, 80, 88);
    lemma_subrange_of_prefix(a, b, 88, 96);
    lemma_subrange_of_prefix(a, b, 96, 104);
    lemma_subrange_of_prefix(a, b, 104, 112);
    lemma_subrange_of_prefix(a, b, 112, 120);
    lemma_subrange_of_prefix(a, b, 120, 128);
}

} // verus!
