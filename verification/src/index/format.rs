//! Record types of the index file and their fixed-size directory entries.
use vstd::prelude::*;
use crate::index::header::{read_u64_at, read_u32_at, u64_at, u32_at};

pub use crate::index::header::{
    Header, MAGIC, MAGIC_FULL, FORMAT_VERSION, HEADER_SIZE_V1, HEADER_SIZE_V2, FEATURE_DIR_TABLE,
    FEATURE_EXT_INDEX, FEATURE_BIGRAM_INDEX,
};
pub use crate::index::dir::DirTableEntry;
pub use crate::index::reader::IndexReader;
pub use crate::index::stats::TrigramStats;
pub use crate::index::writer::IndexWriter;

verus! {

/// One file as the index stores it.
#[derive(Debug, Clone)]
pub struct DiskFileEntry {
    pub full_path: String,
    pub size: u64,
    pub mtime: i64,
    pub mode: u32,
    pub mime_type: String,
}

/// A trigram directory slot: the trigram's three bytes, then where its bitmap lies in
/// the bitmap region and how long it is.
#[derive(Debug, Clone, Copy)]
pub struct TrigramEntry {
    pub trigram: [u8; 3],
    pub bitmap_offset: u64,
    pub bitmap_len: u32,
}

/// A bigram directory slot.
#[derive(Debug, Clone, Copy)]
pub struct BigramEntry {
    pub bigram: [u8; 2],
    pub bitmap_offset: u64,
    pub bitmap_len: u32,
}

/// An extension directory slot: the extension's key (its first eight bytes, or a hash
/// of a longer extension).
#[derive(Debug, Clone, Copy)]
pub struct ExtBitmapEntry {
    pub ext: [u8; 8],
    pub bitmap_offset: u64,
    pub bitmap_len: u32,
}

impl TrigramEntry {
    pub const ENTRY_SIZE: usize = 15;

    /// Decodes a slot from the first 15 bytes of `buf`.
    pub fn from_bytes(buf: &[u8]) -> (e: Self)
        requires
            buf@.len() >= 15,
        ensures
            e.trigram@ == buf@.subrange(0, 3),
            e.bitmap_offset == u64_at(buf@, 3),
            e.bitmap_len == u32_at(buf@, 11),
    {
        let trigram = [buf[0], buf[1], buf[2]];
        let bitmap_offset = read_u64_at(buf, 3);
        let bitmap_len = read_u32_at(buf, 11);
        proof {
            assert(trigram@ =~= buf@.subrange(0, 3));
        }
        TrigramEntry { trigram, bitmap_offset, bitmap_len }
    }
}

impl BigramEntry {
    pub const ENTRY_SIZE: usize = 14;

    /// Decodes a slot from the first 14 bytes of `buf`.
    pub fn from_bytes(buf: &[u8]) -> (e: Self)
        requires
            buf@.len() >= 14,
        ensures
            e.bigram@ == buf@.subrange(0, 2),
            e.bitmap_offset == u64_at(buf@, 2),
            e.bitmap_len == u32_at(buf@, 10),
    {
        let bigram = [buf[0], buf[1]];
        let bitmap_offset = read_u64_at(buf, 2);
        let bitmap_len = read_u32_at(buf, 10);
        proof {
            assert(bigram@ =~= buf@.subrange(0, 2));
        }
        BigramEntry { bigram, bitmap_offset, bitmap_len }
    }
}

impl ExtBitmapEntry {
    pub const ENTRY_SIZE: usize = 20;

    /// Decodes a slot from the first 20 bytes of `buf`.
    pub fn from_bytes(buf: &[u8]) -> (e: Self)
        requires
            buf@.len() >= 20,
        ensures
            e.ext@ == buf@.subrange(0, 8),
            e.bitmap_offset == u64_at(buf@, 8),
            e.bitmap_len == u32_at(buf@, 16),
    {
        let ext = [buf[0], buf[1], buf[2], buf[3], buf[4], buf[5], buf[6], buf[7]];
        let bitmap_offset = read_u64_at(buf, 8);
        let bitmap_len = read_u32_at(buf, 16);
        proof {
            assert(ext@ =~= buf@.subrange(0, 8));
        }
        ExtBitmapEntry { ext, bitmap_offset, bitmap_len }
    }
}

/// What an index records about the run that built it. Stored in the index as
/// zstd-compressed JSON.
#[derive(Debug, Clone)]
pub struct IndexConfig {
    pub indexed_paths: Vec<String>,
    pub pruned_paths: Vec<String>,
    pub timestamp: i64,
    pub hostname: String,
    pub total_bytes_indexed: u64,
    pub mlocate_version: String,
}

} // verus!
