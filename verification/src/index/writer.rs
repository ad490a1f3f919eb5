use vstd::prelude::*;
use std::collections::BTreeMap;
use roaring::RoaringBitmap;
use vstd::std_specs::btree::increasing_seq;
use vstd::std_specs::iter::IteratorSpec;
use vstd::std_specs::cmp::OrdSpec;
use vstd::string::*;
use crate::bitmap::{roaring_set, roaring_decoded, bitmap_serialize, bitmap_new, bitmap_insert, bitmap_is_empty};
use crate::index::layout::{FileRecord, record_bytes, record_pieces, file_dir_bytes, record_offset, pack_be, pack_key, pow256, lemma_pack_bound, lemma_pow256_8, lemma_concat_push, concat, bytes_lt, compare_bytes, lemma_bytes_lt_total, lemma_bytes_lt_transitive, lemma_bytes_lt_irreflexive, lemma_bytes_lt_asymmetric};
use crate::index::header::{Header, push_u64, push_u32, push_bytes, FORMAT_VERSION, HEADER_SIZE_V2, FEATURE_DIR_TABLE, FEATURE_EXT_INDEX, FEATURE_BIGRAM_INDEX};
use crate::index::image::{index_encodes, body_encodes, index_lays_out, body_lays_out, lemma_laid_out_encodes, emit_table, emit_dirs, emit_offsets, overwrite_prefix, lemma_body_layout};
use crate::codec::{zstd_compress, zstd_compressed, crc32, crc32_of, io_error_other};
use crate::index::header::u32_at;
use vstd::bytes::*;
use crate::index::dir::DirTableEntry;

verus! {

broadcast use {vstd::std_specs::btree::group_btree_axioms, vstd::laws_cmp::group_laws_cmp};

/// Keys that a map iterator yields in increasing order are strictly increasing numbers.
proof fn lemma_increasing_u64(ks: Seq<u64>)
    requires
        increasing_seq(ks),
    ensures
        forall|i: int, j: int| 0 <= i < j < ks.len() ==> ks[i] < ks[j],
{
    assert forall|i: int, j: int| 0 <= i < j < ks.len() implies ks[i] < ks[j] by {
        assert(ks[i].cmp_spec(&ks[j]) is Less);
    }
}

/// Serializes the bitmaps of a map in increasing key order.
fn sorted_blobs(map: &BTreeMap<u64, RoaringBitmap>) -> (r: (Vec<u64>, Vec<Vec<u8>>))
    ensures
        r.0@.len() == r.1@.len(),
        forall|i: int, j: int| 0 <= i < j < r.0@.len() ==> r.0@[i] < r.0@[j],
        forall|k: u64| map@.contains_key(k) <==> r.0@.contains(k),
        forall|j: int|
            0 <= j < r.0@.len() ==> roaring_decoded(#[trigger] r.1@[j]@) == Some(
                roaring_set(map@[r.0@[j]]),
            ) && r.1@[j]@.len() <= 0x2100_0000 + 4 * roaring_set(map@[r.0@[j]]).len(),
{
    let mut keys: Vec<u64> = Vec::new();
    let mut blobs: Vec<Vec<u8>> = Vec::new();
    let iter0 = map.iter();
    let ghost rem = iter0.remaining();
    assert(increasing_seq(rem.map_values(|kv: (&u64, &RoaringBitmap)| *kv.0)));
    for kv in it: iter0
        invariant
            it.seq() == rem,
            keys@.len() == blobs@.len(),
            keys@.len() == it.index(),
            forall|j: int| 0 <= j < keys@.len() ==> keys@[j] == *it.seq()[j].0,
            forall|j: int|
                0 <= j < keys@.len() ==> roaring_decoded(#[trigger] blobs@[j]@) == Some(
                    roaring_set(*it.seq()[j].1),
                ) && blobs@[j]@.len() <= 0x2100_0000 + 4 * roaring_set(*it.seq()[j].1).len(),
    {
        let (k, bm) = kv;
        keys.push(*k);
        blobs.push(bitmap_serialize(bm));
    }
    proof {
        let ks = rem.map_values(|kv: (&u64, &RoaringBitmap)| *kv.0);
        assert(keys@ =~= ks);
        lemma_increasing_u64(ks);
        assert forall|k: u64| map@.contains_key(k) <==> keys@.contains(k) by {
            if map@.contains_key(k) {
                assert(rem.contains((&k, &map@[k])));
                let j = choose|j: int| 0 <= j < rem.len() && rem[j] == (&k, &map@[k]);
                assert(keys@[j] == k);
            }
            if keys@.contains(k) {
                let j = choose|j: int| 0 <= j < keys@.len() && keys@[j] == k;
                assert(map@.contains_key(*rem[j].0));
            }
        }
    }
    (keys, blobs)
}

/// Whether every serialized bitmap fits a `u32` length.
fn blobs_fit(blobs: &Vec<Vec<u8>>) -> (b: bool)
    ensures
        b == forall|j: int| 0 <= j < blobs@.len() ==> #[trigger] blobs@[j]@.len() <= u32::MAX,
{
    let mut j: usize = 0;
    while j < blobs.len()
        invariant
            0 <= j <= blobs@.len(),
            forall|q: int| 0 <= q < j ==> #[trigger] blobs@[q]@.len() <= u32::MAX,
        decreases blobs@.len() - j,
    {
        if blobs[j].len() > 0xffff_ffffusize {
            return false;
        }
        j = j + 1;
    }
    true
}

/// The most documents one key's bitmap may hold for its serialized form to be sure to fit
/// the table's `u32` length field.
pub open spec fn max_docs_per_key() -> int {
    0x3780_0000
}

/// Every key of the map has at most `max_docs_per_key()` documents.
pub open spec fn docs_fit(m: Map<u64, Set<u32>>) -> bool {
    forall|k: u64| #[trigger] m.contains_key(k) ==> m[k].len() <= max_docs_per_key()
}

/// The document sets of a bitmap map, keyed as the map is.
pub open spec fn docs_of(m: Map<u64, RoaringBitmap>) -> Map<u64, Set<u32>> {
    m.map_values(|b: RoaringBitmap| roaring_set(b))
}

/// The documents recorded under `key`, empty when there are none.
pub open spec fn docs_at(m: Map<u64, Set<u32>>, key: u64) -> Set<u32> {
    if m.contains_key(key) {
        m[key]
    } else {
        Set::empty()
    }
}

/// The entries of `m` whose document sets are not empty.
pub open spec fn non_empty(m: Map<u64, Set<u32>>) -> Map<u64, Set<u32>> {
    m.restrict(Set::new(|k: u64| m.contains_key(k) && m[k] != Set::<u32>::empty()))
}

/// Records `doc_id` under `key` in a bitmap map.
fn add_doc(m: &mut BTreeMap<u64, RoaringBitmap>, key: u64, doc_id: u32)
    ensures
        docs_of(final(m)@) == docs_of(old(m)@).insert(key, docs_at(docs_of(old(m)@), key).insert(doc_id)),
{
    let mut bm = match m.remove(&key) {
        Some(b) => b,
        None => bitmap_new(),
    };
    bitmap_insert(&mut bm, doc_id);
    m.insert(key, bm);
    proof {
        assert(docs_of(m@) =~= docs_of(old(m)@).insert(key, docs_at(docs_of(old(m)@), key).insert(doc_id)));
    }
}

/// The keys of a bitmap map, in increasing order.
fn map_keys(m: &BTreeMap<u64, RoaringBitmap>) -> (keys: Vec<u64>)
    ensures
        forall|k: u64| m@.contains_key(k) <==> keys@.contains(k),
{
    let mut keys: Vec<u64> = Vec::new();
    let iter0 = m.iter();
    let ghost rem = iter0.remaining();
    for kv in it: iter0
        invariant
            it.seq() == rem,
            keys@.len() == it.index(),
            forall|j: int| 0 <= j < keys@.len() ==> keys@[j] == *it.seq()[j].0,
    {
        let (k, _bm) = kv;
        keys.push(*k);
    }
    proof {
        assert forall|k: u64| m@.contains_key(k) <==> keys@.contains(k) by {
            if m@.contains_key(k) {
                assert(rem.contains((&k, &m@[k])));
                let j = choose|j: int| 0 <= j < rem.len() && rem[j] == (&k, &m@[k]);
                assert(keys@[j] == k);
            }
            if keys@.contains(k) {
                let j = choose|j: int| 0 <= j < keys@.len() && keys@[j] == k;
                assert(m@.contains_key(*rem[j].0));
            }
        }
    }
    keys
}

/// Drops the keys of a bitmap map whose bitmaps are empty.
fn drop_empty(m: &mut BTreeMap<u64, RoaringBitmap>)
    ensures
        docs_of(final(m)@) == non_empty(docs_of(old(m)@)),
{
    let keys = map_keys(m);
    let ghost orig = m@;
    let mut i: usize = 0;
    while i < keys.len()
        invariant
            0 <= i <= keys@.len(),
            forall|k: u64| orig.contains_key(k) <==> keys@.contains(k),
            forall|k: u64|
                #[trigger] m@.contains_key(k) <==> (orig.contains_key(k) && !(keys@.take(i as int).contains(k)
                    && roaring_set(orig[k]) == Set::<u32>::empty())),
            forall|k: u64| #[trigger] m@.contains_key(k) ==> m@[k] == orig[k],
        decreases keys@.len() - i,
    {
        let k = keys[i];
        let ghost before = m@;
        proof {
            assert(keys@.contains(k));
            assert(orig.contains_key(k));
        }
        let empty = match m.get(&k) {
            Some(b) => bitmap_is_empty(b),
            None => false,
        };
        proof {
            if before.contains_key(k) {
                assert(empty == (roaring_set(orig[k]) == Set::<u32>::empty()));
            } else {
                assert(keys@.take(i as int).contains(k));
                assert(roaring_set(orig[k]) == Set::<u32>::empty());
            }
        }
        if empty {
            m.remove(&k);
        }
        proof {
            assert forall|x: u64|
                keys@.take(i + 1).contains(x) <==> (keys@.take(i as int).contains(x) || x == k) by {
                if keys@.take(i + 1).contains(x) {
                    let q = choose|q: int| 0 <= q < i + 1 && #[trigger] keys@.take(i + 1)[q] == x;
                    if q < i {
                        assert(keys@.take(i as int)[q] == x);
                    }
                }
                if keys@.take(i as int).contains(x) {
                    let q = choose|q: int| 0 <= q < i && #[trigger] keys@.take(i as int)[q] == x;
                    assert(keys@.take(i + 1)[q] == x);
                }
                if x == k {
                    assert(keys@.take(i + 1)[i as int] == x);
                }
            }
            assert forall|x: u64|
                #[trigger] m@.contains_key(x) <==> (orig.contains_key(x) && !(keys@.take(i + 1).contains(x)
                    && roaring_set(orig[x]) == Set::<u32>::empty())) by {
                if x == k {
                    if empty {
                        assert(!m@.contains_key(x));
                        assert(keys@.take(i + 1).contains(x));
                    } else {
                        assert(m@ == before);
                        assert(m@.contains_key(x) <==> (orig.contains_key(x) && !(keys@.take(i + 1).contains(x)
                            && roaring_set(orig[x]) == Set::<u32>::empty())));
                    }
                } else {
                    assert(before.contains_key(x) <==> (orig.contains_key(x) && !(keys@.take(i as int).contains(x)
                        && roaring_set(orig[x]) == Set::<u32>::empty())));
                    assert(keys@.take(i + 1).contains(x) <==> keys@.take(i as int).contains(x));
                    if empty {
                        assert(m@ == before.remove(k));
                        assert(m@.contains_key(x) == before.contains_key(x));
                    } else {
                        assert(m@ == before);
                    }
                }
            }
        }
        i = i + 1;
        proof {
            assert(forall|x: u64|
                #[trigger] m@.contains_key(x) <==> (orig.contains_key(x) && !(keys@.take(i as int).contains(x)
                    && roaring_set(orig[x]) == Set::<u32>::empty())));
        }
    }
    proof {
        assert(keys@.take(keys@.len() as int) =~= keys@);
        assert(docs_of(m@) =~= non_empty(docs_of(orig)));
    }
}

/// The sort key of a directory entry: its path's UTF-8 bytes.
pub open spec fn dir_key(e: DirTableEntry) -> Seq<u8> {
    vstd::utf8::encode_utf8(e.path@)
}

/// Directory entries in non-decreasing order of path bytes.
pub open spec fn dirs_sorted(s: Seq<DirTableEntry>) -> bool {
    forall|i: int, j: int| 0 <= i < j < s.len() ==> !bytes_lt(#[trigger] dir_key(s[j]), #[trigger] dir_key(s[i]))
}

/// Builds an index in memory: files with their metadata, the trigram, bigram and
/// extension bitmaps of each file, and the directory table.
pub struct IndexWriter {
    file_dir_buf: Vec<u8>,
    file_offsets: Vec<u64>,
    trigrams: BTreeMap<u64, RoaringBitmap>,
    bigrams: BTreeMap<u64, RoaringBitmap>,
    ext_bitmaps: BTreeMap<u64, RoaringBitmap>,
    dir_entries: Vec<DirTableEntry>,
    records: Ghost<Seq<FileRecord>>,
}

impl IndexWriter {
    /// The files added so far, in order; file `i` has id `i`.
    pub closed spec fn files(&self) -> Seq<FileRecord> {
        self.records@
    }

    /// Documents per trigram key (the big-endian value of the trigram's three bytes).
    pub closed spec fn trigram_docs(&self) -> Map<u64, Set<u32>> {
        docs_of(self.trigrams@)
    }

    /// Documents per bigram key (the big-endian value of the bigram's two bytes).
    pub closed spec fn bigram_docs(&self) -> Map<u64, Set<u32>> {
        docs_of(self.bigrams@)
    }

    /// Documents per extension key (the big-endian value of the key's eight bytes).
    pub closed spec fn ext_docs(&self) -> Map<u64, Set<u32>> {
        docs_of(self.ext_bitmaps@)
    }

    /// The directory entries added so far, in order.
    pub closed spec fn dirs(&self) -> Seq<DirTableEntry> {
        self.dir_entries@
    }

    /// The file directory buffer holds the records of the files added, and the offset
    /// table holds where each starts.
    pub closed spec fn wf(&self) -> bool {
        &&& self.file_dir_buf@ == file_dir_bytes(self.records@)
        &&& self.file_offsets@.len() == self.records@.len()
        &&& forall|i: int|
            0 <= i < self.records@.len() ==> self.file_offsets@[i] == record_offset(self.records@, i)
        &&& dirs_sorted(self.dir_entries@)
        &&& forall|k: u64| #[trigger] self.trigrams@.contains_key(k) ==> k < pow256(3)
        &&& forall|k: u64| #[trigger] self.bigrams@.contains_key(k) ==> k < pow256(2)
    }

    pub fn new() -> (w: Self)
        ensures
            w.wf(),
            w.files() == Seq::<FileRecord>::empty(),
            w.trigram_docs() == Map::<u64, Set<u32>>::empty(),
            w.bigram_docs() == Map::<u64, Set<u32>>::empty(),
            w.ext_docs() == Map::<u64, Set<u32>>::empty(),
            w.dirs() == Seq::<DirTableEntry>::empty(),
    {
        let w = IndexWriter {
            file_dir_buf: Vec::new(),
            file_offsets: Vec::new(),
            trigrams: BTreeMap::new(),
            bigrams: BTreeMap::new(),
            ext_bitmaps: BTreeMap::new(),
            dir_entries: Vec::new(),
            records: Ghost(Seq::empty()),
        };
        proof {
            assert(docs_of(w.trigrams@) =~= Map::<u64, Set<u32>>::empty());
            assert(docs_of(w.bigrams@) =~= Map::<u64, Set<u32>>::empty());
            assert(docs_of(w.ext_bitmaps@) =~= Map::<u64, Set<u32>>::empty());
            assert(record_pieces(Seq::<FileRecord>::empty()) =~= Seq::<Seq<u8>>::empty());
        }
        w
    }

    /// Appends a file's record and returns its id, the number of files before it.
    pub fn add_file(&mut self, full_path: &str, size: u64, mtime: i64, mode: u32, mime_type: &str) -> (id: u32)
        requires
            old(self).wf(),
        ensures
            final(self).wf(),
            id == old(self).files().len() as u32,
            final(self).files() == old(self).files().push(
                FileRecord { path: full_path.spec_bytes(), size, mtime, mode, mime: mime_type.spec_bytes() },
            ),
            final(self).trigram_docs() == old(self).trigram_docs(),
            final(self).bigram_docs() == old(self).bigram_docs(),
            final(self).ext_docs() == old(self).ext_docs(),
            final(self).dirs() == old(self).dirs(),
    {
        let id = self.file_offsets.len() as u32;
        let pos = self.file_dir_buf.len() as u64;
        self.file_offsets.push(pos);
        let path_bytes = full_path.as_bytes();
        let mime_bytes = mime_type.as_bytes();
        push_u32(&mut self.file_dir_buf, path_bytes.len() as u32);
        push_bytes(&mut self.file_dir_buf, path_bytes);
        push_u64(&mut self.file_dir_buf, size);
        push_u64(&mut self.file_dir_buf, mtime as u64);
        push_u32(&mut self.file_dir_buf, mode);
        self.file_dir_buf.push(mime_bytes.len() as u8);
        push_bytes(&mut self.file_dir_buf, mime_bytes);
        let ghost rec = FileRecord { path: full_path.spec_bytes(), size, mtime, mode, mime: mime_type.spec_bytes() };
        let ghost old_recs = self.records@;
        self.records = Ghost(self.records@.push(rec));
        proof {
            let recs = self.records@;
            assert(record_pieces(recs) =~= record_pieces(old_recs).push(record_bytes(rec)));
            lemma_concat_push(record_pieces(old_recs), record_bytes(rec));
            assert(self.file_dir_buf@ =~= file_dir_bytes(recs));
            assert(old(self).file_dir_buf@ == file_dir_bytes(old_recs));
            assert(pos == old(self).file_dir_buf@.len());
            assert forall|i: int| 0 <= i < recs.len() implies self.file_offsets@[i] == record_offset(recs, i) by {
                if i < old_recs.len() {
                    assert(record_pieces(recs).take(i) =~= record_pieces(old_recs).take(i));
                    assert(self.file_offsets@[i] == old(self).file_offsets@[i]);
                    assert(record_offset(recs, i) == record_offset(old_recs, i));
                    assert(self.file_offsets@[i] == record_offset(recs, i));
                } else {
                    assert(record_pieces(recs).take(i) =~= record_pieces(old_recs));
                    assert(self.file_offsets@[i] == pos);
                    assert(record_offset(recs, i) == concat(record_pieces(old_recs)).len());
                    assert(self.file_offsets@[i] == record_offset(recs, i));
                }
            }
        }
        id
    }

    /// Records that document `doc_id` contains the trigram with these bytes.
    pub fn add_trigram_doc(&mut self, trigram: [u8; 3], doc_id: u32)
        requires
            old(self).wf(),
        ensures
            final(self).wf(),
            final(self).trigram_docs() == old(self).trigram_docs().insert(
                pack_be(trigram@) as u64,
                docs_at(old(self).trigram_docs(), pack_be(trigram@) as u64).insert(doc_id),
            ),
            final(self).files() == old(self).files(),
            final(self).bigram_docs() == old(self).bigram_docs(),
            final(self).ext_docs() == old(self).ext_docs(),
            final(self).dirs() == old(self).dirs(),
    {
        let key = pack_key(&trigram);
        add_doc(&mut self.trigrams, key, doc_id);
        proof {
            lemma_pack_bound(trigram@);
            assert forall|k: u64| #[trigger] self.trigrams@.contains_key(k) implies k < pow256(3) by {
                assert(docs_of(self.trigrams@).contains_key(k));
                if k != key {
                    assert(docs_of(old(self).trigrams@).contains_key(k));
                }
            }
        }
    }

    /// Records that document `doc_id` contains the bigram with these bytes.
    pub fn add_bigram_doc(&mut self, bigram: [u8; 2], doc_id: u32)
        requires
            old(self).wf(),
        ensures
            final(self).wf(),
            final(self).bigram_docs() == old(self).bigram_docs().insert(
                pack_be(bigram@) as u64,
                docs_at(old(self).bigram_docs(), pack_be(bigram@) as u64).insert(doc_id),
            ),
            final(self).files() == old(self).files(),
            final(self).trigram_docs() == old(self).trigram_docs(),
            final(self).ext_docs() == old(self).ext_docs(),
            final(self).dirs() == old(self).dirs(),
    {
        let key = pack_key(&bigram);
        add_doc(&mut self.bigrams, key, doc_id);
        proof {
            lemma_pack_bound(bigram@);
            assert forall|k: u64| #[trigger] self.bigrams@.contains_key(k) implies k < pow256(2) by {
                assert(docs_of(self.bigrams@).contains_key(k));
                if k != key {
                    assert(docs_of(old(self).bigrams@).contains_key(k));
                }
            }
        }
    }

    /// Records that document `doc_id` has the extension with this key.
    pub fn add_ext_doc(&mut self, ext: [u8; 8], doc_id: u32)
        requires
            old(self).wf(),
        ensures
            final(self).wf(),
            final(self).ext_docs() == old(self).ext_docs().insert(
                pack_be(ext@) as u64,
                docs_at(old(self).ext_docs(), pack_be(ext@) as u64).insert(doc_id),
            ),
            final(self).files() == old(self).files(),
            final(self).trigram_docs() == old(self).trigram_docs(),
            final(self).bigram_docs() == old(self).bigram_docs(),
            final(self).dirs() == old(self).dirs(),
    {
        let key = pack_key(&ext);
        add_doc(&mut self.ext_bitmaps, key, doc_id);
    }

    /// Adds a directory entry, keeping the table sorted by path: the entry goes after
    /// every entry whose path sorts before or equal to its own, and before the rest.
    pub fn add_dir(&mut self, path: &str, mtime: i64, ino: u64, first_file_id: u32, num_files: u32)
        requires
            old(self).wf(),
        ensures
            final(self).wf(),
            exists|p: int|
                0 <= p <= old(self).dirs().len() && final(self).dirs() == old(self).dirs().insert(p, final(self).dirs()[p])
                    && (forall|q: int| 0 <= q < p ==> !bytes_lt(path.spec_bytes(), #[trigger] dir_key(old(self).dirs()[q])))
                    && (forall|q: int| p <= q < old(self).dirs().len() ==> bytes_lt(path.spec_bytes(), #[trigger] dir_key(old(self).dirs()[q])))
                    && final(self).dirs()[p].path@ == path@ && final(self).dirs()[p].mtime == mtime
                    && final(self).dirs()[p].ino == ino && final(self).dirs()[p].first_file_id == first_file_id
                    && final(self).dirs()[p].num_files == num_files,
            final(self).files() == old(self).files(),
            final(self).trigram_docs() == old(self).trigram_docs(),
            final(self).bigram_docs() == old(self).bigram_docs(),
            final(self).ext_docs() == old(self).ext_docs(),
    {
        let key = path.as_bytes();
        let mut p: usize = 0;
        while p < self.dir_entries.len() && compare_bytes(key, self.dir_entries[p].path.as_str().as_bytes()) >= 0
            invariant
                0 <= p <= self.dir_entries@.len(),
                self.dir_entries@ == old(self).dir_entries@,
                key@ == path.spec_bytes(),
                forall|q: int| 0 <= q < p ==> !bytes_lt(path.spec_bytes(), #[trigger] dir_key(self.dir_entries@[q])),
            decreases self.dir_entries@.len() - p,
        {
            p = p + 1;
        }
        proof {
            if p < self.dir_entries@.len() {
                assert(bytes_lt(path.spec_bytes(), dir_key(self.dir_entries@[p as int])));
                assert forall|q: int| p <= q < self.dir_entries@.len() implies bytes_lt(path.spec_bytes(), #[trigger] dir_key(self.dir_entries@[q])) by {
                    if q > p {
                        assert(!bytes_lt(dir_key(self.dir_entries@[q]), dir_key(self.dir_entries@[p as int])));
                        lemma_bytes_lt_total(dir_key(self.dir_entries@[q]), dir_key(self.dir_entries@[p as int]));
                        if dir_key(self.dir_entries@[q]) != dir_key(self.dir_entries@[p as int]) {
                            lemma_bytes_lt_transitive(path.spec_bytes(), dir_key(self.dir_entries@[p as int]), dir_key(self.dir_entries@[q]));
                        }
                    }
                }
            }
        }
        let e = DirTableEntry { path: String::from_str(path), mtime, ino, first_file_id, num_files };
        proof {
            assert(dir_key(e) == path.spec_bytes());
        }
        let ghost before = self.dir_entries@;
        self.dir_entries.insert(p, e);
        proof {
            assert(self.dir_entries@ == before.insert(p as int, self.dir_entries@[p as int]));
            assert(self.dir_entries@[p as int] == e);
            let pp = p as int;
            assert(before == old(self).dirs());
            assert(self.dirs()[pp] == e);
            assert(self.dirs() == old(self).dirs().insert(pp, self.dirs()[pp]));
            assert(0 <= pp <= before.len() && self.dir_entries@ == before.insert(pp, self.dir_entries@[pp])
                    && (forall|q: int| 0 <= q < pp ==> !bytes_lt(path.spec_bytes(), #[trigger] dir_key(before[q])))
                    && (forall|q: int| pp <= q < before.len() ==> bytes_lt(path.spec_bytes(), #[trigger] dir_key(before[q])))
                    && self.dir_entries@[pp].path@ == path@ && self.dir_entries@[pp].mtime == mtime
                    && self.dir_entries@[pp].ino == ino && self.dir_entries@[pp].first_file_id == first_file_id
                    && self.dir_entries@[pp].num_files == num_files);
            assert forall|i: int, j: int| 0 <= i < j < self.dir_entries@.len() implies !bytes_lt(
                #[trigger] dir_key(self.dir_entries@[j]), #[trigger] dir_key(self.dir_entries@[i])) by {
                let d = self.dir_entries@;
                if j < p {
                    assert(d[i] == before[i] && d[j] == before[j]);
                } else if j == p {
                    if i < p {
                        assert(d[i] == before[i]);
                        lemma_bytes_lt_irreflexive(path.spec_bytes());
                    }
                } else if i < p {
                    assert(d[i] == before[i] && d[j] == before[j - 1]);
                } else if i == p {
                    assert(d[j] == before[j - 1]);
                    assert(bytes_lt(path.spec_bytes(), dir_key(before[j - 1])));
                    lemma_bytes_lt_asymmetric(path.spec_bytes(), dir_key(before[j - 1]));
                } else {
                    assert(d[i] == before[i - 1] && d[j] == before[j - 1]);
                }
            }
        }
    }

    /// Drops the keys whose bitmaps are empty.
    pub fn prune_empty(&mut self)
        requires
            old(self).wf(),
        ensures
            final(self).wf(),
            final(self).trigram_docs() == non_empty(old(self).trigram_docs()),
            final(self).bigram_docs() == non_empty(old(self).bigram_docs()),
            final(self).ext_docs() == non_empty(old(self).ext_docs()),
            final(self).files() == old(self).files(),
            final(self).dirs() == old(self).dirs(),
    {
        drop_empty(&mut self.trigrams);
        drop_empty(&mut self.bigrams);
        drop_empty(&mut self.ext_bitmaps);
        proof {
            assert forall|k: u64| #[trigger] self.trigrams@.contains_key(k) implies k < pow256(3) by {
                assert(docs_of(self.trigrams@).contains_key(k));
                assert(docs_of(old(self).trigrams@).contains_key(k));
            }
            assert forall|k: u64| #[trigger] self.bigrams@.contains_key(k) implies k < pow256(2) by {
                assert(docs_of(self.bigrams@).contains_key(k));
                assert(docs_of(old(self).bigrams@).contains_key(k));
            }
        }
    }

    /// Every key of every table has at most `max_docs_per_key()` documents, so that each
    /// serialized bitmap fits the table's length field.
    pub open spec fn tables_fit(&self) -> bool {
        &&& docs_fit(self.trigram_docs())
        &&& docs_fit(self.bigram_docs())
        &&& docs_fit(self.ext_docs())
    }

    /// Appends the index body to `w`, with `config_data` stored as the configuration: a
    /// 128-byte header, `config_data`, the file directory, the offset table, the trigram,
    /// bigram and extension tables, the directory table and the bitmaps. Offsets count
    /// from the first byte appended. Returns the number of files; nothing, with `w`
    /// untouched, when the configuration or a serialized bitmap is too long for its `u32`
    /// length field (which a configuration of at most `u32::MAX` bytes and tables that fit
    /// rule out).
    pub fn write_body(&self, w: &mut Vec<u8>, config_data: &[u8]) -> (r: Option<u64>)
        requires
            self.wf(),
        ensures
            (self.tables_fit() && config_data@.len() <= u32::MAX) ==> r is Some,
            match r {
                Some(n) => {
                    &&& n == self.files().len()
                    &&& old(w)@.is_prefix_of(final(w)@)
                    &&& body_lays_out(
                        final(w)@.subrange(old(w)@.len() as int, final(w)@.len() as int),
                        self.files(),
                        self.trigram_docs(),
                        self.bigram_docs(),
                        self.ext_docs(),
                        self.dirs(),
                        config_data@,
                    )
                },
                None => final(w)@ == old(w)@,
            },
    {
        let (tri_keys, tri_blobs) = sorted_blobs(&self.trigrams);
        let (bi_keys, bi_blobs) = sorted_blobs(&self.bigrams);
        let (ext_keys, ext_blobs) = sorted_blobs(&self.ext_bitmaps);
        proof {
            lemma_pow256_8();
            assert forall|j: int| 0 <= j < tri_keys@.len() implies tri_keys@[j] < pow256(3) by {
                assert(tri_keys@.contains(tri_keys@[j]));
                assert(self.trigrams@.contains_key(tri_keys@[j]));
            }
            assert forall|j: int| 0 <= j < bi_keys@.len() implies bi_keys@[j] < pow256(2) by {
                assert(bi_keys@.contains(bi_keys@[j]));
                assert(self.bigrams@.contains_key(bi_keys@[j]));
            }
            if self.tables_fit() {
                assert forall|j: int| 0 <= j < tri_blobs@.len() implies #[trigger] tri_blobs@[j]@.len() <= u32::MAX by {
                    assert(tri_keys@.contains(tri_keys@[j]));
                    assert(docs_of(self.trigrams@).contains_key(tri_keys@[j]));
                }
                assert forall|j: int| 0 <= j < bi_blobs@.len() implies #[trigger] bi_blobs@[j]@.len() <= u32::MAX by {
                    assert(bi_keys@.contains(bi_keys@[j]));
                    assert(docs_of(self.bigrams@).contains_key(bi_keys@[j]));
                }
                assert forall|j: int| 0 <= j < ext_blobs@.len() implies #[trigger] ext_blobs@[j]@.len() <= u32::MAX by {
                    assert(ext_keys@.contains(ext_keys@[j]));
                    assert(docs_of(self.ext_bitmaps@).contains_key(ext_keys@[j]));
                }
            }
        }
        if config_data.len() > 0xffff_ffffusize || !blobs_fit(&tri_blobs) || !blobs_fit(&bi_blobs) || !blobs_fit(&ext_blobs) {
            return None;
        }
        let mut out: Vec<u8> = Vec::new();
        let mut i: usize = 0;
        while i < HEADER_SIZE_V2
            invariant
                0 <= i <= HEADER_SIZE_V2,
                out@.len() == i,
            decreases HEADER_SIZE_V2 - i,
        {
            out.push(0u8);
            i = i + 1;
        }
        let config_offset = out.len() as u64;
        let ghost o_cfg = out@;
        push_bytes(&mut out, config_data);
        let config_len = config_data.len() as u32;
        let file_dir_offset = out.len() as u64;
        let ghost o_fd = out@;
        push_bytes(&mut out, self.file_dir_buf.as_slice());
        let file_offset_dir_offset = out.len() as u64;
        let ghost o_fo = out@;
        emit_offsets(&mut out, &self.file_offsets, self.file_dir_buf.len() as u64);
        let mut region: Vec<u8> = Vec::new();
        let trigram_dir_offset = out.len() as u64;
        let ghost o_tri = out@;
        let ghost r_tri = region@;
        emit_table(&mut out, &mut region, &tri_keys, &tri_blobs, 3);
        let bi_gram_dir_offset = out.len() as u64;
        let ghost o_bi = out@;
        let ghost r_bi = region@;
        emit_table(&mut out, &mut region, &bi_keys, &bi_blobs, 2);
        let ext_dir_offset = out.len() as u64;
        let ghost o_ext = out@;
        let ghost r_ext = region@;
        emit_table(&mut out, &mut region, &ext_keys, &ext_blobs, 8);
        let dir_table_offset = out.len() as u64;
        let ghost o_dirs = out@;
        emit_dirs(&mut out, &self.dir_entries);
        let bitmap_data_offset = out.len() as u64;
        let ghost o_bm = out@;
        push_bytes(&mut out, region.as_slice());
        let num_files = self.file_offsets.len() as u64;
        let h = Header {
            version: FORMAT_VERSION,
            num_files,
            num_trigrams: tri_keys.len() as u64,
            config_offset,
            config_len,
            file_dir_offset,
            file_offset_dir_offset,
            trigram_dir_offset,
            bitmap_data_offset,
            dir_table_offset,
            num_dir_entries: self.dir_entries.len() as u64,
            ext_bitmap_dir_offset: ext_dir_offset,
            num_ext_entries: ext_keys.len() as u64,
            bi_gram_dir_offset,
            num_bi_gram_entries: bi_keys.len() as u64,
            features: FEATURE_DIR_TABLE | FEATURE_EXT_INDEX | FEATURE_BIGRAM_INDEX,
        };
        let hb = h.to_bytes();
        let ghost pre = out@;
        overwrite_prefix(&mut out, &hb);
        proof {
            assert(FEATURE_DIR_TABLE | FEATURE_EXT_INDEX | FEATURE_BIGRAM_INDEX == 7u64) by (bit_vector);
            if config_data@.len() <= u32::MAX {
            lemma_body_layout(
                out@, pre, h, o_cfg, o_fd, o_fo, o_tri, o_bi, o_ext, o_dirs, o_bm,
                config_data@, region@, r_bi, r_ext,
                tri_keys@, tri_blobs@.map_values(|b: Vec<u8>| b@),
                bi_keys@, bi_blobs@.map_values(|b: Vec<u8>| b@),
                ext_keys@, ext_blobs@.map_values(|b: Vec<u8>| b@),
                self.files(), self.file_offsets@, self.trigram_docs(), self.bigram_docs(), self.ext_docs(), self.dirs(),
            );
            }
        }
        let ghost w0 = w@;
        push_bytes(w, out.as_slice());
        proof {
            assert(w0 =~= w@.subrange(0, w0.len() as int));
            assert(w@.subrange(w0.len() as int, w@.len() as int) =~= out@);
        }
        Some(num_files)
    }

    /// Appends the index body to `w`: the body `write_body` lays down around the
    /// configuration compressed with zstd at level 3. Returns the number of files; an
    /// error, with `w` untouched, when the compressed configuration or a serialized bitmap
    /// is too long for its length field.
    pub fn write_to(&self, w: &mut Vec<u8>, config_json: &[u8]) -> (r: Result<u64, std::io::Error>)
        requires
            self.wf(),
        ensures
            (self.tables_fit() && zstd_compressed(config_json@, 3).len() <= u32::MAX) ==> r is Ok,
            match r {
                Ok(n) => {
                    &&& n == self.files().len()
                    &&& old(w)@.is_prefix_of(final(w)@)
                    &&& (body_lays_out(
                        final(w)@.subrange(old(w)@.len() as int, final(w)@.len() as int),
                        self.files(),
                        self.trigram_docs(),
                        self.bigram_docs(),
                        self.ext_docs(),
                        self.dirs(),
                        zstd_compressed(config_json@, 3),
                    ))
                    &&& (body_encodes(
                        final(w)@.subrange(old(w)@.len() as int, final(w)@.len() as int),
                        self.files(),
                        self.trigram_docs(),
                        self.bigram_docs(),
                        self.ext_docs(),
                        self.dirs(),
                        config_json@,
                    ))
                },
                Err(_) => final(w)@ == old(w)@,
            },
    {
        let config_data = match zstd_compress(config_json, 3) {
            Ok(c) => c,
            Err(e) => return Err(e),
        };
        match self.write_body(w, config_data.as_slice()) {
            Some(n) => Ok(n),
            None => Err(io_error_other("the configuration or a serialized bitmap is too long for the index")),
        }
    }

    /// The complete index file with `config_data` stored as the configuration: the body
    /// that `write_body` lays down, followed by the little-endian CRC-32 of the body;
    /// nothing where `write_body` gives nothing.
    pub fn index_bytes(&self, config_data: &[u8]) -> (r: Option<Vec<u8>>)
        requires
            self.wf(),
        ensures
            (self.tables_fit() && config_data@.len() <= u32::MAX) ==> r is Some,
            r matches Some(b) ==> {
                &&& b@.len() >= 4
                &&& u32_at(b@, b@.len() - 4) == crc32_of(b@.subrange(0, b@.len() - 4))
                &&& (index_lays_out(
                    b@,
                    self.files(),
                    self.trigram_docs(),
                    self.bigram_docs(),
                    self.ext_docs(),
                    self.dirs(),
                    config_data@,
                ))
            },
    {
        let mut data: Vec<u8> = Vec::new();
        if self.write_body(&mut data, config_data).is_none() {
            return None;
        }
        let crc = crc32(data.as_slice());
        let ghost body = data@;
        push_u32(&mut data, crc);
        proof {
            lemma_auto_spec_u32_to_from_le_bytes();
            assert(body.subrange(0, body.len() as int) =~= body);
            assert(data@.subrange(0, data@.len() - 4) =~= body);
            assert(data@.subrange(data@.len() - 4, data@.len() as int) =~= spec_u32_to_le_bytes(crc));
        }
        Some(data)
    }

    /// The complete index file: the configuration compressed with zstd at level 3, laid
    /// out by `index_bytes`; an error when the compressed configuration or a serialized
    /// bitmap is too long for its length field.
    pub fn into_bytes(&self, config_json: &[u8]) -> (r: Result<Vec<u8>, std::io::Error>)
        requires
            self.wf(),
        ensures
            (self.tables_fit() && zstd_compressed(config_json@, 3).len() <= u32::MAX) ==> r is Ok,
            r matches Ok(b) ==> {
                &&& b@.len() >= 4
                &&& u32_at(b@, b@.len() - 4) == crc32_of(b@.subrange(0, b@.len() - 4))
                &&& (index_lays_out(
                    b@,
                    self.files(),
                    self.trigram_docs(),
                    self.bigram_docs(),
                    self.ext_docs(),
                    self.dirs(),
                    zstd_compressed(config_json@, 3),
                ))
                &&& (index_encodes(
                    b@,
                    self.files(),
                    self.trigram_docs(),
                    self.bigram_docs(),
                    self.ext_docs(),
                    self.dirs(),
                    config_json@,
                ))
            },
    {
        let config_data = match zstd_compress(config_json, 3) {
            Ok(c) => c,
            Err(e) => return Err(e),
        };
        let b = match self.index_bytes(config_data.as_slice()) {
            Some(b) => b,
            None => return Err(io_error_other("the configuration or a serialized bitmap is too long for the index")),
        };
        proof {
            if config_data@.len() <= u32::MAX {
                lemma_laid_out_encodes(
                    b@,
                    self.files(),
                    self.trigram_docs(),
                    self.bigram_docs(),
                    self.ext_docs(),
                    self.dirs(),
                    config_data@,
                    config_json@,
                );
            }
        }
        Ok(b)
    }

    /// The number of files added.
    pub fn file_count(&self) -> (n: usize)
        requires
            self.wf(),
        ensures
            n == self.files().len(),
    {
        self.file_offsets.len()
    }
}

} // verus!
