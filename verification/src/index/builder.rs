//! Building an index from file entries: each file's record with its trigram, bigram
//! and extension postings.
use vstd::prelude::*;
use vstd::string::*;
use vstd::bytes::*;
use crate::codec::{fxhash64, fx_hash64};
use crate::output::icons::{extension_of, path_extension};
use crate::index::layout::{pack_be, FileRecord};
use crate::index::search::{key3, key2, path_indexed, path_bi_indexed, path_matches_spec, trigram_candidates, lemma_search_candidates_complete, SearchOptions};
use crate::index::reader::IndexReader;
use crate::index::image::index_encodes;
use crate::index::roundtrip::{reads_index, lemma_written_trigram_docs, lemma_written_bigram_docs, lemma_written_index_accepted};
use crate::index::trigram::{generate_trigrams_lowercase, generate_bigrams_lowercase, trigram_to_bytes, bigram_to_bytes, key_bytes, trigram_set, bigram_set, utf8_len, string_views};
use crate::index::writer::{IndexWriter, docs_at, non_empty};
use crate::text::lower_chars;

verus! {

broadcast use vstd::string::group_string_axioms;

/// A file on its way into the index.
#[derive(Debug, Clone)]
pub struct ChunkEntry {
    pub path: String,
    pub size: u64,
    pub mtime: i64,
    pub mode: u32,
    pub mime_type: String,
}

/// The record the index keeps of an entry.
pub open spec fn entry_record(e: ChunkEntry) -> FileRecord {
    FileRecord {
        path: vstd::utf8::encode_utf8(e.path@),
        size: e.size,
        mtime: e.mtime,
        mode: e.mode,
        mime: vstd::utf8::encode_utf8(e.mime_type@),
    }
}

/// The paths of the entries, in order.
pub open spec fn entry_paths(es: Seq<ChunkEntry>) -> Seq<Seq<char>> {
    es.map_values(|e: ChunkEntry| e.path@)
}

/// The postings of documents `0..paths.len()`: under each key, the documents whose
/// path has that key.
pub open spec fn postings(paths: Seq<Seq<char>>, keys: spec_fn(Seq<char>) -> Set<u64>) -> Map<u64, Set<u32>> {
    Map::new(
        |k: u64| exists|d: int| 0 <= d < paths.len() && #[trigger] keys(paths[d]).contains(k),
        |k: u64| Set::new(|d: u32| (d as int) < paths.len() && keys(paths[d as int]).contains(k)),
    )
}

/// `m` with document `d` added under every key of `keys`.
pub open spec fn with_doc(m: Map<u64, Set<u32>>, keys: Set<u64>, d: u32) -> Map<u64, Set<u32>> {
    Map::new(
        |k: u64| m.contains_key(k) || keys.contains(k),
        |k: u64| if keys.contains(k) { docs_at(m, k).insert(d) } else { m[k] },
    )
}

/// The posting key of a trigram.
pub open spec fn tri_key(t: Seq<char>) -> u64 {
    pack_be(key3(t)) as u64
}

/// The posting key of a bigram.
pub open spec fn bi_key(t: Seq<char>) -> u64 {
    pack_be(key2(t)) as u64
}

/// The trigram keys of a path: those of the trigrams of its ASCII lower-cased text.
pub open spec fn tri_keys(path: Seq<char>) -> Set<u64> {
    let lp = lower_chars(path);
    Set::new(|k: u64| exists|t: Seq<char>| trigram_set(lp, utf8_len(lp)).contains(t) && #[trigger] tri_key(t) == k)
}

/// The bigram keys of a path: those of the bigrams of its ASCII lower-cased text.
pub open spec fn bi_keys(path: Seq<char>) -> Set<u64> {
    Set::new(|k: u64| exists|t: Seq<char>| bigram_set(lower_chars(path)).contains(t) && #[trigger] bi_key(t) == k)
}

/// The eight key bytes of an extension: its bytes zero-padded when it has at most
/// eight, else the little-endian bytes of its FxHash.
pub open spec fn ext_key_bytes(eb: Seq<u8>) -> Seq<u8> {
    if eb.len() <= 8 {
        key_bytes(eb, 8)
    } else {
        spec_u64_to_le_bytes(fx_hash64(eb))
    }
}

/// The extension key of a path, none when it has no extension.
pub open spec fn ext_keys(path: Seq<char>) -> Set<u64> {
    match path_extension(path) {
        Some(e) => set![pack_be(ext_key_bytes(vstd::utf8::encode_utf8(e))) as u64],
        None => Set::empty(),
    }
}

/// Adding the document under one more key.
proof fn lemma_with_doc_insert(m: Map<u64, Set<u32>>, keys: Set<u64>, d: u32, k: u64)
    ensures
        with_doc(m, keys.insert(k), d) == with_doc(m, keys, d).insert(k, docs_at(with_doc(m, keys, d), k).insert(d)),
{
    let a = with_doc(m, keys.insert(k), d);
    let b = with_doc(m, keys, d).insert(k, docs_at(with_doc(m, keys, d), k).insert(d));
    assert forall|x: u64| a.contains_key(x) implies a[x] == b[x] by {
        if x == k && keys.contains(k) {
            assert(docs_at(m, k).insert(d).insert(d) =~= docs_at(m, k).insert(d));
        }
    }
    assert(a =~= b);
}

/// Adding under no key changes nothing.
proof fn lemma_with_doc_empty(m: Map<u64, Set<u32>>, d: u32)
    ensures
        with_doc(m, Set::empty(), d) == m,
{
    assert(with_doc(m, Set::empty(), d) =~= m);
}

/// One more document in the postings.
proof fn lemma_postings_push(paths: Seq<Seq<char>>, keys: spec_fn(Seq<char>) -> Set<u64>, p: Seq<char>)
    requires
        paths.len() < u32::MAX,
    ensures
        postings(paths.push(p), keys) == with_doc(postings(paths, keys), keys(p), paths.len() as u32),
{
    let n = paths.len() as int;
    let a = postings(paths.push(p), keys);
    let m = postings(paths, keys);
    let b = with_doc(m, keys(p), paths.len() as u32);
    assert forall|k: u64| a.contains_key(k) <==> b.contains_key(k) by {
        if a.contains_key(k) {
            let d = choose|d: int| 0 <= d < n + 1 && #[trigger] keys(paths.push(p)[d]).contains(k);
            if d < n {
                assert(paths.push(p)[d] == paths[d]);
                assert(m.contains_key(k));
            }
        }
        if m.contains_key(k) {
            let d = choose|d: int| 0 <= d < n && #[trigger] keys(paths[d]).contains(k);
            assert(paths.push(p)[d] == paths[d]);
            assert(keys(paths.push(p)[d]).contains(k));
        }
        if keys(p).contains(k) {
            assert(paths.push(p)[n] == p);
            assert(keys(paths.push(p)[n]).contains(k));
        }
    }
    assert forall|k: u64| a.contains_key(k) implies a[k] == b[k] by {
        assert forall|d: u32| a[k].contains(d) <==> b[k].contains(d) by {
            if (d as int) < n {
                assert(paths.push(p)[d as int] == paths[d as int]);
            }
            if (d as int) == n {
                assert(paths.push(p)[d as int] == p);
            }
            if m.contains_key(k) {
                assert(docs_at(m, k) == m[k]);
            } else {
                assert(docs_at(m, k) == Set::<u32>::empty());
                if (d as int) < n && keys(paths[d as int]).contains(k) {
                    assert(m.contains_key(k));
                }
            }
        }
        assert(a[k] =~= b[k]);
    }
    assert(a =~= b);
}

/// Postings hold no empty document set.
proof fn lemma_postings_non_empty(paths: Seq<Seq<char>>, keys: spec_fn(Seq<char>) -> Set<u64>)
    requires
        paths.len() <= u32::MAX,
    ensures
        non_empty(postings(paths, keys)) == postings(paths, keys),
{
    let m = postings(paths, keys);
    assert forall|k: u64| m.contains_key(k) implies m[k] != Set::<u32>::empty() by {
        let d = choose|d: int| 0 <= d < paths.len() && #[trigger] keys(paths[d]).contains(k);
        assert(m[k].contains(d as u32));
    }
    assert(non_empty(m) =~= m);
}

/// Records document `doc_id` under the trigram, bigram and extension keys of `path`.
pub fn index_file_trigrams(writer: &mut IndexWriter, path: &str, doc_id: u32)
    requires
        old(writer).wf(),
    ensures
        final(writer).wf(),
        final(writer).trigram_docs() == with_doc(old(writer).trigram_docs(), tri_keys(path@), doc_id),
        final(writer).bigram_docs() == with_doc(old(writer).bigram_docs(), bi_keys(path@), doc_id),
        final(writer).ext_docs() == with_doc(old(writer).ext_docs(), ext_keys(path@), doc_id),
        final(writer).files() == old(writer).files(),
        final(writer).dirs() == old(writer).dirs(),
{
    let ghost lp = lower_chars(path@);
    let tris = generate_trigrams_lowercase(path);
    let ghost views = string_views(tris@);
    let ghost base = writer.trigram_docs();
    let mut i: usize = 0;
    proof {
        assert(Set::new(|k: u64| exists|q: int| 0 <= q < 0 && #[trigger] tri_key(views[q]) == k) =~= Set::<u64>::empty());
        lemma_with_doc_empty(base, doc_id);
    }
    while i < tris.len()
        invariant
            writer.wf(),
            0 <= i <= tris@.len(),
            views == string_views(tris@),
            writer.trigram_docs() == with_doc(
                base,
                Set::new(|k: u64| exists|q: int| 0 <= q < i && #[trigger] tri_key(views[q]) == k),
                doc_id,
            ),
            writer.files() == old(writer).files(),
            writer.bigram_docs() == old(writer).bigram_docs(),
            writer.ext_docs() == old(writer).ext_docs(),
            writer.dirs() == old(writer).dirs(),
        decreases tris@.len() - i,
    {
        let key = trigram_to_bytes(tris[i].as_str());
        proof {
            assert(key@ == key3(views[i as int]));
        }
        let ghost s0 = Set::new(|k: u64| exists|q: int| 0 <= q < i && #[trigger] tri_key(views[q]) == k);
        writer.add_trigram_doc(key, doc_id);
        proof {
            let s1 = Set::new(|k: u64| exists|q: int| 0 <= q < i + 1 && #[trigger] tri_key(views[q]) == k);
            assert(s1 =~= s0.insert(tri_key(views[i as int])));
            lemma_with_doc_insert(base, s0, doc_id, tri_key(views[i as int]));
        }
        i = i + 1;
    }
    proof {
        let s = Set::new(|k: u64| exists|q: int| 0 <= q < tris@.len() && #[trigger] tri_key(views[q]) == k);
        assert(s =~= tri_keys(path@)) by {
            assert forall|k: u64| s.contains(k) implies tri_keys(path@).contains(k) by {
                let q = choose|q: int| 0 <= q < tris@.len() && #[trigger] tri_key(views[q]) == k;
                assert(views.contains(views[q]));
                assert(trigram_set(lp, utf8_len(lp)).contains(views[q]));
            }
            assert forall|k: u64| tri_keys(path@).contains(k) implies s.contains(k) by {
                let t = choose|t: Seq<char>| trigram_set(lp, utf8_len(lp)).contains(t) && #[trigger] tri_key(t) == k;
                assert(views.contains(t));
                let q = choose|q: int| 0 <= q < views.len() && views[q] == t;
                assert(tri_key(views[q]) == k);
            }
        }
    }

    let bis = generate_bigrams_lowercase(path);
    let ghost bviews = string_views(bis@);
    let ghost bbase = writer.bigram_docs();
    let ghost tdocs = writer.trigram_docs();
    let mut j: usize = 0;
    proof {
        assert(Set::new(|k: u64| exists|q: int| 0 <= q < 0 && #[trigger] bi_key(bviews[q]) == k) =~= Set::<u64>::empty());
        lemma_with_doc_empty(bbase, doc_id);
    }
    while j < bis.len()
        invariant
            writer.wf(),
            0 <= j <= bis@.len(),
            bviews == string_views(bis@),
            writer.bigram_docs() == with_doc(
                bbase,
                Set::new(|k: u64| exists|q: int| 0 <= q < j && #[trigger] bi_key(bviews[q]) == k),
                doc_id,
            ),
            writer.trigram_docs() == tdocs,
            writer.files() == old(writer).files(),
            writer.ext_docs() == old(writer).ext_docs(),
            writer.dirs() == old(writer).dirs(),
        decreases bis@.len() - j,
    {
        let key = bigram_to_bytes(bis[j].as_str());
        proof {
            assert(key@ == key2(bviews[j as int]));
        }
        let ghost s0 = Set::new(|k: u64| exists|q: int| 0 <= q < j && #[trigger] bi_key(bviews[q]) == k);
        writer.add_bigram_doc(key, doc_id);
        proof {
            let s1 = Set::new(|k: u64| exists|q: int| 0 <= q < j + 1 && #[trigger] bi_key(bviews[q]) == k);
            assert(s1 =~= s0.insert(bi_key(bviews[j as int])));
            lemma_with_doc_insert(bbase, s0, doc_id, bi_key(bviews[j as int]));
        }
        j = j + 1;
    }
    proof {
        let s = Set::new(|k: u64| exists|q: int| 0 <= q < bis@.len() && #[trigger] bi_key(bviews[q]) == k);
        assert(s =~= bi_keys(path@)) by {
            assert forall|k: u64| s.contains(k) implies bi_keys(path@).contains(k) by {
                let q = choose|q: int| 0 <= q < bis@.len() && #[trigger] bi_key(bviews[q]) == k;
                assert(bviews.contains(bviews[q]));
                assert(bigram_set(lp).contains(bviews[q]));
            }
            assert forall|k: u64| bi_keys(path@).contains(k) implies s.contains(k) by {
                let t = choose|t: Seq<char>| bigram_set(lp).contains(t) && #[trigger] bi_key(t) == k;
                assert(bviews.contains(t));
                let q = choose|q: int| 0 <= q < bviews.len() && bviews[q] == t;
                assert(bi_key(bviews[q]) == k);
            }
        }
    }

    let ghost ebase = writer.ext_docs();
    match extension_of(path) {
        Some(ext) => {
            let eb = ext.as_str().as_bytes();
            let key: [u8; 8] = if eb.len() <= 8 {
                let mut k = [0u8; 8];
                let mut m: usize = 0;
                while m < eb.len()
                    invariant
                        eb@ == vstd::utf8::encode_utf8(ext@),
                        eb@.len() <= 8,
                        0 <= m <= eb@.len(),
                        forall|x: int| 0 <= x < m ==> k@[x] == eb@[x],
                        forall|x: int| m <= x < 8 ==> k@[x] == 0u8,
                    decreases eb@.len() - m,
                {
                    k[m] = eb[m];
                    m = m + 1;
                }
                proof {
                    assert(k@ =~= key_bytes(eb@, 8));
                }
                k
            } else {
                let h = fxhash64(eb);
                let v = u64_to_le_bytes(h);
                proof {
                    lemma_auto_spec_u64_to_from_le_bytes();
                }
                let k = [v[0], v[1], v[2], v[3], v[4], v[5], v[6], v[7]];
                proof {
                    assert(k@ =~= v@);
                }
                k
            };
            proof {
                assert(key@ == ext_key_bytes(vstd::utf8::encode_utf8(ext@)));
            }
            writer.add_ext_doc(key, doc_id);
            proof {
                let kk = pack_be(key@) as u64;
                lemma_with_doc_insert(ebase, Set::empty(), doc_id, kk);
                lemma_with_doc_empty(ebase, doc_id);
                assert(Set::<u64>::empty().insert(kk) =~= ext_keys(path@));
            }
        },
        None => {
            proof {
                lemma_with_doc_empty(ebase, doc_id);
                assert(ext_keys(path@) =~= Set::<u64>::empty());
            }
        },
    }
}

/// An index of `entries`, in their order: entry `i` has id `i` and its trigram,
/// bigram and extension postings; no key has an empty posting list.
pub fn build_writer(entries: &[ChunkEntry]) -> (w: IndexWriter)
    requires
        entries@.len() <= u32::MAX,
    ensures
        w.wf(),
        w.files() == entries@.map_values(|e: ChunkEntry| entry_record(e)),
        w.trigram_docs() == postings(entry_paths(entries@), |p: Seq<char>| tri_keys(p)),
        w.bigram_docs() == postings(entry_paths(entries@), |p: Seq<char>| bi_keys(p)),
        w.ext_docs() == postings(entry_paths(entries@), |p: Seq<char>| ext_keys(p)),
        w.dirs() == Seq::<crate::index::dir::DirTableEntry>::empty(),
{
    let mut w = IndexWriter::new();
    let ghost tk = |p: Seq<char>| tri_keys(p);
    let ghost bk = |p: Seq<char>| bi_keys(p);
    let ghost xk = |p: Seq<char>| ext_keys(p);
    let ghost paths = entry_paths(entries@);
    let n = entries.len();
    let mut i: usize = 0;
    proof {
        assert(entries@.take(0).map_values(|e: ChunkEntry| entry_record(e)) =~= Seq::<FileRecord>::empty());
        assert(postings(paths.take(0), tk) =~= Map::<u64, Set<u32>>::empty());
        assert(postings(paths.take(0), bk) =~= Map::<u64, Set<u32>>::empty());
        assert(postings(paths.take(0), xk) =~= Map::<u64, Set<u32>>::empty());
    }
    while i < n
        invariant
            w.wf(),
            n == entries@.len(),
            n <= u32::MAX,
            0 <= i <= n,
            paths == entry_paths(entries@),
            w.files() == entries@.take(i as int).map_values(|e: ChunkEntry| entry_record(e)),
            w.trigram_docs() == postings(paths.take(i as int), tk),
            w.bigram_docs() == postings(paths.take(i as int), bk),
            w.ext_docs() == postings(paths.take(i as int), xk),
            w.dirs() == Seq::<crate::index::dir::DirTableEntry>::empty(),
            tk == (|p: Seq<char>| tri_keys(p)),
            bk == (|p: Seq<char>| bi_keys(p)),
            xk == (|p: Seq<char>| ext_keys(p)),
        decreases n - i,
    {
        let e = &entries[i];
        let id = w.add_file(e.path.as_str(), e.size, e.mtime, e.mode, e.mime_type.as_str());
        index_file_trigrams(&mut w, e.path.as_str(), id);
        proof {
            assert(entries@.take(i + 1).map_values(|e: ChunkEntry| entry_record(e)) =~= entries@.take(
                i as int,
            ).map_values(|e: ChunkEntry| entry_record(e)).push(entry_record(entries@[i as int])));
            assert(paths.take(i + 1) =~= paths.take(i as int).push(e.path@));
            assert(id == i as u32);
            lemma_postings_push(paths.take(i as int), tk, e.path@);
            lemma_postings_push(paths.take(i as int), bk, e.path@);
            lemma_postings_push(paths.take(i as int), xk, e.path@);
        }
        i = i + 1;
    }
    w.prune_empty();
    proof {
        assert(entries@.take(n as int) =~= entries@);
        assert(paths.take(n as int) =~= paths);
        lemma_postings_non_empty(paths, tk);
        lemma_postings_non_empty(paths, bk);
        lemma_postings_non_empty(paths, xk);
    }
    w
}

/// Every file of an index built from `entries` and written out is a candidate of a
/// search whenever one of its patterns matches the file's path and has three or more
/// characters or no character of more than one byte: the postings of a built index never
/// hide a file.
pub proof fn lemma_built_file_found(
    rd: IndexReader,
    b: Seq<u8>,
    w: IndexWriter,
    entries: Seq<ChunkEntry>,
    cfg: Seq<u8>,
    i: int,
    ps: Seq<Seq<char>>,
    q: int,
    opts: SearchOptions,
)
    requires
        entries.len() <= u32::MAX,
        w.files() == entries.map_values(|e: ChunkEntry| entry_record(e)),
        w.trigram_docs() == postings(entry_paths(entries), |p: Seq<char>| tri_keys(p)),
        w.bigram_docs() == postings(entry_paths(entries), |p: Seq<char>| bi_keys(p)),
        index_encodes(b, w.files(), w.trigram_docs(), w.bigram_docs(), w.ext_docs(), w.dirs(), cfg),
        reads_index(rd, b),
        0 <= i < entries.len(),
        0 <= q < ps.len(),
        path_matches_spec(entries[i].path@, ps[q], opts),
        ps[q].len() >= 3 || utf8_len(ps[q]) == ps[q].len(),
    ensures
        trigram_candidates(rd, ps).contains(i as u32),
{
    let paths = entry_paths(entries);
    let path = entries[i].path@;
    let lp = lower_chars(path);
    let tk = |p: Seq<char>| tri_keys(p);
    let bk = |p: Seq<char>| bi_keys(p);
    assert(paths[i] == path);
    assert forall|t: Seq<char>| trigram_set(lp, utf8_len(lp)).contains(t) implies #[trigger] rd.tri_docs(key3(t)).contains(i as u32) by {
        lemma_written_trigram_docs(rd, b, w.files(), w.trigram_docs(), w.bigram_docs(), w.ext_docs(), w.dirs(), cfg, key3(t));
        assert(tri_keys(paths[i]).contains(tri_key(t)));
        assert(tk(paths[i]).contains(tri_key(t)));
        let m = postings(paths, tk);
        assert(m.contains_key(tri_key(t)));
        assert(m[tri_key(t)].contains(i as u32));
    }
    assert forall|t: Seq<char>| bigram_set(lp).contains(t) implies #[trigger] rd.bi_docs(key2(t)).contains(i as u32) by {
        lemma_written_bigram_docs(rd, b, w.files(), w.trigram_docs(), w.bigram_docs(), w.ext_docs(), w.dirs(), cfg, key2(t));
        assert(bi_keys(paths[i]).contains(bi_key(t)));
        assert(bk(paths[i]).contains(bi_key(t)));
        let m = postings(paths, bk);
        assert(m.contains_key(bi_key(t)));
        assert(m[bi_key(t)].contains(i as u32));
    }
    assert(path_indexed(rd, path, i as u32));
    assert(path_bi_indexed(rd, path, i as u32));
    lemma_written_index_accepted(b, w.files(), w.trigram_docs(), w.bigram_docs(), w.ext_docs(), w.dirs(), cfg);
    assert(rd.header.num_files == entries.len());
    lemma_search_candidates_complete(rd, path, i as u32, ps, q, opts);
}

/// The entries an index holds for the files of one directory, in id order, as entries to
/// build a new index from. Fails as `get_files_in_dir` does.
pub fn dir_chunk_entries(reader: &IndexReader, dir: &crate::index::dir::DirTableEntry) -> (r: Result<Vec<ChunkEntry>, String>)
    requires
        reader.files_readable(),
        dir.first_file_id + dir.num_files <= u32::MAX + 1,
    ensures
        r is Ok <==> forall|i: int|
            0 <= i < dir.num_files ==> #[trigger] reader.file_record(dir.first_file_id + i) is Some,
        r matches Ok(v) ==> v@.len() == dir.num_files && forall|i: int|
            0 <= i < dir.num_files ==> crate::index::chunk::entry_read(
                #[trigger] v@[i],
                reader.file_record(dir.first_file_id + i)->0,
            ),
        r matches Err(msg) ==> exists|k: int|
            0 <= k < dir.num_files && (#[trigger] reader.file_record(dir.first_file_id + k)) is None
            && (forall|q: int| 0 <= q < k ==> (#[trigger] reader.file_record(dir.first_file_id + q)) is Some)
            && msg@ == reader.file_error_text((dir.first_file_id + k) as u32),
{
    let files = match reader.get_files_in_dir(dir) {
        Ok(f) => f,
        Err(e) => return Err(e),
    };
    let mut out: Vec<ChunkEntry> = Vec::new();
    let mut i: usize = 0;
    while i < files.len()
        invariant
            0 <= i <= files@.len(),
            files@.len() == dir.num_files,
            out@.len() == i,
            forall|q: int| 0 <= q < dir.num_files ==> crate::index::reader::entry_matches(
                #[trigger] files@[q],
                reader.file_record(dir.first_file_id + q)->0,
            ),
            forall|q: int| 0 <= q < i ==> crate::index::chunk::entry_read(
                #[trigger] out@[q],
                reader.file_record(dir.first_file_id + q)->0,
            ),
        decreases files@.len() - i,
    {
        let f = &files[i];
        out.push(ChunkEntry {
            path: f.full_path.clone(),
            size: f.size,
            mtime: f.mtime,
            mode: f.mode,
            mime_type: f.mime_type.clone(),
        });
        i = i + 1;
    }
    Ok(out)
}

} // verus!
