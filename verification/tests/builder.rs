use mlocate::index::builder::{build_writer, dir_chunk_entries, index_file_trigrams, ChunkEntry};
use mlocate::index::chunk::{decode_chunk, encode_chunk, merge_sorted_runs, sort_dedup_by_path};
use mlocate::index::format::{IndexReader, IndexWriter};
use mlocate::index::search::{search, SearchFilters, SearchOptions};

fn entry(path: &str, size: u64, mtime: i64, mime: &str) -> ChunkEntry {
    ChunkEntry { path: path.to_string(), size, mtime, mode: 0o644, mime_type: mime.to_string() }
}

const CONFIG: &[u8] = br#"{"indexed_paths":["/tmp/a"],"pruned_paths":[],"timestamp":1746720000,"hostname":"test","total_bytes_indexed":300,"mlocate_version":"0.1.0"}"#;

fn build(entries: Vec<ChunkEntry>) -> Vec<u8> {
    let run = sort_dedup_by_path(&entries);
    let merged = merge_sorted_runs(&vec![run]);
    build_writer(&merged).into_bytes(CONFIG).unwrap()
}

#[test]
fn test_build_and_read_back() {
    let bytes = build(vec![
        entry("/tmp/a/hello.rs", 100, 1746720000, "text/x-rust"),
        entry("/tmp/a/world.md", 200, 1746720100, "text/markdown"),
    ]);
    let reader = IndexReader::from_bytes(&bytes).unwrap();
    assert_eq!(reader.num_files(), 2);
    assert_eq!(reader.file_path(0).unwrap(), "/tmp/a/hello.rs");
    assert_eq!(reader.file_path(1).unwrap(), "/tmp/a/world.md");
}

#[test]
fn test_dedup_by_path() {
    let bytes = build(vec![entry("/dup", 0, 0, "text/plain"), entry("/dup", 999, 0, "text/plain")]);
    let reader = IndexReader::from_bytes(&bytes).unwrap();
    assert_eq!(reader.num_files(), 1);
    assert_eq!(reader.file_entry(0).unwrap().size, 0);
}

#[test]
fn test_large_chunk_merge() {
    let mut runs = Vec::new();
    let mut total = 0u64;
    for chunk in 0..3u64 {
        let mut buffer = Vec::new();
        for i in 0..700u64 {
            let n = i * 3 + chunk;
            buffer.push(entry(&format!("/tmp/file_{:08}.txt", n), n % 1000, 1746720000, "text/plain"));
            total += 1;
        }
        let run = sort_dedup_by_path(&buffer);
        let bytes = encode_chunk(&run);
        runs.push(decode_chunk(&bytes).unwrap());
    }
    let merged = merge_sorted_runs(&runs);
    assert_eq!(merged.len() as u64, total);
    assert!(merged.windows(2).all(|w| w[0].path <= w[1].path));
    let bytes = build_writer(&merged).into_bytes(CONFIG).unwrap();
    let reader = IndexReader::from_bytes(&bytes).unwrap();
    assert_eq!(reader.num_files(), total);
}

#[test]
fn sort_keeps_the_first_of_each_path_in_byte_order() {
    let buffer = vec![
        entry("/b", 1, 0, "x/y"),
        entry("/a", 2, 0, "x/y"),
        entry("/b", 3, 0, "x/y"),
        entry("/ä", 4, 0, "x/y"),
        entry("/B", 5, 0, "x/y"),
    ];
    let run = sort_dedup_by_path(&buffer);
    let got: Vec<(String, u64)> = run.iter().map(|e| (e.path.clone(), e.size)).collect();
    assert_eq!(
        got,
        vec![("/B".to_string(), 5), ("/a".to_string(), 2), ("/b".to_string(), 1), ("/ä".to_string(), 4)]
    );
}

#[test]
fn merge_keeps_repeats_across_runs() {
    let a = vec![entry("/a", 1, 0, "x/y"), entry("/c", 1, 0, "x/y")];
    let b = vec![entry("/a", 2, 0, "x/y"), entry("/b", 2, 0, "x/y")];
    let merged = merge_sorted_runs(&vec![a, b]);
    let got: Vec<(String, u64)> = merged.iter().map(|e| (e.path.clone(), e.size)).collect();
    assert_eq!(
        got,
        vec![("/a".to_string(), 1), ("/a".to_string(), 2), ("/b".to_string(), 2), ("/c".to_string(), 1)]
    );
}

#[test]
fn chunk_bytes_round_trip() {
    let entries = vec![entry("/x/é.txt", 42, -7, "text/plain"), entry("/y", u64::MAX, i64::MIN, "")];
    let bytes = encode_chunk(&entries);
    assert_eq!(&bytes[0..4], &2u32.to_le_bytes());
    let back = decode_chunk(&bytes).unwrap();
    assert_eq!(back.len(), 2);
    assert_eq!(back[0].path, "/x/é.txt");
    assert_eq!(back[0].mtime, -7);
    assert_eq!(back[1].size, u64::MAX);
    assert_eq!(back[1].mtime, i64::MIN);
    assert_eq!(back[1].mime_type, "");
}

#[test]
fn truncated_chunk_is_refused() {
    let bytes = encode_chunk(&[entry("/abc", 1, 2, "text/plain")]);
    assert!(decode_chunk(&bytes[..bytes.len() - 1]).is_none());
    assert!(decode_chunk(&bytes[..3]).is_none());
    assert_eq!(decode_chunk(&encode_chunk(&[])).unwrap().len(), 0);
}

#[test]
fn built_index_is_searchable() {
    let bytes = build(vec![
        entry("/home/user/Notes.TXT", 10, 0, "text/plain"),
        entry("/srv/data/archive.tar.gz", 20, 0, "application/gzip"),
        entry("/srv/readme", 30, 0, "text/plain"),
    ]);
    let reader = IndexReader::from_bytes(&bytes).unwrap();
    let patterns = vec!["notes".to_string()];
    let options = SearchOptions { ignore_case: true, ..Default::default() };
    let mut results = search(&reader, &patterns, &options, &SearchFilters::default()).unwrap();
    let paths: Vec<String> = results.collect_all(&|_: &str| true).into_iter().map(|r| r.unwrap().full_path).collect();
    assert_eq!(paths, vec!["/home/user/Notes.TXT"]);
}

#[test]
fn extension_postings_use_the_extension_key() {
    let mut writer = IndexWriter::new();
    let id = writer.add_file("/a/b.rs", 1, 1, 0, "text/x-rust");
    index_file_trigrams(&mut writer, "/a/b.rs", id);
    let id2 = writer.add_file("/a/c.verylongext", 1, 1, 0, "text/plain");
    index_file_trigrams(&mut writer, "/a/c.verylongext", id2);
    let bytes = writer.into_bytes(CONFIG).unwrap();
    let reader = IndexReader::from_bytes(&bytes).unwrap();
    let bm = reader.ext_bitmap(&[b'r', b's', 0, 0, 0, 0, 0, 0]).unwrap();
    assert!(bm.contains(0));
    assert!(!bm.contains(1));
    let hashed = fxhash::hash64(b"verylongext").to_le_bytes();
    let bm2 = reader.ext_bitmap(&hashed).unwrap();
    assert!(bm2.contains(1));
    let bi = reader.bigram_bitmap([b'r', b's']).unwrap();
    assert!(bi.contains(0));
}

#[test]
fn old_directory_entries_carry_over() {
    let mut writer = IndexWriter::new();
    writer.add_file("/d/a", 5, 50, 0o600, "text/plain");
    writer.add_file("/d/b", 6, 60, 0o644, "text/x-c");
    writer.add_dir("/d", 1, 2, 0, 2);
    let bytes = writer.into_bytes(CONFIG).unwrap();
    let reader = IndexReader::from_bytes(&bytes).unwrap();
    assert!(reader.files_in_bounds());
    let dir = reader.dir_entry("/d").unwrap();
    let entries = dir_chunk_entries(&reader, &dir).unwrap();
    assert_eq!(entries.len(), 2);
    assert_eq!(entries[1].path, "/d/b");
    assert_eq!(entries[1].mode, 0o644);
    assert_eq!(entries[0].mime_type, "text/plain");
}

#[test]
fn cut_short_headers_are_recognised() {
    let writer = IndexWriter::new();
    let bytes = writer.into_bytes(CONFIG).unwrap();
    assert!(!mlocate::index::reader::header_cut_short(&bytes));
    assert!(mlocate::index::reader::header_cut_short(&bytes[..100]));
    assert!(!mlocate::index::reader::header_cut_short(&bytes[..50]));
}
