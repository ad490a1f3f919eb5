use mlocate::index::format::{
    Header, IndexReader, IndexWriter, FEATURE_BIGRAM_INDEX, FEATURE_DIR_TABLE, FEATURE_EXT_INDEX,
    FORMAT_VERSION, HEADER_SIZE_V1, HEADER_SIZE_V2, MAGIC_FULL,
};
use mlocate::index::trigram;

fn config_json(indexed: &[&str], timestamp: i64, total: u64) -> Vec<u8> {
    let mut m = serde_json::Map::new();
    m.insert(
        "indexed_paths".to_string(),
        serde_json::Value::Array(indexed.iter().map(|s| serde_json::Value::String(s.to_string())).collect()),
    );
    m.insert("pruned_paths".to_string(), serde_json::Value::Array(Vec::new()));
    m.insert("timestamp".to_string(), serde_json::Value::from(timestamp));
    m.insert("hostname".to_string(), serde_json::Value::String("test".to_string()));
    m.insert("total_bytes_indexed".to_string(), serde_json::Value::from(total));
    m.insert("mlocate_version".to_string(), serde_json::Value::String("0.1.0".to_string()));
    serde_json::to_vec(&serde_json::Value::Object(m)).unwrap()
}

#[test]
fn test_header_roundtrip() {
    let h = Header {
        version: FORMAT_VERSION,
        num_files: 100,
        num_trigrams: 5000,
        config_offset: 128,
        config_len: 200,
        file_dir_offset: 328,
        file_offset_dir_offset: 800,
        trigram_dir_offset: 900,
        bitmap_data_offset: 1000,
        dir_table_offset: 1200,
        num_dir_entries: 5,
        ext_bitmap_dir_offset: 1400,
        num_ext_entries: 10,
        bi_gram_dir_offset: 1600,
        num_bi_gram_entries: 200,
        features: FEATURE_DIR_TABLE | FEATURE_EXT_INDEX | FEATURE_BIGRAM_INDEX,
    };
    let bytes = h.to_bytes();
    assert_eq!(bytes.len(), HEADER_SIZE_V2);
    let h2 = Header::from_bytes(&bytes).unwrap();
    assert_eq!(h2.num_files, 100);
    assert_eq!(h2.num_trigrams, 5000);
    assert_eq!(h2.config_offset, 128);
    assert_eq!(h2.config_len, 200);
    assert_eq!(h2.features, FEATURE_DIR_TABLE | FEATURE_EXT_INDEX | FEATURE_BIGRAM_INDEX);
}

#[test]
fn test_v1_header_read() {
    let mut buf = vec![0u8; HEADER_SIZE_V1];
    buf[0..8].copy_from_slice(&MAGIC_FULL);
    buf[8..12].copy_from_slice(&1u32.to_le_bytes());
    buf[12..20].copy_from_slice(&10u64.to_le_bytes());
    let h = Header::from_bytes(&buf).unwrap();
    assert_eq!(h.version, 1);
    assert_eq!(h.num_files, 10);
    assert_eq!(h.features, 0);
    assert_eq!(h.num_dir_entries, 0);
}

#[test]
fn test_invalid_magic_rejected() {
    let bad = [0u8; HEADER_SIZE_V1];
    assert!(Header::from_bytes(&bad).is_err());
}

#[test]
fn test_wrong_version_rejected() {
    let mut buf = vec![0u8; HEADER_SIZE_V1];
    buf[0..8].copy_from_slice(&MAGIC_FULL);
    buf[8..12].copy_from_slice(&99u32.to_le_bytes());
    assert!(Header::from_bytes(&buf).is_err());
}

#[test]
fn test_index_writer_reader_roundtrip() {
    let mut writer = IndexWriter::new();
    writer.add_file("/home/user/foo.rs", 1234, 1746720000, 0o644, "text/x-rust");
    writer.add_file("/home/user/bar.txt", 5678, 1746720100, 0o644, "text/plain");
    writer.add_file("/etc/config.toml", 100, 1746700000, 0o600, "application/octet-stream");

    for (id, path) in ["/home/user/foo.rs", "/home/user/bar.txt", "/etc/config.toml"].iter().enumerate() {
        let tris = trigram::generate_trigrams_lowercase(path);
        for tri in &tris {
            writer.add_trigram_doc(trigram::trigram_to_bytes(tri), id as u32);
        }
        let bis = trigram::generate_bigrams_lowercase(path);
        for bi in &bis {
            let key = trigram::bigram_to_bytes(bi);
            writer.add_bigram_doc(key, id as u32);
        }
        if let Some(ext) = std::path::Path::new(path).extension().and_then(|e| e.to_str()) {
            let mut ext_key = [0u8; 8];
            let ext_bytes = ext.as_bytes();
            ext_key[..ext_bytes.len().min(8)].copy_from_slice(&ext_bytes[..ext_bytes.len().min(8)]);
            writer.add_ext_doc(ext_key, id as u32);
        }
    }
    writer.add_dir("/home/user", 1746720000, 12345, 0, 2);
    writer.add_dir("/etc", 1746700000, 67890, 2, 1);
    writer.prune_empty();

    let config = config_json(&["/home", "/etc"], 1746720000, 7000);
    let bytes = writer.into_bytes(&config).unwrap();

    let reader = IndexReader::from_bytes(&bytes).unwrap();
    assert_eq!(reader.num_files(), 3);

    let entry0 = reader.file_entry(0).unwrap();
    assert_eq!(entry0.full_path, "/home/user/foo.rs");
    assert_eq!(entry0.size, 1234);
    assert_eq!(entry0.mime_type, "text/x-rust");

    let entry2 = reader.file_entry(2).unwrap();
    assert_eq!(entry2.full_path, "/etc/config.toml");

    let foo_tri = trigram::trigram_to_bytes("foo");
    let bm = reader.trigram_bitmap(foo_tri).unwrap();
    assert!(bm.contains(0));
    assert!(!bm.contains(2));

    let rs_ext = [b'r', b's', 0, 0, 0, 0, 0, 0];
    let ext_bm = reader.ext_bitmap(&rs_ext).unwrap();
    assert!(ext_bm.contains(0));

    let config2: serde_json::Value = serde_json::from_slice(&reader.config().unwrap()).unwrap();
    assert_eq!(config2["indexed_paths"][0], "/home");
    assert_eq!(config2["hostname"], "test");

    let dir = reader.dir_entry("/home/user").unwrap();
    assert_eq!(dir.first_file_id, 0);
    assert_eq!(dir.num_files, 2);
    assert_eq!(dir.mtime, 1746720000);
}

#[test]
fn test_single_file_index() {
    let mut writer = IndexWriter::new();
    writer.add_file("/foo", 100, 1, 0, "text/plain");
    let tris = trigram::generate_trigrams_lowercase("/foo");
    for tri in &tris {
        writer.add_trigram_doc(trigram::trigram_to_bytes(tri), 0);
    }
    writer.prune_empty();

    let config = config_json(&["/"], 1, 100);
    let bytes = writer.into_bytes(&config).unwrap();
    let reader = IndexReader::from_bytes(&bytes).unwrap();
    assert_eq!(reader.num_files(), 1);
    assert!(reader.header().num_trigrams > 0);
}

#[test]
fn corrupted_checksum_is_rejected() {
    let mut writer = IndexWriter::new();
    writer.add_file("/foo", 100, 1, 0, "text/plain");
    let config = config_json(&["/"], 1, 100);
    let mut bytes = writer.into_bytes(&config).unwrap();
    let last = bytes.len() - 1;
    bytes[last] ^= 0xff;
    let err = IndexReader::from_bytes(&bytes).err().unwrap();
    assert!(err.contains("checksum"));
}

#[test]
fn truncated_index_is_rejected() {
    let writer = IndexWriter::new();
    let bytes = writer.into_bytes(&config_json(&[], 0, 0)).unwrap();
    assert!(IndexReader::from_bytes(&bytes[..16]).is_err());
    assert!(IndexReader::from_bytes(&[]).is_err());
}

#[test]
fn empty_index_reads_back_empty() {
    let writer = IndexWriter::new();
    assert_eq!(writer.file_count(), 0);
    let bytes = writer.into_bytes(&config_json(&[], 0, 0)).unwrap();
    let reader = IndexReader::from_bytes(&bytes).unwrap();
    assert_eq!(reader.num_files(), 0);
    assert!(reader.file_entry(0).is_err());
    assert!(reader.trigram_bitmap([b'a', b'b', b'c']).is_none());
}

#[test]
fn directory_entries_by_prefix_and_their_files() {
    let mut writer = IndexWriter::new();
    writer.add_file("/a/x", 1, 1, 0, "text/plain");
    writer.add_file("/a/y", 2, 2, 0, "text/plain");
    writer.add_file("/b/z", 3, 3, 0, "text/plain");
    writer.add_dir("/b", 30, 3, 2, 1);
    writer.add_dir("/a", 10, 1, 0, 2);
    let bytes = writer.into_bytes(&config_json(&["/"], 0, 0)).unwrap();
    let reader = IndexReader::from_bytes(&bytes).unwrap();
    let dirs = reader.dir_entries_for_prefix("/a");
    assert_eq!(dirs.len(), 1);
    assert_eq!(dirs[0].path, "/a");
    let paths = reader.get_file_paths_in_dir(&dirs[0]).unwrap();
    assert_eq!(paths, vec!["/a/x".to_string(), "/a/y".to_string()]);
    let files = reader.get_files_in_dir(&dirs[0]).unwrap();
    assert_eq!(files[1].size, 2);
    assert!(reader.dir_entry("/c").is_none());
    assert_eq!(reader.file_path(2).unwrap(), "/b/z");
    assert_eq!(reader.file_path_only(1).unwrap(), "/a/y");
}

#[test]
fn header_features_of_a_written_index() {
    let writer = IndexWriter::new();
    let bytes = writer.into_bytes(&config_json(&[], 0, 0)).unwrap();
    let reader = IndexReader::from_bytes(&bytes).unwrap();
    assert!(reader.has_feature(FEATURE_DIR_TABLE));
    assert_eq!(reader.header().version, FORMAT_VERSION);
}

#[test]
fn trigram_stats_of_a_small_index() {
    let mut writer = IndexWriter::new();
    writer.add_file("/foo", 1, 1, 0, "text/plain");
    writer.add_file("/food", 1, 1, 0, "text/plain");
    for (id, p) in ["/foo", "/food"].iter().enumerate() {
        for tri in trigram::generate_trigrams_lowercase(p) {
            writer.add_trigram_doc(trigram::trigram_to_bytes(&tri), id as u32);
        }
    }
    let bytes = writer.into_bytes(&config_json(&[], 0, 0)).unwrap();
    let reader = IndexReader::from_bytes(&bytes).unwrap();
    let stats = reader.trigram_stats();
    assert_eq!(stats.count as u64, reader.header().num_trigrams);
    assert_eq!(stats.max_docs, 2);
    assert_eq!(stats.min_docs, 1);
}

#[test]
fn batch_lookup_records_found_trigrams() {
    let mut writer = IndexWriter::new();
    writer.add_file("/foo", 1, 1, 0, "text/plain");
    for tri in trigram::generate_trigrams_lowercase("/foo") {
        writer.add_trigram_doc(trigram::trigram_to_bytes(&tri), 0);
    }
    let bytes = writer.into_bytes(&config_json(&[], 0, 0)).unwrap();
    let reader = IndexReader::from_bytes(&bytes).unwrap();
    let mut results = std::collections::HashMap::new();
    results.insert(7u64, roaring::RoaringBitmap::new());
    reader.trigram_bitmaps_batch(&[*b"foo", *b"zzz", *b"foo"], &mut results);
    let foo_key = u64::from_be_bytes([0, 0, 0, 0, 0, b'f', b'o', b'o']);
    assert!(results[&foo_key].contains(0));
    assert_eq!(results.len(), 2);
    assert!(results.contains_key(&7));
}

#[test]
fn error_messages() {
    let writer = IndexWriter::new();
    let mut bytes = writer.into_bytes(&config_json(&[], 0, 0)).unwrap();
    let reader = IndexReader::from_bytes(&bytes).unwrap();
    assert_eq!(reader.file_entry(3).err().unwrap(), "doc_id 3 out of range (max 0)");
    assert_eq!(reader.file_path(3).err().unwrap(), "doc_id 3 out of range (max 0)");
    let n = bytes.len();
    let stored = u32::from_le_bytes([bytes[n - 4], bytes[n - 3], bytes[n - 2], bytes[n - 1]]);
    bytes[n - 4] ^= 1;
    let msg = IndexReader::from_bytes(&bytes).err().unwrap();
    assert_eq!(
        msg,
        format!(
            "index checksum mismatch (stored: {:08x}, computed: {:08x}). The index may be corrupt or truncated.",
            stored ^ 1,
            stored
        )
    );
    assert_eq!(IndexReader::from_bytes(&[1, 2]).err().unwrap(), "index too short (missing CRC footer)");
}

#[test]
fn into_bytes_lays_out_the_compressed_configuration() {
    let mut writer = IndexWriter::new();
    writer.add_file("/foo", 100, 1, 0, "text/plain");
    let config = config_json(&["/"], 1, 100);
    let compressed = zstd::encode_all(&config[..], 3).unwrap();
    assert_eq!(writer.index_bytes(&compressed).unwrap(), writer.into_bytes(&config).unwrap());
}

#[test]
fn stored_configuration_bytes_are_kept_as_given() {
    let mut writer = IndexWriter::new();
    writer.add_file("/foo", 100, 1, 0, "text/plain");
    let bytes = writer.index_bytes(b"not a zstd frame").unwrap();
    let reader = IndexReader::from_bytes(&bytes).unwrap();
    assert_eq!(reader.num_files(), 1);
    let h = reader.header();
    let start = h.config_offset as usize;
    assert_eq!(&bytes[start..start + h.config_len as usize], b"not a zstd frame");
    assert!(reader.config().is_err());
}

#[test]
fn write_body_appends_after_what_is_there() {
    let mut writer = IndexWriter::new();
    writer.add_file("/foo", 100, 1, 0, "text/plain");
    writer.add_file("/bar", 5, 2, 0, "text/plain");
    let mut out = vec![7u8, 7, 7];
    let n = writer.write_body(&mut out, b"cfg").unwrap();
    assert_eq!(n, 2);
    assert_eq!(&out[..3], &[7u8, 7, 7]);
    assert_eq!(&out[3..11], &MAGIC_FULL[..]);
}

#[test]
fn prefix_listing_gives_the_matching_directories_in_path_order() {
    let mut writer = IndexWriter::new();
    writer.add_dir("/b", 4, 4, 0, 0);
    writer.add_dir("/ab", 3, 3, 0, 0);
    writer.add_dir("/a/b", 2, 2, 0, 0);
    writer.add_dir("/a", 1, 1, 0, 0);
    let bytes = writer.into_bytes(&config_json(&["/"], 0, 0)).unwrap();
    let reader = IndexReader::from_bytes(&bytes).unwrap();
    let listed: Vec<(String, u64)> = reader.dir_entries_for_prefix("/a").into_iter().map(|d| (d.path, d.ino)).collect();
    assert_eq!(listed, vec![("/a".to_string(), 1), ("/a/b".to_string(), 2), ("/ab".to_string(), 3)]);
    assert!(reader.dir_entries_for_prefix("/c").is_empty());
    assert!(reader.dir_entry("/zz").is_none());
    assert_eq!(reader.dir_entry("/ab").unwrap().mtime, 3);
}

#[test]
fn any_single_flipped_bit_is_refused() {
    let mut writer = IndexWriter::new();
    writer.add_file("/foo", 100, 1, 0, "text/plain");
    let bytes = writer.into_bytes(&config_json(&["/"], 1, 100)).unwrap();
    assert!(IndexReader::from_bytes(&bytes).is_ok());
    for i in 0..bytes.len() {
        for k in 0..8 {
            let mut bad = bytes.clone();
            bad[i] ^= 1u8 << k;
            assert!(IndexReader::from_bytes(&bad).is_err());
        }
    }
}
