use mlocate::filter::{parse_mime_type, CmpOp, SizeFilter, ModifiedFilter};
use mlocate::index::format::{DiskFileEntry, IndexReader, IndexWriter};
use mlocate::index::search::{extract_regex_literals, filter_matches, search, search_at, SearchFilters, SearchOptions};
use mlocate::index::trigram;

fn build_test_data() -> Vec<u8> {
    let mut writer = IndexWriter::new();
    let files = vec![
        ("/home/user/foo.rs", 1234u64, 1746720000i64, 0o644u32, "text/x-rust"),
        ("/home/user/bar.txt", 5678u64, 1746720100i64, 0o644u32, "text/plain"),
        ("/etc/config.toml", 100u64, 1746700000i64, 0o600u32, "application/octet-stream"),
        ("/home/user/README.md", 2000u64, 1746800000i64, 0o644u32, "text/markdown"),
        ("/var/log/syslog", 500000u64, 1746600000i64, 0o600u32, "text/plain"),
    ];
    for (path, size, mtime, mode, mime) in &files {
        let id = writer.add_file(path, *size, *mtime, *mode, mime);
        let tris = trigram::generate_trigrams_lowercase(path);
        for tri in &tris {
            writer.add_trigram_doc(trigram::trigram_to_bytes(tri), id);
        }
        let bis = trigram::generate_bigrams_lowercase(path);
        for bi in &bis {
            writer.add_bigram_doc(trigram::bigram_to_bytes(bi), id);
        }
        if let Some(ext) = std::path::Path::new(path).extension().and_then(|e| e.to_str()) {
            let mut ext_key = [0u8; 8];
            let eb = ext.as_bytes();
            ext_key[..eb.len().min(8)].copy_from_slice(eb);
            writer.add_ext_doc(ext_key, id);
        }
    }
    writer.prune_empty();
    let config = br#"{"indexed_paths":[],"pruned_paths":[],"timestamp":0,"hostname":"test","total_bytes_indexed":0,"mlocate_version":"0.1.0"}"#;
    writer.into_bytes(config).unwrap()
}

fn run(reader: &IndexReader, patterns: &[&str], options: SearchOptions, filters: SearchFilters) -> Vec<String> {
    let patterns: Vec<String> = patterns.iter().map(|p| p.to_string()).collect();
    let mut results = search(reader, &patterns, &options, &filters).unwrap();
    results.collect_all(&|_: &str| true).into_iter().map(|r| r.unwrap().full_path).collect()
}

#[test]
fn test_search_finds_foo() {
    let bytes = build_test_data();
    let reader = IndexReader::from_bytes(&bytes).unwrap();
    let paths = run(&reader, &["foo"], SearchOptions::default(), SearchFilters::default());
    assert_eq!(paths, vec!["/home/user/foo.rs"]);
}

#[test]
fn test_search_case_insensitive() {
    let bytes = build_test_data();
    let reader = IndexReader::from_bytes(&bytes).unwrap();
    let paths = run(
        &reader,
        &["README"],
        SearchOptions { ignore_case: true, ..Default::default() },
        SearchFilters::default(),
    );
    assert_eq!(paths, vec!["/home/user/README.md"]);
}

#[test]
fn test_search_basename() {
    let bytes = build_test_data();
    let reader = IndexReader::from_bytes(&bytes).unwrap();
    let paths = run(&reader, &["syslog"], SearchOptions { basename: true, ..Default::default() }, SearchFilters::default());
    assert_eq!(paths, vec!["/var/log/syslog"]);
}

#[test]
fn test_search_short_pattern() {
    let bytes = build_test_data();
    let reader = IndexReader::from_bytes(&bytes).unwrap();
    let paths = run(&reader, &["rs"], SearchOptions::default(), SearchFilters::default());
    assert_eq!(paths, vec!["/home/user/foo.rs"]);
}

#[test]
fn test_search_mime_filter() {
    let bytes = build_test_data();
    let reader = IndexReader::from_bytes(&bytes).unwrap();
    let paths = run(
        &reader,
        &[".md"],
        SearchOptions::default(),
        SearchFilters { mime: Some(parse_mime_type("text/markdown").unwrap()), ..Default::default() },
    );
    assert_eq!(paths, vec!["/home/user/README.md"]);
}

#[test]
fn test_search_limit() {
    let bytes = build_test_data();
    let reader = IndexReader::from_bytes(&bytes).unwrap();
    let paths = run(&reader, &["user"], SearchOptions { limit: Some(2), ..Default::default() }, SearchFilters::default());
    assert_eq!(paths.len(), 2);
}

#[test]
fn test_search_empty_patterns_filters_only() {
    let bytes = build_test_data();
    let reader = IndexReader::from_bytes(&bytes).unwrap();
    let paths = run(
        &reader,
        &[],
        SearchOptions::default(),
        SearchFilters { size: Some(SizeFilter { bytes: 500000, operator: CmpOp::Ge }), ..Default::default() },
    );
    assert_eq!(paths, vec!["/var/log/syslog"]);
}

#[test]
fn test_search_regex() {
    let bytes = build_test_data();
    let reader = IndexReader::from_bytes(&bytes).unwrap();
    let paths = run(&reader, &[r"\.rs$"], SearchOptions { regex: true, ..Default::default() }, SearchFilters::default());
    assert_eq!(paths, vec!["/home/user/foo.rs"]);
}

#[test]
fn test_search_regex_case_insensitive() {
    let bytes = build_test_data();
    let reader = IndexReader::from_bytes(&bytes).unwrap();
    let paths = run(
        &reader,
        &["README"],
        SearchOptions { regex: true, ignore_case: true, ..Default::default() },
        SearchFilters::default(),
    );
    assert_eq!(paths, vec!["/home/user/README.md"]);
}

#[test]
fn test_search_multi_pattern_or() {
    let bytes = build_test_data();
    let reader = IndexReader::from_bytes(&bytes).unwrap();
    let paths = run(&reader, &["foo", "syslog"], SearchOptions::default(), SearchFilters::default());
    assert_eq!(paths, vec!["/home/user/foo.rs", "/var/log/syslog"]);
}

#[test]
fn invalid_regex_is_an_error() {
    let bytes = build_test_data();
    let reader = IndexReader::from_bytes(&bytes).unwrap();
    let patterns = vec!["(".to_string()];
    let r = search(&reader, &patterns, &SearchOptions { regex: true, ..Default::default() }, &SearchFilters::default());
    assert!(r.is_err());
}

#[test]
fn existing_check_drops_missing_files() {
    let bytes = build_test_data();
    let reader = IndexReader::from_bytes(&bytes).unwrap();
    let patterns = vec!["user".to_string()];
    let options = SearchOptions { existing: true, ..Default::default() };
    let mut results = search(&reader, &patterns, &options, &SearchFilters::default()).unwrap();
    let paths: Vec<String> = results
        .collect_all(&|p: &str| p.ends_with(".txt"))
        .into_iter()
        .map(|r| r.unwrap().full_path)
        .collect();
    assert_eq!(paths, vec!["/home/user/bar.txt"]);
}

#[test]
fn modified_filter_uses_the_given_time() {
    let bytes = build_test_data();
    let reader = IndexReader::from_bytes(&bytes).unwrap();
    let patterns: Vec<String> = Vec::new();
    let filters = SearchFilters {
        modified: Some(ModifiedFilter { seconds: 100_000, operator: CmpOp::Ge }),
        ..Default::default()
    };
    let mut results = search_at(&reader, &patterns, &SearchOptions::default(), &filters, 1746800000).unwrap();
    let paths: Vec<String> = results.collect_all(&|_: &str| true).into_iter().map(|r| r.unwrap().full_path).collect();
    assert_eq!(paths, vec!["/home/user/foo.rs", "/home/user/bar.txt", "/etc/config.toml", "/home/user/README.md"]);
}

#[test]
fn regex_literals_longest_first() {
    assert_eq!(extract_regex_literals(r"foo.*barbaz"), vec!["barbaz".to_string(), "foo".to_string()]);
    assert!(extract_regex_literals(r"a.b").is_empty());
}

#[test]
fn no_match_gives_nothing() {
    let bytes = build_test_data();
    let reader = IndexReader::from_bytes(&bytes).unwrap();
    let paths = run(&reader, &["zzzz"], SearchOptions::default(), SearchFilters::default());
    assert!(paths.is_empty());
}

#[test]
fn regex_patterns_are_alternatives() {
    let bytes = build_test_data();
    let reader = IndexReader::from_bytes(&bytes).unwrap();
    let paths = run(&reader, &["foo", "syslog"], SearchOptions { regex: true, ..Default::default() }, SearchFilters::default());
    assert_eq!(paths, vec!["/home/user/foo.rs", "/var/log/syslog"]);
}

#[test]
fn one_character_pattern_keeps_its_matches_beside_a_long_one() {
    let bytes = build_test_data();
    let reader = IndexReader::from_bytes(&bytes).unwrap();
    let paths = run(&reader, &["R", "syslog"], SearchOptions::default(), SearchFilters::default());
    assert_eq!(paths, vec!["/home/user/README.md", "/var/log/syslog"]);
}

#[test]
fn invalid_regex_message_names_the_pattern() {
    let bytes = build_test_data();
    let reader = IndexReader::from_bytes(&bytes).unwrap();
    let patterns = vec!["foo".to_string(), "(".to_string()];
    match search(&reader, &patterns, &SearchOptions { regex: true, ..Default::default() }, &SearchFilters::default()) {
        Err(mlocate::error::MlocateError::Other(m)) => assert!(m.starts_with("Invalid regex '(': ")),
        _ => panic!("expected an invalid-regex error"),
    }
}

fn with_mime(mime: &str) -> DiskFileEntry {
    DiskFileEntry { full_path: "/x".to_string(), size: 1, mtime: 0, mode: 0, mime_type: mime.to_string() }
}

#[test]
fn mime_globs_match_any_run_of_characters() {
    let plain = SearchFilters { mime: Some(parse_mime_type("*/plain").unwrap()), ..Default::default() };
    assert!(filter_matches(&with_mime("text/plain"), &plain, 0));
    assert!(!filter_matches(&with_mime("text/plainer"), &plain, 0));
    let image = SearchFilters { mime: Some(parse_mime_type("image/*").unwrap()), ..Default::default() };
    assert!(filter_matches(&with_mime("image/png"), &image, 0));
    assert!(!filter_matches(&with_mime("text/plain"), &image, 0));
    let mid = SearchFilters { mime: Some(parse_mime_type("text/x-*src").unwrap()), ..Default::default() };
    assert!(filter_matches(&with_mime("text/x-csrc"), &mid, 0));
    assert!(!filter_matches(&with_mime("text/x-csrcs"), &mid, 0));
}

#[test]
fn regex_literals_inside_longer_ones_are_dropped() {
    assert_eq!(extract_regex_literals("foo.*foobar"), vec!["foobar".to_string()]);
    assert_eq!(extract_regex_literals("ab|abc|abc"), vec!["abc".to_string()]);
}
