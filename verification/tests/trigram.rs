use mlocate::db::trigram as db_trigram;
use mlocate::index::trigram as index_trigram;

fn strings(v: &[&str]) -> Vec<String> {
    v.iter().map(|s| s.to_string()).collect()
}

#[test]
fn trigram_test_generate_trigrams_basic() {
    assert_eq!(db_trigram::generate_trigrams("foo"), strings(&["foo"]));
    assert_eq!(index_trigram::generate_trigrams("foo"), strings(&["foo"]));
}

#[test]
fn trigram_test_generate_trigrams_longer() {
    assert_eq!(db_trigram::generate_trigrams("foobar"), strings(&["bar", "foo", "oba", "oob"]));
    assert_eq!(index_trigram::generate_trigrams("foobar"), strings(&["bar", "foo", "oba", "oob"]));
}

#[test]
fn trigram_test_generate_trigrams_short() {
    assert_eq!(db_trigram::generate_trigrams("/a"), strings(&["_/a"]));
    assert_eq!(index_trigram::generate_trigrams("/a"), strings(&["_/a"]));
}

#[test]
fn trigram_test_generate_trigrams_two_char() {
    assert_eq!(db_trigram::generate_trigrams("/ab"), strings(&["/ab"]));
    assert_eq!(index_trigram::generate_trigrams("/ab"), strings(&["/ab"]));
}

#[test]
fn trigram_test_generate_trigrams_dedup() {
    assert_eq!(db_trigram::generate_trigrams("/aaa"), strings(&["/aa", "aaa"]));
    assert_eq!(index_trigram::generate_trigrams("/aaa"), strings(&["/aa", "aaa"]));
}

#[test]
fn trigram_test_generate_trigrams_lowercase() {
    let expected = strings(&[".md", "adm", "dme", "e.m", "ead", "me.", "rea"]);
    assert_eq!(db_trigram::generate_trigrams_lowercase("README.md"), expected);
    assert_eq!(index_trigram::generate_trigrams_lowercase("README.md"), expected);
}

#[test]
fn test_escape_like() {
    assert_eq!(db_trigram::escape_like("foo%bar"), "foo\\%bar");
    assert_eq!(db_trigram::escape_like("foo_bar"), "foo\\_bar");
    assert_eq!(db_trigram::escape_like("foo\\bar"), "foo\\\\bar");
}

#[test]
fn test_trigram_to_bytes() {
    assert_eq!(index_trigram::trigram_to_bytes("foo"), [b'f', b'o', b'o']);
    assert_eq!(index_trigram::trigram_to_bytes("ab"), [b'a', b'b', 0]);
}

#[test]
fn trigrams_of_empty_text_are_the_padding_trigram() {
    assert_eq!(index_trigram::generate_trigrams(""), strings(&["___"]));
}

#[test]
fn trigrams_of_one_char_are_padded() {
    assert_eq!(index_trigram::generate_trigrams("a"), strings(&["_a_"]));
}

#[test]
fn bigrams_are_sorted_lowercase_and_distinct() {
    assert_eq!(index_trigram::generate_bigrams_lowercase("AbAb"), strings(&["ab", "ba"]));
    assert_eq!(index_trigram::generate_bigrams_lowercase("X"), strings(&["x"]));
    assert!(index_trigram::generate_bigrams_lowercase("").is_empty());
}

#[test]
fn bigram_key_is_zero_padded() {
    assert_eq!(index_trigram::bigram_to_bytes("ab"), [b'a', b'b']);
    assert_eq!(index_trigram::bigram_to_bytes("a"), [b'a', 0]);
}

#[test]
fn casefold_lowers_ascii_only() {
    assert_eq!(index_trigram::casefold("ReadMe.MD"), "readme.md");
    assert_eq!(index_trigram::casefold("ÄB"), "Äb");
}

#[test]
fn pattern_to_like_escapes_and_lowers() {
    assert_eq!(db_trigram::pattern_to_like("a%b", false, false), ("a\\%b".to_string(), false));
    assert_eq!(db_trigram::pattern_to_like("Foo", true, false), ("foo".to_string(), true));
    assert_eq!(db_trigram::pattern_to_like("Foo", true, true), ("%/foo".to_string(), false));
}

#[test]
fn trigram_query_needs_three_chars() {
    assert!(db_trigram::build_trigram_query("ab", false, false).is_none());
    let q = db_trigram::build_trigram_query("foo", false, false).unwrap();
    assert!(q.contains("trigrams WHERE trigram"));
}

#[test]
fn trigram_query_looks_for_the_pattern_anywhere_in_the_path() {
    let q = db_trigram::build_trigram_query("foobar", false, false).unwrap();
    assert_eq!(q.matches("trigram = ?").count(), 4);
    assert!(q.contains(" INTERSECT "));
    assert!(q.contains("full_path LIKE '%foobar%' ESCAPE"));
    let b = db_trigram::build_trigram_query("Foo_bar", true, true).unwrap();
    assert!(b.contains("LOWER(full_path) LIKE LOWER('%/foo\\_bar%') ESCAPE"));
}

#[test]
fn lowercase_trigrams_are_those_of_the_lowered_path() {
    assert_eq!(
        index_trigram::generate_trigrams_lowercase("/Home/User/README.md"),
        index_trigram::generate_trigrams("/home/user/readme.md")
    );
}
