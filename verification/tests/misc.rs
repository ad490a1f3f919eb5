use mlocate::codec::fxhash64;
use mlocate::clock::unix_seconds;
use mlocate::cli::{ColorMode, SearchCli};
use mlocate::compat::unsupported_flags;
use mlocate::output::icons::get_icon;
use mlocate::output::json::render_json_count;
use mlocate::output::plain::{render_null, render_plain};
use mlocate::output::table::{format_path, format_path_checked};
use mlocate::pipeline::{channel_sizes, choose_mime, detect_mime, needs_sniff};
use mlocate::platform::path::{default_db_dir, default_localpaths, default_prunepaths, HostOs};
use mlocate::platform::{db_path, default_parallel, tmp_db_path};

fn cli() -> SearchCli {
    SearchCli {
        patterns: vec!["x".to_string()],
        ignore_case: false,
        basename: false,
        regex: false,
        existing: false,
        limit: None,
        count: false,
        null: false,
        size: None,
        modified: None,
        mime_type: None,
        gnu: false,
        stats: false,
        database: None,
        table: false,
        json: false,
        plain: false,
        icons: false,
        color: ColorMode::Auto,
        verbose: false,
        generate_completions: None,
        help: false,
        version: false,
        follow: false,
        all: false,
        wholename: false,
        nofollow: false,
        h_flag: false,
        max_database_age: None,
        regextype: None,
        require_visibility: false,
    }
}

#[test]
fn plain_output_joins_lines() {
    let r = vec!["/a".to_string(), "/b c".to_string()];
    assert_eq!(render_plain(&r), "/a\n/b c");
    assert_eq!(render_plain(&[]), "");
}

#[test]
fn null_output_ends_each_path_with_nul() {
    let r = vec!["/a".to_string(), "/bé".to_string()];
    assert_eq!(render_null(&r), b"/a\0/b\xc3\xa9\0".to_vec());
    assert!(render_null(&[]).is_empty());
}

#[test]
fn json_count_object() {
    assert_eq!(render_json_count(2), "{\"count\": 2}");
    assert_eq!(render_json_count(-15), "{\"count\": -15}");
    assert_eq!(render_json_count(0), "{\"count\": 0}");
}

#[test]
fn icons_by_extension() {
    assert_eq!(get_icon("/x/main.rs", "text/x-rust", false, false), "[rs] ");
    assert_eq!(get_icon("/x/main.rs", "text/x-rust", false, true), "\u{e7a8} ");
    assert_eq!(get_icon("/x/photo.jpeg", "image/jpeg", false, false), "[img] ");
    assert_eq!(get_icon("/x/.bashrc", "text/plain", false, false), "[?] ");
    assert_eq!(get_icon("/x/dir", "", true, false), "[dir] ");
    assert_eq!(get_icon("/x/Cargo.lock", "", false, false), "[lock] ");
}

#[test]
fn gnu_stub_flags_are_listed_in_order() {
    let mut c = cli();
    assert!(unsupported_flags(&c).is_empty());
    c.regextype = Some("posix".to_string());
    c.all = true;
    c.follow = true;
    assert_eq!(unsupported_flags(&c), vec!["-L/--follow", "-A/--all", "--regextype"]);
    c.gnu = true;
    assert_eq!(unsupported_flags(&c), vec!["-A/--all", "--regextype"]);
}

#[test]
fn channel_capacities_scale_with_threads() {
    assert_eq!(channel_sizes(4, 1000), (2000, 8000));
    assert_eq!(channel_sizes(0, 1), (0, 0));
}

#[test]
fn mime_choice() {
    assert_eq!(choose_mime("text/plain", true, Some("image/png".to_string())), "text/plain");
    assert_eq!(choose_mime("application/octet-stream", false, Some("image/png".to_string())), "image/png");
    assert_eq!(choose_mime("application/octet-stream", true, Some("image/png".to_string())), "application/octet-stream");
    assert_eq!(choose_mime("application/octet-stream", false, None), "application/octet-stream");
}

#[test]
fn database_paths() {
    assert_eq!(db_path(Some("/x/y.db"), "/home/u/.cache/mlocate"), "/x/y.db");
    assert_eq!(db_path(None, "/home/u/.cache/mlocate"), "/home/u/.cache/mlocate/mlocate.db");
    assert_eq!(tmp_db_path(None, "/c"), "/c/mlocate.db.tmp");
    assert_eq!(tmp_db_path(Some("/x/y.db"), "/c"), "/x/y.db.tmp");
}

#[test]
fn default_directories() {
    assert_eq!(default_db_dir(HostOs::Linux, Some("/home/u")), "/home/u/.cache/mlocate");
    assert_eq!(default_db_dir(HostOs::MacOs, Some("/Users/u")), "/Users/u/Library/Caches/mlocate");
    assert_eq!(default_db_dir(HostOs::Other, None), "/tmp/.cache/mlocate");
    assert_eq!(default_localpaths(HostOs::Linux), vec!["/home", "/etc", "/usr", "/opt"]);
    assert_eq!(default_localpaths(HostOs::Other), vec!["/"]);
    assert_eq!(default_prunepaths(HostOs::MacOs), vec!["/Volumes", "/dev"]);
    assert_eq!(default_prunepaths(HostOs::Linux).len(), 8);
    assert!(default_prunepaths(HostOs::Other).is_empty());
}

#[test]
fn parallelism_is_capped_at_four() {
    assert_eq!(default_parallel(), 4);
}

#[test]
fn path_that_fits_is_shown_whole() {
    assert_eq!(format_path("/home/user/notes.txt", 20), "/home/user/notes.txt");
}

#[test]
fn long_path_keeps_the_end_of_its_directory_and_its_name() {
    let shown = format_path("/home/user/documents/projects/report.txt", 20);
    assert_eq!(shown, "...ojects/report.txt");
    assert_eq!(shown.len(), 20);
}

#[test]
fn long_name_is_shown_alone() {
    assert_eq!(
        format_path("/aaaa/bbbb/cccc/dddd/averyveryverylongfilename.txt", 20),
        "averyveryverylongfilename.txt"
    );
}

#[test]
fn cut_inside_a_character_is_refused() {
    assert_eq!(format_path_checked("/home/\u{e9}\u{e9}\u{e9}\u{e9}\u{e9}\u{e9}\u{e9}\u{e9}\u{e9}\u{e9}\u{e9}/x.txt", 20), None);
    assert_eq!(
        format_path_checked("/home/user/documents/projects/report.txt", 20),
        Some("...ojects/report.txt".to_string())
    );
}

#[test]
fn clock_readings_become_whole_seconds_rounded_down() {
    assert_eq!(unix_seconds(Ok((1746720000, 999_999_999))), 1746720000);
    assert_eq!(unix_seconds(Err((5, 0))), -5);
    assert_eq!(unix_seconds(Err((5, 1))), -6);
    assert_eq!(unix_seconds(Ok((u64::MAX, 0))), i64::MAX);
}

#[test]
fn mime_type_comes_from_the_name_then_the_leading_bytes() {
    let png: &[u8] = &[0x89, b'P', b'N', b'G', 0x0d, 0x0a, 0x1a, 0x0a, 0, 0, 0, 0x0d, b'I', b'H', b'D', b'R'];
    assert_eq!(detect_mime("/home/u/notes.txt", Some(png)), "text/plain");
    assert!(!needs_sniff("/home/u/notes.txt"));
    assert!(needs_sniff("/home/u/picture"));
    assert_eq!(detect_mime("/home/u/picture", Some(png)), "image/png");
    assert_eq!(detect_mime("/home/u/picture", None), "application/octet-stream");
    assert_eq!(detect_mime("/home/u/picture", Some(&[])), "application/octet-stream");
    assert_eq!(detect_mime("/home/u/picture.zzzunknown", Some(png)), "application/octet-stream");
}

#[test]
fn fx_hash_matches_the_fxhash_crate_on_this_machine() {
    for text in ["", "a", "abc", "abcd", "abcdefg", "abcdefgh", "markdownx", "averyveryverylongextension1"] {
        assert_eq!(fxhash64(text.as_bytes()), fxhash::hash64(text.as_bytes()));
    }
}

#[test]
fn path_cells_split_into_plain_and_bold_parts() {
    let (p, b) = mlocate::output::table::colour_split("...ojects/report.txt", "report.txt");
    assert_eq!((p.as_str(), b.as_deref()), ("...ojects.../", Some("report.txt")));
    let (p, b) = mlocate::output::table::colour_split("/home/u/notes.txt", "notes.txt");
    assert_eq!((p.as_str(), b.as_deref()), ("/home/u/", Some("notes.txt")));
    let (p, b) = mlocate::output::table::colour_split("/home/u/", "u");
    assert_eq!((p.as_str(), b.as_deref()), ("/home/", Some("u")));
    let (p, b) = mlocate::output::table::colour_split("/a/b", "zz");
    assert_eq!((p.as_str(), b), ("/a/b", None));
}
