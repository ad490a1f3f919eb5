use mlocate::error::MlocateError;
use mlocate::filter::{parse_mime_type, parse_modified, parse_size, CmpOp};

#[test]
fn test_parse_size() {
    let f = parse_size("10MB+").unwrap();
    assert_eq!(f.bytes, 10_000_000);
    assert_eq!(f.operator, CmpOp::Ge);

    let f = parse_size("1KB-").unwrap();
    assert_eq!(f.bytes, 1_000);
    assert_eq!(f.operator, CmpOp::Le);

    let f = parse_size("500MB").unwrap();
    assert_eq!(f.bytes, 500_000_000);
    assert_eq!(f.operator, CmpOp::Eq);

    let f = parse_size("2GB+").unwrap();
    assert_eq!(f.bytes, 2_000_000_000);
}

#[test]
fn test_size_filter_invalid() {
    assert!(parse_size("abc").is_err());
    assert!(parse_size("").is_err());
}

#[test]
fn test_parse_modified() {
    let f = parse_modified("2d-").unwrap();
    assert_eq!(f.seconds, 2 * 24 * 3600);
    assert_eq!(f.operator, CmpOp::Ge);

    let f = parse_modified("1w+").unwrap();
    assert_eq!(f.seconds, 7 * 24 * 3600);
    assert_eq!(f.operator, CmpOp::Le);

    let f = parse_modified("30m").unwrap();
    assert_eq!(f.seconds, 30 * 60);
}

#[test]
fn test_parse_mime_type() {
    let f = parse_mime_type("text/plain").unwrap();
    assert!(!f.is_glob);
    assert_eq!(f.pattern, "text/plain");

    let f = parse_mime_type("image/*").unwrap();
    assert!(f.is_glob);
    assert_eq!(f.pattern, "image/*");
}

#[test]
fn test_mime_type_invalid() {
    assert!(parse_mime_type("text").is_err());
    assert!(parse_mime_type("").is_err());
    assert!(parse_mime_type("*/*").is_err());
}

#[test]
fn size_units_and_plain_bytes() {
    assert_eq!(parse_size("512").unwrap().bytes, 512);
    assert_eq!(parse_size("3B").unwrap().bytes, 3);
    assert!(parse_size("1TB").is_err());
    assert_eq!(parse_size("4kb").unwrap().bytes, 4_000);
    assert_eq!(parse_size(" 7MB- ").unwrap().bytes, 7_000_000);
}

#[test]
fn size_error_names_the_input() {
    match parse_size("12XB") {
        Err(MlocateError::InvalidSizeFilter { input }) => assert_eq!(input, "12XB"),
        other => panic!("unexpected {:?}", other.map(|f| f.bytes)),
    }
}

#[test]
fn size_overflow_is_an_error() {
    assert!(parse_size("99999999999GB").is_err());
}

#[test]
fn modified_units() {
    assert!(parse_modified("45s").is_err());
    assert_eq!(parse_modified("3h").unwrap().seconds, 3 * 3600);
    assert_eq!(parse_modified("3h").unwrap().operator, CmpOp::Eq);
    assert_eq!(parse_modified("-5m").unwrap().seconds, -300);
}

#[test]
fn modified_error_names_the_input() {
    match parse_modified("soon") {
        Err(MlocateError::InvalidTimeFilter { input }) => assert_eq!(input, "soon"),
        other => panic!("unexpected {:?}", other.map(|f| f.seconds)),
    }
}

#[test]
fn mime_error_names_the_input() {
    match parse_mime_type("text") {
        Err(MlocateError::InvalidMimeType { input }) => assert_eq!(input, "text"),
        other => panic!("unexpected {:?}", other.map(|f| f.pattern)),
    }
}
