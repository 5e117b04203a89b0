use aho_corasick::patterns::split_patterns;
use aho_corasick::scanner::Scanner;

#[test]
fn test_split_patterns_basic() {
    let buffer = b"he\0she\0hers\0";
    let split = split_patterns(buffer);
    assert_eq!(split, vec![b"he".to_vec(), b"she".to_vec(), b"hers".to_vec()]);
}

#[test]
fn test_split_patterns_trailing_without_nul_dropped() {
    let split = split_patterns(b"he\0she");
    assert_eq!(split, vec![b"he".to_vec()]);
}

#[test]
fn test_split_patterns_empty_runs() {
    let split = split_patterns(b"\0\0ab\0\0c\0");
    assert_eq!(split, vec![b"ab".to_vec(), b"c".to_vec()]);
    assert_eq!(split_patterns(b""), Vec::<Vec<u8>>::new());
    assert_eq!(split_patterns(b"\0\0\0"), Vec::<Vec<u8>>::new());
}

#[test]
fn test_scanner_get_reflects_stop_bytes() {
    let scanner = Scanner::new(b"<>;");
    assert!(scanner.get(b'<' as usize));
    assert!(scanner.get(b'>' as usize));
    assert!(scanner.get(b';' as usize));
    assert!(!scanner.get(b'a' as usize));
    assert!(!scanner.get(0));
}

#[test]
fn test_scanner_trips_on_stop_byte() {
    let mut scanner = Scanner::new(b"<>");
    assert!(scanner.suspicious(b"a<b"));
    let mut clean = Scanner::new(b"<>");
    assert!(!clean.suspicious(b"plain text"));
}

#[test]
fn test_scanner_trips_on_double_dash() {
    let mut scanner = Scanner::new(b"");
    assert!(scanner.suspicious(b"drop table --x"));
    let mut single = Scanner::new(b"");
    assert!(!single.suspicious(b"a-b-c"));
}

#[test]
fn test_scanner_double_dash_across_chunks() {
    let mut scanner = Scanner::new(b"");
    assert!(!scanner.suspicious(b"abc-"));
    // the previous byte is remembered between calls
    assert!(scanner.suspicious(b"-def"));
}

#[test]
fn test_scanner_fresh_cursor_never_pairs() {
    // the cursor starts at 255, so a single leading dash trips nothing
    let mut scanner = Scanner::new(b"");
    assert!(!scanner.suspicious(b"-abc"));
}

#[test]
fn test_scanner_cursor_not_advanced_on_trip() {
    // an alarming byte does not move the cursor, so a rescan sees it again
    let mut scanner = Scanner::new(b"!");
    assert!(scanner.suspicious(b"ab!"));
    assert!(scanner.suspicious(b"!"));
}
