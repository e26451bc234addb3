use slimsync::numbers::to_low32;
use slimsync::numbers::to_low64;
use slimsync::numbers::to_signed64;
use slimsync::numbers::to_unsigned64;
use slimsync::paths::extension;
use slimsync::paths::file_name;
use slimsync::paths::same_path;
use slimsync::text::contains_text;
use slimsync::text::decimal_text;
use slimsync::text::has_prefix;
use slimsync::text::same_text;

#[test]
fn decimal_numbers() {
    assert_eq!(decimal_text(0), "0");
    assert_eq!(decimal_text(9), "9");
    assert_eq!(decimal_text(10), "10");
    assert_eq!(decimal_text(1234567890), "1234567890");
    assert_eq!(decimal_text(u64::MAX), "18446744073709551615");
}

#[test]
fn comparisons_of_texts() {
    assert!(same_text("é", "é"));
    assert!(!same_text("a", "ab"));
    assert!(has_prefix("/a/b", "/a"));
    assert!(has_prefix("x", ""));
    assert!(!has_prefix("/a", "/a/b"));
    assert!(contains_text("hello", "ell"));
    assert!(contains_text("hello", "lo"));
    assert!(!contains_text("hello", "hello!"));
}

#[test]
fn file_names_and_extensions() {
    assert_eq!(file_name("/a/b.txt"), Some("b.txt"));
    assert_eq!(file_name("/a/b/"), Some("b"));
    assert_eq!(file_name("/"), None);
    assert_eq!(file_name(".."), None);
    assert_eq!(file_name("."), None);
    assert_eq!(file_name("a/./"), Some("a"));
    assert_eq!(extension("a.tar.gz"), Some("gz"));
    assert_eq!(extension(".bashrc"), None);
    assert_eq!(extension(".a.b"), Some("b"));
    assert_eq!(extension("a."), Some(""));
    assert_eq!(extension("/a.b/c"), None);
}

#[test]
fn spellings_of_a_path() {
    assert!(same_path("/a/b", "/a//b/"));
    assert!(same_path("/a/./b", "/a/b"));
    assert!(!same_path("./a", "a"));
    assert!(!same_path("/a", "a"));
    assert!(!same_path("/a/../a", "/a"));
    assert!(!same_path("/a", "/a/b"));
    for (a, b) in [("/a/b", "/a//b/"), ("./a", "a"), ("/a/./b/.", "/a/b"), ("/a/..", "/a"), ("a\\b", "a/b"), ("/a/\\b", "/a/b")] {
        assert_eq!(same_path(a, b), std::path::Path::new(a) == std::path::Path::new(b));
    }
}

#[test]
fn names_agree_with_the_standard_library() {
    for p in [
        "/a/b.txt", "x.", ".x", "..x", "a/b/.", "a/..", "", "/", "a//b.c.d", "a\\b.c", "/a\\.\\b", "a.b\\c",
    ] {
        let path = std::path::Path::new(p);
        assert_eq!(file_name(p), path.file_name().and_then(|n| n.to_str()), "{}", p);
        assert_eq!(extension(p), path.extension().and_then(|n| n.to_str()), "{}", p);
    }
}

#[test]
fn numbers_by_their_bits() {
    assert_eq!(to_signed64(u64::MAX), -1);
    assert_eq!(to_signed64(5), 5);
    assert_eq!(to_unsigned64(-1), u64::MAX);
    assert_eq!(to_low32(-2), 4294967294);
    assert_eq!(to_low32(4294967296), 0);
    assert_eq!(to_low64((1u128 << 64) + 3), 3);
}
