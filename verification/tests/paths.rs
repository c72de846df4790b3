use miniutils::{is_suspicious_char, is_suspicious_strict, normalize_path};
use std::path::PathBuf;

#[test]
fn test_normalize_path() {
    let tests: Vec<&str> = vec![
        // basics
        "/a/b/../c/./d",            "/a/c/d",
        "a/../../b/c/d",            "b/c/d",
        "/a/b/../../../../c",       "/c",
        "a/../.././/c",             "c",
        "../a/b/c",                 "a/b/c",
        "./a/./b/./c",              "a/b/c",
        "./a/./b/./...../c",        "a/b/c",
        "",                         "",
        "./",                       "",
        "/",                        "/",
        "/.",                       "/",
        "/./",                      "/",
        "/./.",                     "/",
        "/..",                      "/",
        "../..",                    "",
        "./foo",                    "foo",

        // Suspicious character tests
        "/a/b\0/c",                 "/a/b/c",
        "/a/b\n/c",                 "/a/b/c",
        "/a/b\r/c",                 "/a/b/c",
        "/a/b\\/c",                 "/a/b/c",
        "a/b/../../.\\/\\//c",      "c",

        // Combined tests
        "/a/b\0/../\\Xc/./d\r\n",   "/a/Xc/d",
        "a/b\x1a/\\Xc/\x1F\\./d..", "a/b/Xc/d..",
    ];

    for i in (0..tests.len()).step_by(2) {
        let input: &str = tests[i];
        let expected: &str = tests[i + 1];
        assert_eq!(PathBuf::from(normalize_path(input, false)), PathBuf::from(expected), "Failed: '{input}'");
        assert_eq!(normalize_path(input, false), expected, "Failed: '{input}'");
    }
}

#[test]
fn normalize_path_strict_removes_shell_characters_only() {
    assert_eq!(normalize_path("/a/b*?/c;d", true), "/a/b/cd");
    // in strict mode the control characters stay
    assert_eq!(normalize_path("/a\\b", true), "/a\\b");
}

#[test]
fn suspicious_characters() {
    assert!(is_suspicious_char('\0'));
    assert!(is_suspicious_char('\n'));
    assert!(is_suspicious_char('\\'));
    assert!(is_suspicious_char('\x7F'));
    assert!(is_suspicious_char('\x1F'));
    assert!(!is_suspicious_char(' '));
    assert!(!is_suspicious_char('a'));
    assert!(is_suspicious_strict('*'));
    assert!(is_suspicious_strict('}'));
    assert!(!is_suspicious_strict('\n'));
    assert!(!is_suspicious_strict('/'));
}
