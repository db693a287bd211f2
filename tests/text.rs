use sidebundle::path::{destination_for, join_path, parent_of};
use sidebundle::text::{contains, join, replace, split, starts_with, trim};

#[test]
fn trim_removes_unicode_white_space_at_both_ends() {
    assert_eq!(trim("  \t a b \r\n"), "a b");
    assert_eq!(trim("\u{3000}x\u{a0}"), "x");
    assert_eq!(trim("   "), "");
}

#[test]
fn split_keeps_empty_pieces() {
    assert_eq!(split("a::b", ':'), vec!["a", "", "b"]);
    assert_eq!(split("", ':'), vec![""]);
    assert_eq!(split("x:", ':'), vec!["x", ""]);
}

#[test]
fn replace_scans_left_to_right() {
    assert_eq!(replace("$ORIGIN/$ORIGIN", "$ORIGIN", "/o"), "/o//o");
    assert_eq!(replace("aaa", "aa", "b"), "ba");
    assert_eq!(replace("none", "$ORIGIN", "/o"), "none");
}

#[test]
fn join_contains_and_prefix() {
    assert_eq!(join(&vec!["a".to_string(), "b".to_string()], ":"), "a:b");
    assert_eq!(join(&vec![], ":"), "");
    assert!(contains("payload/lib/glibc-hwcaps/x", "glibc-hwcaps"));
    assert!(!contains("payload/lib", "glibc-hwcaps"));
    assert!(starts_with("linux-vdso.so.1", "linux-vdso"));
    assert!(!starts_with("libc.so.6", "linux-vdso"));
}

#[test]
fn paths_join_and_split_like_pathbuf() {
    assert_eq!(join_path("/opt/app/bin", "../lib"), "/opt/app/bin/../lib");
    assert_eq!(join_path("/opt/", "x"), "/opt/x");
    assert_eq!(join_path("/opt", "/abs"), "/abs");
    assert_eq!(parent_of("/usr/lib/libc.so.6"), "/usr/lib");
    assert_eq!(parent_of("/ls"), "/");
    assert_eq!(parent_of("payload/usr/bin/ls"), "payload/usr/bin");
    assert_eq!(destination_for("/usr/lib/libc.so.6"), "payload/usr/lib/libc.so.6");
    assert_eq!(destination_for("rel/x"), "payload/rel/x");
}
