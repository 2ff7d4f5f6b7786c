use fluent_uri::resolver::{merge, remove_dot_segments};
use fluent_uri::uri::UriRef;

fn resolve(base: &str, reference: &str) -> String {
    let base = UriRef::parse(base).unwrap();
    let reference = UriRef::parse(reference).unwrap();
    reference.resolve(&base).unwrap()
}

const BASE: &str = "http://a/b/c/d;p?q";

#[test]
fn resolve_sibling() {
    assert_eq!(resolve(BASE, "g"), "http://a/b/c/g");
}

#[test]
fn resolve_current_directory_prefix() {
    assert_eq!(resolve(BASE, "./g"), "http://a/b/c/g");
}

#[test]
fn resolve_directory() {
    assert_eq!(resolve(BASE, "g/"), "http://a/b/c/g/");
}

#[test]
fn resolve_absolute_path() {
    assert_eq!(resolve(BASE, "/g"), "http://a/g");
}

#[test]
fn resolve_network_path() {
    assert_eq!(resolve(BASE, "//g"), "http://g");
}

#[test]
fn resolve_query_only() {
    assert_eq!(resolve(BASE, "?y"), "http://a/b/c/d;p?y");
}

#[test]
fn resolve_fragment_only() {
    assert_eq!(resolve(BASE, "#s"), "http://a/b/c/d;p?q#s");
}

#[test]
fn resolve_parent() {
    assert_eq!(resolve(BASE, ".."), "http://a/b/");
}

#[test]
fn resolve_grandparent() {
    assert_eq!(resolve(BASE, "../.."), "http://a/");
}

#[test]
fn resolve_above_root_is_dropped() {
    assert_eq!(resolve(BASE, "../../../g"), "http://a/g");
    assert_eq!(resolve(BASE, "../../../../g"), "http://a/g");
    assert_eq!(resolve(BASE, "/../g"), "http://a/g");
}

#[test]
fn resolve_empty_reference_keeps_base_without_fragment() {
    assert_eq!(resolve(BASE, ""), "http://a/b/c/d;p?q");
    assert_eq!(resolve("http://a/b?q#frag", ""), "http://a/b?q");
}

#[test]
fn resolve_more_normal_cases() {
    assert_eq!(resolve(BASE, "g:h"), "g:h");
    assert_eq!(resolve(BASE, "g?y"), "http://a/b/c/g?y");
    assert_eq!(resolve(BASE, "g#s"), "http://a/b/c/g#s");
    assert_eq!(resolve(BASE, "g?y#s"), "http://a/b/c/g?y#s");
    assert_eq!(resolve(BASE, ";x"), "http://a/b/c/;x");
    assert_eq!(resolve(BASE, "g;x?y#s"), "http://a/b/c/g;x?y#s");
    assert_eq!(resolve(BASE, "."), "http://a/b/c/");
    assert_eq!(resolve(BASE, "./"), "http://a/b/c/");
    assert_eq!(resolve(BASE, "../"), "http://a/b/");
    assert_eq!(resolve(BASE, "../g"), "http://a/b/g");
    assert_eq!(resolve(BASE, "../../"), "http://a/");
    assert_eq!(resolve(BASE, "../../g"), "http://a/g");
}

#[test]
fn resolve_abnormal_cases() {
    assert_eq!(resolve(BASE, "/./g"), "http://a/g");
    assert_eq!(resolve(BASE, "g."), "http://a/b/c/g.");
    assert_eq!(resolve(BASE, ".g"), "http://a/b/c/.g");
    assert_eq!(resolve(BASE, "g.."), "http://a/b/c/g..");
    assert_eq!(resolve(BASE, "..g"), "http://a/b/c/..g");
    assert_eq!(resolve(BASE, "./../g"), "http://a/b/g");
    assert_eq!(resolve(BASE, "./g/."), "http://a/b/c/g/");
    assert_eq!(resolve(BASE, "g/./h"), "http://a/b/c/g/h");
    assert_eq!(resolve(BASE, "g/../h"), "http://a/b/c/h");
    assert_eq!(resolve(BASE, "g;x=1/./y"), "http://a/b/c/g;x=1/y");
    assert_eq!(resolve(BASE, "g;x=1/../y"), "http://a/b/c/y");
    assert_eq!(resolve(BASE, "g?y/./x"), "http://a/b/c/g?y/./x");
    assert_eq!(resolve(BASE, "g#s/../x"), "http://a/b/c/g#s/../x");
}

#[test]
fn resolve_reference_with_scheme_has_dots_removed() {
    assert_eq!(resolve(BASE, "x://h/a/../b"), "x://h/b");
    assert_eq!(resolve(BASE, "x:a/./b"), "x:a/b");
    assert_eq!(resolve(BASE, "x:.."), "x:");
}

#[test]
fn resolve_reference_with_authority_takes_scheme_only() {
    assert_eq!(resolve(BASE, "//h/x/./y?z#w"), "http://h/x/y?z#w");
}

#[test]
fn resolve_needs_a_base_with_scheme() {
    let base = UriRef::parse("//a/b").unwrap();
    let reference = UriRef::parse("g").unwrap();
    assert_eq!(reference.resolve(&base), None);
    let base = UriRef::parse("/b/c").unwrap();
    assert_eq!(reference.resolve(&base), None);
}

#[test]
fn resolve_against_base_without_authority_puts_path_after_slash() {
    assert_eq!(resolve("x:b/c", "g"), "x:/g");
    assert_eq!(resolve("x:", "g/../h"), "x:/h");
}

#[test]
fn resolve_against_base_with_authority_and_path_without_slash() {
    assert_eq!(resolve("http://a", "/g"), "http://a/g");
    assert_eq!(resolve("http://a", "?y"), "http://a?y");
}

#[test]
fn merge_keeps_base_up_to_last_slash() {
    assert_eq!(merge(true, b"/b/c/d;p", b"g"), b"/b/c/g".to_vec());
    assert_eq!(merge(true, b"/b/c/", b"g"), b"/b/c/g".to_vec());
    assert_eq!(merge(true, b"/", b"g"), b"/g".to_vec());
}

#[test]
fn merge_with_base_path_without_slash_is_reference_path() {
    assert_eq!(merge(true, b"", b"g"), b"g".to_vec());
    assert_eq!(merge(true, b"abc", b"g/h"), b"g/h".to_vec());
}

#[test]
fn merge_without_authority_puts_slash_first() {
    assert_eq!(merge(false, b"b/c", b"g"), b"/g".to_vec());
    assert_eq!(merge(false, b"", b"g"), b"/g".to_vec());
}

fn dots(path: &str) -> String {
    String::from_utf8(remove_dot_segments(path.as_bytes())).unwrap()
}

#[test]
fn remove_dot_segments_examples() {
    assert_eq!(dots("/a/b/c/./../../g"), "/a/g");
    assert_eq!(dots("mid/content=5/../6"), "mid/6");
    assert_eq!(dots(""), "");
    assert_eq!(dots("/"), "/");
    assert_eq!(dots("/a"), "/a");
    assert_eq!(dots("a/b"), "a/b");
}

#[test]
fn remove_dot_segments_leading_dots() {
    assert_eq!(dots("../a"), "a");
    assert_eq!(dots("./a"), "a");
    assert_eq!(dots("../../a"), "a");
    assert_eq!(dots("."), "");
    assert_eq!(dots(".."), "");
}

#[test]
fn remove_dot_segments_trailing_dots() {
    assert_eq!(dots("/a/."), "/a/");
    assert_eq!(dots("/a/.."), "/");
    assert_eq!(dots("/a/b/.."), "/a/");
    assert_eq!(dots("/."), "/");
    assert_eq!(dots("/.."), "/");
}

#[test]
fn remove_dot_segments_at_root_is_no_error() {
    assert_eq!(dots("/../a"), "/a");
    assert_eq!(dots("/../../a"), "/a");
    assert_eq!(dots("/a/../../b"), "/b");
    assert_eq!(dots("a/../../b"), "/b");
}

#[test]
fn remove_dot_segments_keeps_names_with_dots() {
    assert_eq!(dots("/.a/..b/c./d../..."), "/.a/..b/c./d../...");
    assert_eq!(dots("/a//b"), "/a//b");
    assert_eq!(dots("/a//../b"), "/a/b");
}

#[test]
fn remove_dot_segments_output_has_no_dot_segment() {
    let inputs = [
        "/a/./b/../c", "../..", "./.", "/./../.", "a/./..", "/a/b/c/../../..", "x/../y/./z/..",
        "//..//.//", "/.//..", "..a/.b/../.",
    ];
    for input in inputs {
        let out = dots(input);
        for segment in out.split('/') {
            assert_ne!(segment, ".", "{input} -> {out}");
            assert_ne!(segment, "..", "{input} -> {out}");
        }
    }
}

#[test]
fn remove_dot_segments_twice_is_once() {
    for input in [
        "/a/./b/../c", "../..", "./.", "/./../.", "a/./..", "/a/b/c/../../..", "x/../y/./z/..",
        "//..//.//", "/.//..", "..a/.b/../.", "a//b", "", "/", "a",
    ] {
        let once = remove_dot_segments(input.as_bytes());
        assert_eq!(remove_dot_segments(&once), once, "{input}");
    }
}

#[test]
fn remove_dot_segments_keeps_clean_paths() {
    for input in ["", "/", "a", "/a", "a/", "/a/b/c", "a//b", "//", "/.a/b..", ".../x"] {
        assert_eq!(dots(input), input);
    }
}
