use drey::paths::{components_of, is_inside, join_path, parent, same_path};
use drey::strings::{
    contains, decimal, less, parse_unsigned, same_ignoring_case, sort_unique, split, split_once,
    trim,
};
use drey::table::{find, insert, remove};

#[test]
fn paths_are_compared_by_component() {
    assert!(same_path("/a//b/./c/", "/a/b/c"));
    assert!(!same_path("/a/b", "a/b"));
    assert!(!same_path("./a", "a"));
    assert!(!same_path("/a/../b", "/b"));
    assert_eq!(components_of("/a/b"), ["/", "a", "b"]);
    assert!(components_of("").is_empty());
}

#[test]
fn parents_are_those_of_the_standard_library() {
    for path in [
        "", "/", "//", "/.", ".", "./.", "a", "/a", "//a", "./a", "a/", "a/.", "/a/b", "a/b", "a//b",
        "/a//b/./c/", "a/..", "../a", "..", "/..", "/a/../b", "/./a", "a/./b", "./", "é/ü", ".a/b.",
    ] {
        let expected = std::path::Path::new(path)
            .parent()
            .map(|p| p.to_str().unwrap().to_string());
        assert_eq!(parent(path), expected, "{path}");
    }
}

#[test]
fn paths_compare_as_in_the_standard_library() {
    let paths = [
        "", "/", "//", "/.", ".", "./.", "a", "/a", "//a", "./a", "a/", "a/.", "/a/b", "a/b", "a//b",
        "/a/./b/", "a/..", "/a/../b",
    ];
    for a in paths {
        for b in paths {
            let same = std::path::Path::new(a) == std::path::Path::new(b);
            assert_eq!(same_path(a, b), same, "{a} {b}");
            let joined = std::path::Path::new(a).join(b);
            assert_eq!(join_path(a, b), joined.to_str().unwrap(), "{a} {b}");
        }
    }
}

#[test]
fn an_absolute_part_stands_alone() {
    assert_eq!(join_path("/a", "b"), "/a/b");
    assert_eq!(join_path("/a/", "b"), "/a/b");
    assert_eq!(join_path("/a", "/b"), "/b");
    assert_eq!(join_path("", "b"), "b");
}

#[test]
fn numbers_are_written_and_read_in_decimal() {
    assert_eq!(decimal(0), "0");
    assert_eq!(decimal(u64::MAX), "18446744073709551615");
    assert_eq!(parse_unsigned("+007", 7), Some(7));
    assert_eq!(parse_unsigned("8", 7), None);
    assert_eq!(parse_unsigned("", 7), None);
    assert_eq!(parse_unsigned("+", 7), None);
    assert_eq!(parse_unsigned("-1", 7), None);
}

#[test]
fn text_is_cut_trimmed_and_found() {
    assert_eq!(split("a::b", ':'), ["a", "", "b"]);
    assert_eq!(split_once("a:b:c", ':'), Some(("a".to_string(), "b:c".to_string())));
    assert_eq!(split_once("abc", ':'), None);
    assert_eq!(trim(" \t\u{a0}x y\r\n"), "x y");
    assert!(contains("abcabd", "abd") && !contains("ab", "abc") && contains("", ""));
    assert!(same_ignoring_case("Content-LENGTH", "content-length"));
    assert!(!same_ignoring_case("É", "é"));
}

#[test]
fn text_is_put_in_order() {
    assert!(less("a", "ab") && less("ab", "b") && !less("b", "b") && less("", "a"));
    let list = ["b", "a", "é", "b", "a/", "a"].map(|s| s.to_string()).to_vec();
    assert_eq!(sort_unique(&list), ["a", "a/", "b", "é"]);
}

#[test]
fn a_table_holds_each_key_once() {
    let mut t: Vec<(String, String)> = Vec::new();
    insert(&mut t, "k", "1".to_string());
    insert(&mut t, "l", "2".to_string());
    insert(&mut t, "k", "3".to_string());
    assert_eq!(t, [("k".to_string(), "3".to_string()), ("l".to_string(), "2".to_string())]);
    assert_eq!(find(&t, "l"), Some(1));
    remove(&mut t, "k");
    remove(&mut t, "none");
    assert_eq!(t, [("l".to_string(), "2".to_string())]);
}

#[test]
fn insides_are_told_by_whole_components() {
    assert!(is_inside("/a/b", "/a/b/"));
    assert!(is_inside("/a//b/c", "/a/b"));
    assert!(!is_inside("/a/bc", "/a/b"));
    assert!(!is_inside("/a", "/a/b"));
    assert!(!is_inside("a/b", "/a"));
    assert!(is_inside("/x", "/"));
    assert!(is_inside("", ""));
    assert!(!is_inside("/x", ""));
}
