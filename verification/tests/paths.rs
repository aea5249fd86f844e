use wini_assets::path::{file_name_of, normalize_relative_path, parent_of, push_path};
use wini_assets::sources::SourceTree;
use wini_assets::text::{from_chars, replace_chars, to_chars, trim_start_chars};

fn chars(s: &str) -> Vec<char> {
    s.chars().collect()
}

fn text(v: Vec<char>) -> String {
    v.into_iter().collect()
}

#[test]
fn current_directory_segments_vanish() {
    assert_eq!(normalize_relative_path("./folder/../file.txt"), "file.txt");
    assert_eq!(normalize_relative_path("a/./b/./c"), "a/b/c");
    assert_eq!(normalize_relative_path("."), "");
    assert_eq!(normalize_relative_path(""), "");
}

#[test]
fn repeated_and_trailing_slashes_vanish() {
    assert_eq!(normalize_relative_path("a//b///c/"), "a/b/c");
}

#[test]
fn leading_parents_are_kept() {
    assert_eq!(normalize_relative_path("../../a"), "../../a");
    assert_eq!(normalize_relative_path("a/../../b"), "../b");
    assert_eq!(normalize_relative_path("../a/../.."), "../..");
}

#[test]
fn rooted_paths_keep_their_root() {
    assert_eq!(normalize_relative_path("/a/./b/../c"), "/a/c");
    assert_eq!(normalize_relative_path("/"), "/");
    assert_eq!(normalize_relative_path("//"), "/");
}

#[test]
fn parent_of_the_root_cancels_it() {
    assert_eq!(normalize_relative_path("/.."), "");
    assert_eq!(normalize_relative_path("/../a"), "a");
}

#[test]
fn names_with_dots_are_ordinary() {
    assert_eq!(normalize_relative_path("a/.../b"), "a/.../b");
    assert_eq!(normalize_relative_path("a/.hidden/..b"), "a/.hidden/..b");
}

#[test]
fn normalizing_twice_changes_nothing_more() {
    for path in ["src/../src", "./a//b/../c", "../x/./y", "/a/../../b"] {
        let once = normalize_relative_path(path);
        assert_eq!(normalize_relative_path(once.as_str()), once);
    }
}

#[test]
fn parent_is_the_path_without_its_last_component() {
    assert_eq!(text(parent_of(&chars("src/pages/a.ts"))), "src/pages");
    assert_eq!(text(parent_of(&chars("a.ts"))), "");
    assert_eq!(text(parent_of(&chars("/a.ts"))), "/");
    assert_eq!(text(parent_of(&chars("a/b/"))), "a");
    assert_eq!(text(parent_of(&chars("./a/./b"))), "a");
    assert_eq!(text(parent_of(&chars(""))), "");
}

#[test]
fn file_name_is_the_last_named_component() {
    assert_eq!(text(file_name_of(&chars("dist/htmx.min.js"))), "htmx.min.js");
    assert_eq!(text(file_name_of(&chars("a/b/"))), "b");
    assert_eq!(text(file_name_of(&chars("a/b/."))), "b");
    assert_eq!(text(file_name_of(&chars("a/.."))), "");
    assert_eq!(text(file_name_of(&chars("/"))), "");
}

#[test]
fn pushing_joins_with_one_slash() {
    assert_eq!(text(push_path(&chars("a"), &chars("b"))), "a/b");
    assert_eq!(text(push_path(&chars("a/"), &chars("b"))), "a/b");
    assert_eq!(text(push_path(&chars(""), &chars("b"))), "b");
    assert_eq!(text(push_path(&chars("a"), &chars(""))), "a/");
    assert_eq!(text(push_path(&chars("a"), &chars("/b"))), "/b");
}

#[test]
fn characters_survive_the_round_trip() {
    let word = "héllo/wörld.js";
    assert_eq!(from_chars(&to_chars(word)), word);
    assert_eq!(to_chars("ab").len(), 2);
}

#[test]
fn every_occurrence_is_replaced() {
    assert_eq!(text(replace_chars(&chars("a.js.js"), &chars(".js"), &chars(".ts"))), "a.ts.ts");
    assert_eq!(text(replace_chars(&chars("aaa"), &chars("aa"), &chars("b"))), "ba");
    assert_eq!(text(replace_chars(&chars("abc"), &chars(""), &chars("x"))), "abc");
    assert_eq!(text(replace_chars(&chars("ab"), &chars("abc"), &chars("x"))), "ab");
}

#[test]
fn leading_run_is_trimmed() {
    assert_eq!(text(trim_start_chars(&chars("../a.b"), '.')), "/a.b");
    assert_eq!(text(trim_start_chars(&chars("..."), '.')), "");
    assert_eq!(text(trim_start_chars(&chars("a."), '.')), "a.");
}

#[test]
fn snapshot_finds_files_by_normalized_path() {
    let mut files = SourceTree::new();
    files.insert("./src/a.js", "one");
    assert!(files.is_file("src/a.js"));
    assert!(files.is_file("src/./x/../a.js"));
    assert!(!files.is_file("src/b.js"));
    assert_eq!(files.read("src/a.js"), Some("one".to_string()));
    files.insert("src/a.js", "two");
    assert_eq!(files.read("./src/a.js"), Some("two".to_string()));
    assert_eq!(files.read("src/b.js"), None);
    assert_eq!(files.len(), 2);
}
