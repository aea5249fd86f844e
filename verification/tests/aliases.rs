use wini_assets::sources::SourceTree;
use wini_assets::tsconfig::{AliasTable, CompilerOptions, TsConfig, TsConfigPathsPrefix};

fn list(items: &[&str]) -> Vec<String> {
    items.iter().map(|s| s.to_string()).collect()
}

#[test]
fn prefixes_come_longest_first() {
    let mut aliases = AliasTable::new();
    aliases.insert("~/".to_string(), list(&["src"]));
    aliases.insert("~/utils/".to_string(), list(&["src/utils"]));
    aliases.insert("@".to_string(), list(&["lib"]));
    assert_eq!(aliases.prefixes(), list(&["~/utils/", "~/", "@"]));
}

#[test]
fn equal_lengths_keep_registration_order() {
    let mut aliases = AliasTable::new();
    aliases.insert("bb".to_string(), list(&["1"]));
    aliases.insert("a".to_string(), list(&["2"]));
    aliases.insert("cc".to_string(), list(&["3"]));
    aliases.insert("d".to_string(), list(&["4"]));
    assert_eq!(aliases.prefixes(), list(&["bb", "cc", "a", "d"]));
}

#[test]
fn longest_matching_prefix_wins() {
    let mut aliases = AliasTable::new();
    aliases.insert("~/".to_string(), list(&["base"]));
    aliases.insert("~/utils/".to_string(), list(&["tools"]));
    let files = SourceTree::new();
    assert_eq!(aliases.matching_prefix("~/utils/a.js"), Some("~/utils/".to_string()));
    assert_eq!(aliases.resolve("~/utils/a.js", &files), Some("tools/a.js".to_string()));
    assert_eq!(aliases.resolve("~/pages/a.js", &files), Some("base/pages/a.js".to_string()));
}

#[test]
fn single_root_is_not_checked_for_existence() {
    let mut aliases = AliasTable::new();
    aliases.insert("~/".to_string(), list(&["./src"]));
    let files = SourceTree::new();
    assert_eq!(aliases.resolve("~/gone.js", &files), Some("./src/gone.js".to_string()));
}

#[test]
fn rooted_remainder_replaces_the_single_root() {
    let mut aliases = AliasTable::new();
    aliases.insert("~".to_string(), list(&["./src"]));
    let files = SourceTree::new();
    assert_eq!(aliases.resolve("~/a.js", &files), Some("/a.js".to_string()));
}

#[test]
fn first_root_with_the_file_is_taken() {
    let mut aliases = AliasTable::new();
    aliases.insert("~".to_string(), list(&["r1", "r2"]));
    let mut files = SourceTree::new();
    files.insert("r2/target.js", "");
    assert_eq!(aliases.resolve("~/target", &files), Some("r2/./target.js".to_string()));
    files.insert("r1/target.js", "");
    assert_eq!(aliases.resolve("~/target", &files), Some("r1/./target.js".to_string()));
}

#[test]
fn no_root_with_the_file_gives_nothing() {
    let mut aliases = AliasTable::new();
    aliases.insert("~".to_string(), list(&["r1", "r2"]));
    let files = SourceTree::new();
    assert_eq!(aliases.resolve("~/target", &files), None);
}

#[test]
fn alias_without_roots_gives_nothing() {
    let mut aliases = AliasTable::new();
    aliases.insert("~".to_string(), Vec::new());
    assert_eq!(aliases.resolve("~/target", &SourceTree::new()), None);
}

#[test]
fn unmatched_specifier_gives_nothing() {
    let mut aliases = AliasTable::new();
    aliases.insert("~/".to_string(), list(&["src"]));
    assert_eq!(aliases.matching_prefix("debug"), None);
    assert_eq!(aliases.resolve("debug", &SourceTree::new()), None);
}

#[test]
fn registering_again_replaces_the_roots() {
    let mut aliases = AliasTable::new();
    aliases.insert("~/".to_string(), list(&["old"]));
    aliases.insert("@/".to_string(), list(&["lib"]));
    aliases.insert("~/".to_string(), list(&["new"]));
    assert_eq!(aliases.prefixes(), list(&["~/", "@/"]));
    assert_eq!(aliases.get("~/"), Some(&list(&["new"])));
    assert_eq!(aliases.get("#"), None);
}

#[test]
fn configured_paths_lose_their_wildcards() {
    let config = TsConfig {
        compiler_options: CompilerOptions {
            paths: Some(vec![
                ("~/*".to_string(), list(&["./src/*", "./lib"])),
                ("@utils/*".to_string(), list(&["./src/utils/*"])),
            ]),
        },
    };
    let aliases = config.aliases();
    assert_eq!(aliases.prefixes(), list(&["@utils", "~"]));
    assert_eq!(aliases.get("~"), Some(&list(&["./src", "./lib"])));
    assert_eq!(aliases.get("@utils"), Some(&list(&["./src/utils"])));
}

#[test]
fn configuration_without_paths_has_no_aliases() {
    let config = TsConfig { compiler_options: CompilerOptions { paths: None } };
    assert!(config.aliases().prefixes().is_empty());
}
