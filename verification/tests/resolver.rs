use wini_assets::dependencies::{
    classify, dependency_of, script_dependencies, source_file, DependencyIndex, ResolveError,
    SpecifierKind,
};
use wini_assets::imports::{scan, specifiers_from};
use wini_assets::sources::SourceTree;
use wini_assets::tsconfig::AliasTable;

fn strings(items: &[&str]) -> Vec<String> {
    items.iter().map(|s| s.to_string()).collect()
}

fn tree(files: &[(&str, &str)]) -> SourceTree {
    let mut tree = SourceTree::new();
    for (path, text) in files {
        tree.insert(path, text);
    }
    tree
}

#[test]
fn scan_finds_quoted_specifiers() {
    let found = scan("import a from \"./a.js\";\nimport 'debug';\nconst x = 1;\n").unwrap();
    assert_eq!(found, strings(&["./a.js", "debug"]));
}

#[test]
fn scan_needs_a_terminator() {
    // Neither a semicolon nor a line end follows the closing quote.
    let found = scan("import a from \"./a.js\"").unwrap();
    assert!(found.is_empty());
}

#[test]
fn scan_takes_the_end_of_line_as_terminator() {
    let found = scan("export { x } from './x.js'\nimport\t\"y\";").unwrap();
    assert_eq!(found, strings(&["./x.js", "y"]));
}

#[test]
fn scan_reads_imports_inside_comments() {
    let found = scan("// import z from \"./z.js\";\n").unwrap();
    assert_eq!(found, strings(&["./z.js"]));
}

#[test]
fn scan_of_plain_text_is_empty() {
    let found = scan("const answer = 42;\nconsole.log(answer);\n").unwrap();
    assert!(found.is_empty());
}

#[test]
fn specifiers_from_drops_empty_captures() {
    let found = specifiers_from(vec![Some("a".to_string()), None, Some("b".to_string())]);
    assert_eq!(found, strings(&["a", "b"]));
}

#[test]
fn module_without_imports_has_no_dependencies() {
    let files = tree(&[("src/a.js", "export const a = 1;\n")]);
    let list = script_dependencies("/src/a.js", &AliasTable::new(), &files).ok().unwrap();
    assert!(list.is_empty());
}

#[test]
fn chain_lists_both_modules() {
    let files = tree(&[
        ("src/a.js", "import { b } from \"./b.js\";\n"),
        ("src/b.js", "import { c } from \"./c.js\";\n"),
        ("src/c.js", "export const c = 1;\n"),
    ]);
    let list = script_dependencies("/src/a.js", &AliasTable::new(), &files).ok().unwrap();
    assert_eq!(list, strings(&["src/b.js", "src/c.js"]));
}

#[test]
fn shared_dependency_moves_behind_its_last_importer() {
    // a imports b and c; c imports b: b is pulled behind c.
    let files = tree(&[
        ("src/a.js", "import \"./b.js\";\nimport \"./c.js\";\n"),
        ("src/b.js", "export const b = 1;\n"),
        ("src/c.js", "import \"./b.js\";\n"),
    ]);
    let list = script_dependencies("/src/a.js", &AliasTable::new(), &files).ok().unwrap();
    assert_eq!(list, strings(&["src/c.js", "src/b.js"]));
}

#[test]
fn repeated_import_is_listed_once() {
    let files = tree(&[
        ("src/a.js", "import \"./c.js\";\nimport \"./b.js\";\nimport \"./c.js\";\n"),
        ("src/b.js", "export const b = 1;\n"),
        ("src/c.js", "import \"./b.js\";\n"),
    ]);
    let list = script_dependencies("/src/a.js", &AliasTable::new(), &files).ok().unwrap();
    assert_eq!(list, strings(&["src/c.js", "src/b.js"]));
}

#[test]
fn package_is_listed_and_not_scanned() {
    let files = tree(&[("src/a.js", "import debug from \"debug\";\nimport \"./b.js\";\n"),
        ("src/b.js", "import htmx from \"htmx\";\n")]);
    let list = script_dependencies("src/a.js", &AliasTable::new(), &files).ok().unwrap();
    assert_eq!(list, strings(&["debug", "src/b.js", "htmx"]));
}

#[test]
fn typed_source_is_read_first() {
    let files = tree(&[
        ("src/a.ts", "import \"./typed.js\";\n"),
        ("src/a.js", "import \"./plain.js\";\n"),
        ("src/typed.js", ""),
        ("src/plain.js", ""),
    ]);
    assert_eq!(source_file("/src/a.js", &files), "src/a.ts");
    let list = script_dependencies("/src/a.js", &AliasTable::new(), &files).ok().unwrap();
    assert_eq!(list, strings(&["src/typed.js"]));
}

#[test]
fn plain_source_is_the_fallback() {
    let files = tree(&[("src/a.js", "import \"./plain.js\";\n"), ("src/plain.js", "")]);
    assert_eq!(source_file("/src/a.js", &files), "src/a.js");
    let list = script_dependencies("/src/a.js", &AliasTable::new(), &files).ok().unwrap();
    assert_eq!(list, strings(&["src/plain.js"]));
}

#[test]
fn relative_import_without_extension_names_the_typed_file() {
    let files = tree(&[("src/pages/a.js", "import \"../utils/b\";\n"), ("src/utils/b.ts", "")]);
    let aliases = AliasTable::new();
    assert_eq!(
        dependency_of("src/pages/a.js", "../utils/b", &aliases, &files),
        Some("src/utils/b.ts".to_string())
    );
    let list = script_dependencies("/src/pages/a.js", &aliases, &files).ok().unwrap();
    assert_eq!(list, strings(&["src/utils/b.ts"]));
}

#[test]
fn missing_module_is_unreadable() {
    let files = tree(&[("src/a.js", "import \"./gone.js\";\n")]);
    match script_dependencies("/src/a.js", &AliasTable::new(), &files) {
        Err(ResolveError::Unreadable(path)) => assert_eq!(path, "src/gone.js"),
        _ => panic!("expected an unreadable module"),
    }
    match script_dependencies("/src/nothing.js", &AliasTable::new(), &files) {
        Err(ResolveError::Unreadable(path)) => assert_eq!(path, "src/nothing.js"),
        _ => panic!("expected an unreadable module"),
    }
}

#[test]
fn circular_imports_are_a_cycle() {
    let files = tree(&[
        ("src/a.js", "import \"./b.js\";\n"),
        ("src/b.js", "import \"./a.js\";\n"),
    ]);
    match script_dependencies("/src/a.js", &AliasTable::new(), &files) {
        Err(ResolveError::Cycle(path)) => assert_eq!(path, "src/a.js"),
        _ => panic!("expected a cycle"),
    }
}

#[test]
fn self_import_is_a_cycle() {
    let files = tree(&[("src/a.js", "import \"./a.js\";\n")]);
    assert!(matches!(
        script_dependencies("/src/a.js", &AliasTable::new(), &files),
        Err(ResolveError::Cycle(_))
    ));
}

#[test]
fn diamond_is_no_cycle() {
    let files = tree(&[
        ("src/a.js", "import \"./b.js\";\nimport \"./c.js\";\n"),
        ("src/b.js", "import \"./d.js\";\n"),
        ("src/c.js", "import \"./d.js\";\n"),
        ("src/d.js", ""),
    ]);
    let list = script_dependencies("/src/a.js", &AliasTable::new(), &files).ok().unwrap();
    assert_eq!(list, strings(&["src/b.js", "src/c.js", "src/d.js"]));
}

#[test]
fn specifiers_are_classified() {
    let mut aliases = AliasTable::new();
    aliases.insert("~/".to_string(), strings(&["./src"]));
    assert_eq!(classify("./a.js", &aliases), SpecifierKind::Relative);
    assert_eq!(classify("../a.js", &aliases), SpecifierKind::Relative);
    assert_eq!(classify("~/a.js", &aliases), SpecifierKind::Aliased);
    assert_eq!(classify("debug", &aliases), SpecifierKind::Package);
    assert_eq!(classify("@scope/pkg", &aliases), SpecifierKind::Package);
    assert_eq!(classify("", &aliases), SpecifierKind::Package);
}

#[test]
fn aliased_import_is_resolved_and_followed() {
    let mut aliases = AliasTable::new();
    aliases.insert("~/".to_string(), strings(&["src"]));
    let files = tree(&[
        ("src/pages/a.js", "import \"~/utils/b.js\";\n"),
        ("src/utils/b.js", "import \"debug\";\n"),
    ]);
    let list = script_dependencies("/src/pages/a.js", &aliases, &files).ok().unwrap();
    assert_eq!(list, strings(&["src/utils/b.js", "debug"]));
}

#[test]
fn unresolved_alias_is_dropped() {
    let mut aliases = AliasTable::new();
    aliases.insert("~".to_string(), strings(&["src", "lib"]));
    let files = tree(&[("src/a.js", "import \"~/gone\";\nimport \"debug\";\n")]);
    assert_eq!(dependency_of("src/a.js", "~/gone", &aliases, &files), None);
    let list = script_dependencies("/src/a.js", &aliases, &files).ok().unwrap();
    assert_eq!(list, strings(&["debug"]));
}

#[test]
fn resolving_twice_gives_the_same_list() {
    let files = tree(&[
        ("src/a.js", "import \"./b.js\";\nimport \"debug\";\n"),
        ("src/b.js", "import \"htmx\";\n"),
    ]);
    let aliases = AliasTable::new();
    let one = script_dependencies("/src/a.js", &aliases, &files).ok().unwrap();
    let other = script_dependencies("/src/a.js", &aliases, &files).ok().unwrap();
    assert_eq!(one, other);
    assert_eq!(one, strings(&["src/b.js", "htmx", "debug"]));
}

#[test]
fn index_remembers_every_module() {
    let files = tree(&[
        ("src/a.js", "import \"./b.js\";\n"),
        ("src/b.js", "import \"debug\";\n"),
    ]);
    let aliases = AliasTable::new();
    let modules = strings(&["/src/a.js", "/src/b.js"]);
    let index = DependencyIndex::build(&modules, &aliases, &files).ok().unwrap();
    assert_eq!(index.get("/src/a.js"), Some(&strings(&["src/b.js", "debug"])));
    assert_eq!(index.get("/src/b.js"), Some(&strings(&["debug"])));
    assert_eq!(index.get("/src/a.js"), index.get("/src/a.js"));
    assert_eq!(index.get("/src/c.js"), None);
}

#[test]
fn index_fails_with_its_first_broken_module() {
    let files = tree(&[("src/a.js", "import \"./gone.js\";\n"), ("src/b.js", "")]);
    let modules = strings(&["/src/b.js", "/src/a.js"]);
    assert!(matches!(
        DependencyIndex::build(&modules, &AliasTable::new(), &files),
        Err(ResolveError::Unreadable(_))
    ));
}

#[test]
fn later_index_entry_stands() {
    let mut index = DependencyIndex::new();
    index.insert("/a.js".to_string(), strings(&["x.js"]));
    index.insert("/a.js".to_string(), strings(&["y.js"]));
    assert_eq!(index.get("/a.js"), Some(&strings(&["y.js"])));
}

#[test]
fn index_resolves_once_and_remembers() {
    let files = tree(&[
        ("src/a.js", "import \"./b.js\";\n"),
        ("src/b.js", "import \"debug\";\n"),
    ]);
    let aliases = AliasTable::new();
    let mut index = DependencyIndex::new();
    assert_eq!(index.get("/src/a.js"), None);
    let first = index.get_or_resolve("/src/a.js", &aliases, &files).ok().unwrap();
    assert_eq!(first, strings(&["src/b.js", "debug"]));
    assert_eq!(index.get("/src/a.js"), Some(&first));
    // The files may be gone: the index answers from what it holds.
    let second = index.get_or_resolve("/src/a.js", &aliases, &SourceTree::new()).ok().unwrap();
    assert_eq!(second, first);
}

#[test]
fn failed_resolution_leaves_the_index_as_it_was() {
    let mut index = DependencyIndex::new();
    assert!(matches!(
        index.get_or_resolve("/src/a.js", &AliasTable::new(), &SourceTree::new()),
        Err(ResolveError::Unreadable(_))
    ));
    assert_eq!(index.get("/src/a.js"), None);
}

#[test]
fn pulling_again_leaves_each_dependency_once() {
    let files = tree(&[
        ("src/a.js", "import { b } from \"./b.js\";\n"),
        ("src/b.js", "import { c } from \"./c.js\";\n"),
        ("src/c.js", "export const c = 1;\n"),
    ]);
    let mut list = script_dependencies("/src/a.js", &AliasTable::new(), &files).ok().unwrap();
    wini_assets::order::move_to_end(&mut list, "src/b.js".to_string());
    assert_eq!(list, strings(&["src/c.js", "src/b.js"]));
    wini_assets::order::move_to_end(&mut list, "src/c.js".to_string());
    assert_eq!(list, strings(&["src/b.js", "src/c.js"]));
    wini_assets::order::merge_into(&mut list, &strings(&["src/c.js", "src/b.js", "src/d.js"]));
    assert_eq!(list, strings(&["src/c.js", "src/b.js", "src/d.js"]));
    assert!(wini_assets::order::holds(&list, &"src/d.js".to_string()));
    wini_assets::order::remove_all(&mut list, &"src/b.js".to_string());
    assert_eq!(list, strings(&["src/c.js", "src/d.js"]));
    assert_eq!(wini_assets::order::reversed(&list), strings(&["src/d.js", "src/c.js"]));
}
