use wini_assets::config::ConfigPath;
use wini_assets::dependencies::DependencyIndex;
use wini_assets::packages_files::{module_path_from_short_name, PackageRegistry, VecOrString};
use wini_assets::template::{linearize, order_scripts_by_dependent};

fn list(items: &[&str]) -> Vec<String> {
    items.iter().map(|s| s.to_string()).collect()
}

fn paths(public: &str) -> ConfigPath {
    ConfigPath {
        pages: "pages".to_string(),
        layout: "layout".to_string(),
        public: public.to_string(),
        components: "components".to_string(),
        modules: "./public/modules".to_string(),
    }
}

fn index(entries: &[(&str, &[&str])]) -> DependencyIndex {
    let mut index = DependencyIndex::new();
    for (module, dependencies) in entries {
        index.insert(module.to_string(), list(dependencies));
    }
    index
}

#[test]
fn dependency_comes_before_its_dependent() {
    let index = index(&[("/x.js", &["y.js"])]);
    let manifest = linearize(&list(&["/x.js"]), &index, &PackageRegistry::new(), &paths("public"));
    assert_eq!(manifest.scripts, list(&["y.js", "/x.js"]));
    assert!(manifest.stylesheets.is_empty());
    assert!(manifest.unknown_packages.is_empty());
}

#[test]
fn chain_is_loaded_deepest_first() {
    let index = index(&[("/a.js", &["b.js", "c.js"])]);
    let manifest = linearize(&list(&["/a.js"]), &index, &PackageRegistry::new(), &paths("public"));
    assert_eq!(manifest.scripts, list(&["c.js", "b.js", "/a.js"]));
}

#[test]
fn direct_script_that_is_a_dependency_is_pulled_forward() {
    let index = index(&[("/x.js", &["/y.js"]), ("/y.js", &[])]);
    let manifest =
        linearize(&list(&["/y.js", "/x.js"]), &index, &PackageRegistry::new(), &paths("public"));
    assert_eq!(manifest.scripts, list(&["/y.js", "/x.js"]));
    let manifest =
        linearize(&list(&["/x.js", "/y.js"]), &index, &PackageRegistry::new(), &paths("public"));
    assert_eq!(manifest.scripts, list(&["/y.js", "/x.js"]));
}

#[test]
fn duplicate_direct_scripts_stay_when_nothing_pulls_them() {
    let manifest = linearize(
        &list(&["/a.js", "/b.js", "/a.js"]),
        &DependencyIndex::new(),
        &PackageRegistry::new(),
        &paths("public"),
    );
    assert_eq!(manifest.scripts, list(&["/a.js", "/b.js", "/a.js"]));
}

#[test]
fn pulled_dependency_leaves_every_earlier_place() {
    let index = index(&[("/x.js", &["/d.js"])]);
    let manifest = linearize(
        &list(&["/d.js", "/x.js", "/d.js"]),
        &index,
        &PackageRegistry::new(),
        &paths("public"),
    );
    assert_eq!(manifest.scripts, list(&["/d.js", "/x.js"]));
}

#[test]
fn package_gives_its_script_and_its_stylesheet() {
    let index = index(&[("/x.js", &["foo"])]);
    let mut registry = PackageRegistry::new();
    registry.insert("foo".to_string(), VecOrString::Vec(list(&["foo.js", "foo.css"])));
    let manifest = linearize(&list(&["/x.js"]), &index, &registry, &paths("public"));
    assert_eq!(manifest.scripts, list(&["foo.js", "/x.js"]));
    assert_eq!(manifest.stylesheets, list(&["foo.css"]));
    assert!(manifest.unknown_packages.is_empty());
}

#[test]
fn package_named_by_two_scripts_is_sent_once() {
    let index = index(&[("/x.js", &["foo"]), ("/y.js", &["foo"])]);
    let mut registry = PackageRegistry::new();
    registry.insert("foo".to_string(), VecOrString::Vec(list(&["foo.js", "foo.css"])));
    let manifest = linearize(&list(&["/x.js", "/y.js"]), &index, &registry, &paths("public"));
    assert_eq!(manifest.scripts, list(&["foo.js", "/y.js", "/x.js"]));
    assert_eq!(manifest.stylesheets, list(&["foo.css"]));
}

#[test]
fn single_file_package_is_script_or_stylesheet() {
    let index = index(&[("/x.js", &["theme", "htmx"])]);
    let mut registry = PackageRegistry::new();
    registry.insert("theme".to_string(), VecOrString::String("theme.css".to_string()));
    registry.insert("htmx".to_string(), VecOrString::String("htmx.min.js".to_string()));
    let manifest = linearize(&list(&["/x.js"]), &index, &registry, &paths("public"));
    assert_eq!(manifest.scripts, list(&["htmx.min.js", "/x.js"]));
    assert_eq!(manifest.stylesheets, list(&["theme.css"]));
}

#[test]
fn stylesheet_of_two_packages_is_sent_once() {
    let index = index(&[("/x.js", &["one", "two"])]);
    let mut registry = PackageRegistry::new();
    registry.insert("one".to_string(), VecOrString::String("shared.css".to_string()));
    registry.insert("two".to_string(), VecOrString::Vec(list(&["shared.css", "two.js"])));
    let manifest = linearize(&list(&["/x.js"]), &index, &registry, &paths("public"));
    assert_eq!(manifest.stylesheets, list(&["shared.css"]));
    assert_eq!(manifest.scripts, list(&["two.js", "/x.js"]));
}

#[test]
fn unknown_package_changes_nothing() {
    let with = index(&[("/x.js", &["y.js", "nowhere"])]);
    let without = index(&[("/x.js", &["y.js"])]);
    let registry = PackageRegistry::new();
    let one = linearize(&list(&["/x.js"]), &with, &registry, &paths("public"));
    let other = linearize(&list(&["/x.js"]), &without, &registry, &paths("public"));
    assert_eq!(one.scripts, other.scripts);
    assert_eq!(one.stylesheets, other.stylesheets);
    assert_eq!(one.scripts, list(&["y.js", "/x.js"]));
    assert_eq!(one.unknown_packages, list(&["nowhere"]));
    assert!(other.unknown_packages.is_empty());
}

#[test]
fn package_that_is_a_direct_script_is_taken_out() {
    // A dependency that is a package leaves the list and is not put back.
    let index = index(&[("/x.js", &["foo"])]);
    let manifest =
        linearize(&list(&["foo", "/x.js"]), &index, &PackageRegistry::new(), &paths("public"));
    assert_eq!(manifest.scripts, list(&["/x.js"]));
    assert_eq!(manifest.unknown_packages, list(&["foo"]));
}

#[test]
fn dependency_in_the_public_folder_loses_its_start() {
    // The folder is "public": the marker is "str/public" and three
    // characters are cut.
    let index = index(&[("/x.js", &["str/public/lib.js"])]);
    let manifest = linearize(&list(&["/x.js"]), &index, &PackageRegistry::new(), &paths("public"));
    assert_eq!(manifest.scripts, list(&["/public/lib.js", "/x.js"]));
}

#[test]
fn public_dependency_without_script_ending_is_no_package() {
    let index = index(&[("/x.js", &["str/public/data"])]);
    let manifest =
        linearize(&list(&["/x.js"]), &index, &PackageRegistry::new(), &paths("./public"));
    assert_eq!(manifest.scripts, list(&["ublic/data", "/x.js"]));
    assert!(manifest.unknown_packages.is_empty());
}

#[test]
fn short_public_folder_cuts_nothing() {
    let index = index(&[("/x.js", &["str/p/lib.js"])]);
    let manifest = linearize(&list(&["/x.js"]), &index, &PackageRegistry::new(), &paths("p"));
    assert_eq!(manifest.scripts, list(&["str/p/lib.js", "/x.js"]));
}

#[test]
fn script_unknown_to_the_index_adds_nothing() {
    let manifest = linearize(
        &list(&["/x.js"]),
        &DependencyIndex::new(),
        &PackageRegistry::new(),
        &paths("public"),
    );
    assert_eq!(manifest.scripts, list(&["/x.js"]));
}

#[test]
fn scripts_are_ordered_in_place() {
    let index = index(&[("/x.js", &["y.js", "foo"])]);
    let mut registry = PackageRegistry::new();
    registry.insert("foo".to_string(), VecOrString::Vec(list(&["foo.js", "foo.css"])));
    let mut scripts = list(&["/x.js"]);
    let stylesheets = order_scripts_by_dependent(&mut scripts, &index, &registry, &paths("public"));
    assert_eq!(scripts, list(&["foo.js", "y.js", "/x.js"]));
    assert_eq!(stylesheets, list(&["foo.css"]));
}

#[test]
fn package_file_is_served_from_the_modules_folder() {
    assert_eq!(
        module_path_from_short_name("./public/modules", "htmx", "dist/htmx.min.js"),
        "/public/modules/htmx/htmx.min.js"
    );
    assert_eq!(module_path_from_short_name("modules", "a", "b.css"), "modules/a/b.css");
    assert_eq!(module_path_from_short_name("../modules", "a", "x/./b.js"), "/modules/a/b.js");
}

#[test]
fn remote_package_file_is_kept() {
    assert_eq!(
        module_path_from_short_name("./public/modules", "htmx", "https://cdn.example/htmx.js"),
        "https://cdn.example/htmx.js"
    );
}

#[test]
fn package_file_without_name_is_the_folder() {
    assert_eq!(module_path_from_short_name("modules", "a", ".."), "modules/a/");
    assert_eq!(module_path_from_short_name("modules", "a", ""), "modules/a/");
}

#[test]
fn registry_is_built_from_a_manifest() {
    let manifest = vec![
        ("htmx".to_string(), VecOrString::String("dist/htmx.min.js".to_string())),
        ("ui".to_string(), VecOrString::Vec(list(&["ui.js", "css/ui.css"]))),
    ];
    let registry = PackageRegistry::from_manifest(&manifest, "./public/modules");
    match registry.get("htmx") {
        Some(VecOrString::String(file)) => assert_eq!(file, "/public/modules/htmx/htmx.min.js"),
        _ => panic!("expected a single file"),
    }
    match registry.get("ui") {
        Some(VecOrString::Vec(files)) => assert_eq!(
            files,
            &list(&["/public/modules/ui/ui.js", "/public/modules/ui/ui.css"])
        ),
        _ => panic!("expected a list of files"),
    }
    assert!(registry.get("gone").is_none());
}

#[test]
fn later_registration_of_a_package_stands() {
    let mut registry = PackageRegistry::new();
    registry.insert("a".to_string(), VecOrString::String("old.js".to_string()));
    registry.insert("a".to_string(), VecOrString::String("new.js".to_string()));
    match registry.get("a") {
        Some(VecOrString::String(file)) => assert_eq!(file, "new.js"),
        _ => panic!("expected a single file"),
    }
}
