use wini_assets::components_files::ComponentsFiles;
use wini_assets::config::ConfigPath;
use wini_assets::cron::HumanDuration;
use wini_assets::dependencies::DependencyIndex;
use wini_assets::err::{add_trace, Trace};
use wini_assets::file::{files_per_extensions, public_endpoint, with_extension};
use wini_assets::layer::Tags;
use wini_assets::layout::FromTrait;
use wini_assets::packages_files::{PackageRegistry, VecOrString};
use wini_assets::pages::PageOrDirectory;
use wini_assets::template::{linked_files, page_assets};

fn list(items: &[&str]) -> Vec<String> {
    items.iter().map(|s| s.to_string()).collect()
}

fn page(name: &str) -> PageOrDirectory {
    PageOrDirectory::Page { title: name.to_uppercase(), page: name.to_string() }
}

fn directory(own: Option<&str>, pages: Vec<PageOrDirectory>) -> PageOrDirectory {
    PageOrDirectory::Directory {
        is_ordered: true,
        title: "Directory".to_string(),
        page: own.map(|p| p.to_string()),
        pages,
    }
}

fn structure() -> PageOrDirectory {
    directory(
        None,
        vec![
            page("introduction"),
            directory(Some("concepts"), vec![page("pages"), page("layouts")]),
            directory(None, vec![]),
            page("deploy"),
        ],
    )
}

#[test]
fn pages_are_listed_in_reading_order() {
    assert_eq!(
        structure().rec_get_pages(),
        list(&["introduction", "concepts", "pages", "layouts", "deploy"])
    );
    assert_eq!(page("alone").rec_get_pages(), list(&["alone"]));
}

#[test]
fn neighbours_of_a_page_are_found() {
    let pages = structure();
    assert_eq!(pages.get_nearest_pages("introduction"), (None, Some("concepts".to_string())));
    assert_eq!(
        pages.get_nearest_pages("pages"),
        (Some("concepts".to_string()), Some("layouts".to_string()))
    );
    assert_eq!(pages.get_nearest_pages("deploy"), (Some("layouts".to_string()), None));
    assert_eq!(pages.get_nearest_pages("missing"), (None, None));
}

#[test]
fn single_page_has_no_neighbours() {
    assert_eq!(page("alone").get_nearest_pages("alone"), (None, None));
    assert_eq!(directory(Some("only"), vec![]).get_nearest_pages("only"), (None, None));
}

#[test]
fn spans_are_given_in_seconds() {
    assert_eq!(7u64.seconds(), 7);
    assert_eq!(5u64.minutes(), 300);
    assert_eq!(2u64.hours(), 7200);
    assert_eq!(3u64.days(), 259200);
    assert_eq!(0u64.days(), 0);
}

#[test]
fn traces_are_recorded_oldest_first() {
    let mut record: Option<Vec<Trace>> = None;
    add_trace(&mut record, Trace { file_path: "a.rs", function_name: "first" });
    add_trace(&mut record, Trace { file_path: "b.rs", function_name: "second" });
    let stations = record.unwrap();
    assert_eq!(stations.len(), 2);
    assert_eq!(stations[0].function_name, "first");
    assert_eq!(stations[1].file_path, "b.rs");
}

#[test]
fn extraction_names_are_read_and_written() {
    assert_eq!(FromTrait::from_str("from_response_parts"), Some(FromTrait::ResponseParts));
    assert_eq!(FromTrait::from_str("from_response_body"), Some(FromTrait::ResponseBody));
    assert_eq!(FromTrait::from_str("from_request_parts"), Some(FromTrait::RequestParts));
    assert_eq!(FromTrait::from_str("from_request"), None);
    assert_eq!(FromTrait::ResponseBody.to_snake_case_static_str(), "from_response_body");
    assert_eq!(FromTrait::RequestParts.to_snake_case_static_str(), "from_request_parts");
    assert_eq!(FromTrait::ResponseParts.to_snake_case_static_str(), "from_response_parts");
    assert_eq!(FromTrait::ResponseParts.to_string(), "FromResponseParts");
    assert_eq!(FromTrait::ResponseBody.to_string(), "FromResponseBody");
    assert_eq!(FromTrait::RequestParts.to_string(), "FromRequestParts");
}

#[test]
fn files_are_chosen_by_extension() {
    let extensions = list(&["js", "css"]);
    assert!(with_extension("a.js", &extensions));
    assert!(with_extension("b/d.css", &extensions));
    assert!(!with_extension("a_not_js", &extensions));
    assert!(!with_extension("c", &extensions));
    assert!(!with_extension("js", &extensions));
    assert_eq!(
        files_per_extensions(&list(&["a.js", "a_not_js", "b/d.css", "c", "e.css"]), &extensions),
        list(&["a.js", "b/d.css", "e.css"])
    );
    assert!(files_per_extensions(&list(&["a.js"]), &Vec::new()).is_empty());
}

#[test]
fn public_files_lose_their_folder() {
    assert_eq!(public_endpoint("./public/favicon.ico"), "/favicon.ico");
    assert_eq!(public_endpoint("./public/a/./public/b"), "/a//b");
    assert_eq!(public_endpoint("other/file"), "other/file");
}

#[test]
fn forced_tags_replace_and_defaults_fill_in() {
    let mut page = Tags::new();
    page.insert("title".to_string(), "Page".to_string());
    page.insert("description".to_string(), "About the page".to_string());
    let mut force = Tags::new();
    force.insert("title".to_string(), "Site".to_string());
    force.insert("robots".to_string(), "all".to_string());
    let mut default = Tags::new();
    default.insert("description".to_string(), "About the site".to_string());
    default.insert("author".to_string(), "Nobody".to_string());
    default.insert("robots".to_string(), "none".to_string());
    let tags = Tags::merge(Some(page), &force, &default);
    assert_eq!(tags.get("title"), Some(&"Site".to_string()));
    assert_eq!(tags.get("description"), Some(&"About the page".to_string()));
    assert_eq!(tags.get("robots"), Some(&"all".to_string()));
    assert_eq!(tags.get("author"), Some(&"Nobody".to_string()));
    assert_eq!(tags.get("lang"), None);
    assert!(tags.contains_key("author"));
    assert!(!tags.contains_key("lang"));
}

#[test]
fn page_without_tags_gets_the_sites_tags() {
    let mut force = Tags::new();
    force.insert("title".to_string(), "Site".to_string());
    let mut default = Tags::new();
    default.insert("title".to_string(), "Default".to_string());
    default.insert("author".to_string(), "First".to_string());
    default.insert("author".to_string(), "Second".to_string());
    let tags = Tags::merge(None, &force, &default);
    assert_eq!(tags.get("title"), Some(&"Site".to_string()));
    assert_eq!(tags.get("author"), Some(&"Second".to_string()));
}

#[test]
fn linked_files_are_split_by_kind() {
    let files = linked_files("src/pages/a.js;src/pages/a.css;;readme.md;src/b.js;");
    assert_eq!(files.scripts, list(&["/src/pages/a.js", "/src/b.js"]));
    assert_eq!(files.styles, list(&["/src/pages/a.css"]));
}

#[test]
fn last_character_of_the_list_ends_it() {
    let files = linked_files("a.js;b.js");
    assert_eq!(files.scripts, list(&["/a.js"]));
    let files = linked_files("");
    assert!(files.scripts.is_empty() && files.styles.is_empty());
    let files = linked_files(";");
    assert!(files.scripts.is_empty() && files.styles.is_empty());
}

#[test]
fn page_assets_join_named_and_brought_files() {
    let mut index = DependencyIndex::new();
    index.insert("/src/a.js".to_string(), list(&["src/b.js", "ui"]));
    let mut registry = PackageRegistry::new();
    registry.insert("ui".to_string(), VecOrString::Vec(list(&["/m/ui.js", "/m/ui.css"])));
    let paths = ConfigPath {
        pages: "pages".to_string(),
        layout: "layout".to_string(),
        public: "./public".to_string(),
        components: "components".to_string(),
        modules: "./public/modules".to_string(),
    };
    let files = page_assets("src/a.js;src/a.css;", &index, &registry, &paths);
    assert!(files.unknown_packages.is_empty());
    assert_eq!(files.scripts, list(&["/m/ui.js", "src/b.js", "/src/a.js"]));
    assert_eq!(files.styles, list(&["/src/a.css", "/m/ui.css"]));
}

#[test]
fn component_files_are_grouped_by_name() {
    let files = list(&[
        "/src/components/button/button.js",
        "/src/components/button/button.css",
        "src/components/card/card.js",
        "/src/components/button/button.js",
    ]);
    let found = ComponentsFiles::gather(&files, "components").unwrap();
    assert_eq!(
        found.js,
        vec![
            (
                "button/button.js".to_string(),
                list(&["src/components/button/button.js", "src/components/button/button.js"])
            ),
            (
                "src/components/card/card.js".to_string(),
                list(&["src/components/src/components/card/card.js"])
            ),
        ]
    );
    assert_eq!(
        found.css,
        vec![("button/button.css".to_string(), list(&["src/components/button/button.css"]))]
    );
}

#[test]
fn folder_that_is_no_expression_gathers_nothing() {
    assert!(ComponentsFiles::gather(&list(&["a.js"]), "comp(onents").is_none());
    assert!(ComponentsFiles::gather(&Vec::new(), "comp(onents").is_some());
}
