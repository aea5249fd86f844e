use wini_assets::cache::CacheCategory;
use wini_assets::config::{CacheTableError, Caches, ConfigCache, ConfigPath, RuleValue};
use wini_assets::env::EnvType;

fn rules(entries: &[(CacheCategory, &str)]) -> ConfigCache {
    ConfigCache { rules: entries.iter().map(|(c, r)| (*c, r.to_string())).collect() }
}

fn paths(public: &str) -> ConfigPath {
    ConfigPath {
        pages: "pages".to_string(),
        layout: "layout".to_string(),
        public: public.to_string(),
        components: "components".to_string(),
        modules: "modules".to_string(),
    }
}

#[test]
fn public_folder_lies_below_src() {
    assert_eq!(paths("./public").public_from_src(), "src/public");
    assert_eq!(paths("../public").public_from_src(), "public");
    assert_eq!(paths("/srv/public").public_from_src(), "/srv/public");
}

#[test]
fn environment_names_ignore_case() {
    assert_eq!(EnvType::from_str("prod"), Some(EnvType::Prod));
    assert_eq!(EnvType::from_str("STAGING"), Some(EnvType::Staging));
    assert_eq!(EnvType::from_str("Dev"), Some(EnvType::Dev));
    assert_eq!(EnvType::from_str("lOcAl"), Some(EnvType::Local));
    assert_eq!(EnvType::from_str("production"), None);
    assert_eq!(EnvType::from_str(""), None);
}

#[test]
fn category_names_are_exact() {
    assert_eq!(CacheCategory::from_str("html"), Some(CacheCategory::Html));
    assert_eq!(CacheCategory::from_str("css"), Some(CacheCategory::Css));
    assert_eq!(CacheCategory::from_str("javascript"), Some(CacheCategory::Javascript));
    assert_eq!(CacheCategory::from_str("public"), Some(CacheCategory::Public));
    assert_eq!(CacheCategory::from_str("function"), Some(CacheCategory::Function));
    assert_eq!(CacheCategory::from_str("Html"), None);
    assert_eq!(CacheCategory::from_str("js"), None);
}

#[test]
fn every_variant_is_iterated() {
    assert_eq!(EnvType::iter(), vec![EnvType::Prod, EnvType::Staging, EnvType::Dev, EnvType::Local]);
    assert_eq!(CacheCategory::iter().len(), 5);
    assert_eq!(CacheCategory::iter()[4], CacheCategory::Function);
}

#[test]
fn cache_table_is_read() {
    let table = ConfigCache::from_entries(vec![
        ("html".to_string(), RuleValue::Text("no-cache".to_string())),
        ("function".to_string(), RuleValue::Flag(true)),
        ("css".to_string(), RuleValue::Text("max-age=60".to_string())),
    ])
    .ok()
    .unwrap();
    assert_eq!(table.get(CacheCategory::Html), Some(&"no-cache".to_string()));
    assert_eq!(table.get(CacheCategory::Css), Some(&"max-age=60".to_string()));
    assert_eq!(table.get(CacheCategory::Function), None);
}

#[test]
fn later_rule_for_a_category_stands() {
    let table = rules(&[(CacheCategory::Html, "old"), (CacheCategory::Html, "new")]);
    assert_eq!(table.get(CacheCategory::Html), Some(&"new".to_string()));
}

#[test]
fn value_that_is_no_rule_is_refused() {
    let table = ConfigCache::from_entries(vec![
        ("html".to_string(), RuleValue::Text("no-cache".to_string())),
        ("css".to_string(), RuleValue::Flag(true)),
    ]);
    assert_eq!(table.err(), Some(CacheTableError::NotARule(1)));
    let table = ConfigCache::from_entries(vec![("css".to_string(), RuleValue::Other)]);
    assert_eq!(table.err(), Some(CacheTableError::NotARule(0)));
}

#[test]
fn unknown_key_is_refused() {
    let table = ConfigCache::from_entries(vec![
        ("html".to_string(), RuleValue::Text("no-cache".to_string())),
        ("images".to_string(), RuleValue::Text("max-age=60".to_string())),
    ]);
    assert_eq!(table.err(), Some(CacheTableError::InvalidKey(1)));
}

#[test]
fn function_key_with_text_is_a_rule() {
    let table = ConfigCache::from_entries(vec![(
        "function".to_string(),
        RuleValue::Text("max-age=1".to_string()),
    )])
    .ok()
    .unwrap();
    assert_eq!(table.get(CacheCategory::Function), Some(&"max-age=1".to_string()));
}

#[test]
fn environment_rule_comes_before_the_default() {
    let caches = Caches {
        default: Some(rules(&[(CacheCategory::Html, "default-html"), (CacheCategory::Css, "default-css")])),
        environments: vec![
            (EnvType::Prod, Some(rules(&[(CacheCategory::Html, "prod-html")]))),
            (EnvType::Dev, None),
        ],
        current: EnvType::Prod,
    };
    assert_eq!(caches.get(CacheCategory::Html), "prod-html");
    assert_eq!(caches.get(CacheCategory::Css), "default-css");
    assert_eq!(caches.get_opt(CacheCategory::Javascript), None);
    assert_eq!(
        caches.get_opt_with_env_type(EnvType::Dev, CacheCategory::Html),
        Some("default-html".to_string())
    );
    assert_eq!(
        caches.get_opt_with_env_type(EnvType::Local, CacheCategory::Css),
        Some("default-css".to_string())
    );
}

#[test]
fn without_default_only_own_rules_count() {
    let caches = Caches {
        default: None,
        environments: vec![(EnvType::Local, Some(rules(&[(CacheCategory::Public, "p")])))],
        current: EnvType::Local,
    };
    assert_eq!(caches.get_opt(CacheCategory::Public), Some("p".to_string()));
    assert_eq!(caches.get_opt(CacheCategory::Html), None);
    assert_eq!(caches.get_opt_with_env_type(EnvType::Prod, CacheCategory::Public), None);
}

#[test]
fn first_missing_rule_is_reported() {
    let full = rules(&[
        (CacheCategory::Html, "h"),
        (CacheCategory::Css, "c"),
        (CacheCategory::Javascript, "j"),
        (CacheCategory::Public, "p"),
    ]);
    let caches = Caches { default: Some(full), environments: Vec::new(), current: EnvType::Dev };
    assert_eq!(caches.verify_all_attributes(), None);

    let partial = rules(&[(CacheCategory::Html, "h"), (CacheCategory::Css, "c")]);
    let caches = Caches {
        default: None,
        environments: vec![
            (EnvType::Prod, Some(rules(&[
                (CacheCategory::Html, "h"),
                (CacheCategory::Css, "c"),
                (CacheCategory::Javascript, "j"),
                (CacheCategory::Public, "p"),
            ]))),
            (EnvType::Staging, Some(partial)),
        ],
        current: EnvType::Prod,
    };
    assert_eq!(
        caches.verify_all_attributes(),
        Some((EnvType::Staging, CacheCategory::Javascript))
    );
}
