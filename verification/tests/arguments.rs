use wini_assets::args::{join_with, ArgumentError, ArgumentValue, ProcMacroParameters};
use wini_assets::layout::{
    is_ouput_ty_result, is_str_eq_to_path, parse_attrs_of_arg, ty_into_path, ConflictingAttributes,
    FromTrait,
};

fn list(items: &[&str]) -> Vec<String> {
    items.iter().map(|s| s.to_string()).collect()
}

fn pairs(items: &[(&str, &str)]) -> Vec<(String, String)> {
    items.iter().map(|(a, b)| (a.to_string(), b.to_string())).collect()
}

#[test]
fn text_arguments_are_taken() {
    let mut parameters = ProcMacroParameters::new();
    assert_eq!(parameters.parse("title", ArgumentValue::Text("Hello".to_string())), Ok(()));
    assert_eq!(parameters.parse("lang", ArgumentValue::Text("en".to_string())), Ok(()));
    assert_eq!(parameters.parse("title", ArgumentValue::Text("Again".to_string())), Ok(()));
    assert_eq!(parameters.title, Some("Again".to_string()));
    assert_eq!(parameters.lang, Some("en".to_string()));
    assert_eq!(parameters.description, None);
}

#[test]
fn list_arguments_are_taken() {
    let mut parameters = ProcMacroParameters::new();
    assert_eq!(parameters.parse("keywords", ArgumentValue::List(list(&["a", "b"]))), Ok(()));
    assert_eq!(parameters.parse("js_pkgs", ArgumentValue::List(list(&["htmx.org"]))), Ok(()));
    assert_eq!(parameters.keywords, Some(list(&["a", "b"])));
    assert_eq!(parameters.js_pkgs, Some(list(&["htmx.org"])));
}

#[test]
fn other_meta_adds_up() {
    let mut parameters = ProcMacroParameters::new();
    assert_eq!(parameters.parse("other_meta", ArgumentValue::Pairs(Vec::new())), Ok(()));
    assert_eq!(parameters.other_meta, None);
    assert_eq!(parameters.parse("other_meta", ArgumentValue::Pairs(pairs(&[("a", "1")]))), Ok(()));
    assert_eq!(
        parameters.parse("other_meta", ArgumentValue::Pairs(pairs(&[("b", "2"), ("a", "3")]))),
        Ok(())
    );
    assert_eq!(parameters.other_meta, Some(pairs(&[("a", "1"), ("b", "2"), ("a", "3")])));
}

#[test]
fn unexpected_arguments_are_refused() {
    let mut parameters = ProcMacroParameters::new();
    assert_eq!(
        parameters.parse("colour", ArgumentValue::Text("red".to_string())),
        Err(ArgumentError::UnexpectedName)
    );
    assert_eq!(
        parameters.parse("title", ArgumentValue::List(list(&["a"]))),
        Err(ArgumentError::UnexpectedValue)
    );
    assert_eq!(
        parameters.parse("keywords", ArgumentValue::Text("a".to_string())),
        Err(ArgumentError::UnexpectedValue)
    );
    assert_eq!(
        parameters.parse("other_meta", ArgumentValue::List(list(&["a"]))),
        Err(ArgumentError::UnexpectedValue)
    );
    assert_eq!(parameters.title, None);
    assert_eq!(parameters.keywords, None);
}

#[test]
fn meta_tags_come_in_their_order() {
    let mut parameters = ProcMacroParameters::new();
    parameters.parse("other_meta", ArgumentValue::Pairs(pairs(&[("og:type", "website")]))).unwrap();
    parameters.parse("keywords", ArgumentValue::List(list(&["fast", "small", "typed"]))).unwrap();
    parameters.parse("img", ArgumentValue::Text("/logo.png".to_string())).unwrap();
    parameters.parse("robots", ArgumentValue::Text("all".to_string())).unwrap();
    parameters.parse("title", ArgumentValue::Text("Home".to_string())).unwrap();
    parameters.parse("js_pkgs", ArgumentValue::List(list(&["alpinejs"]))).unwrap();
    assert_eq!(
        parameters.meta_tags(),
        pairs(&[
            ("title", "Home"),
            ("robots", "all"),
            ("img", "/logo.png"),
            ("keywords", "fast, small, typed"),
            ("og:type", "website"),
        ])
    );
    assert!(ProcMacroParameters::new().meta_tags().is_empty());
}

#[test]
fn texts_are_joined_with_glue() {
    assert_eq!(join_with(&list(&["a", "b", "c"]), ", "), "a, b, c");
    assert_eq!(join_with(&list(&["a"]), ", "), "a");
    assert_eq!(join_with(&Vec::new(), ", "), "");
    assert_eq!(join_with(&list(&["", ""]), "-"), "-");
}

#[test]
fn one_extraction_attribute_is_found() {
    assert_eq!(
        parse_attrs_of_arg(&list(&["doc", "from_response_body", "allow"])),
        Ok(Some((FromTrait::ResponseBody, 1)))
    );
    assert_eq!(parse_attrs_of_arg(&list(&["doc", "allow"])), Ok(None));
    assert_eq!(parse_attrs_of_arg(&Vec::new()), Ok(None));
}

#[test]
fn two_extraction_attributes_conflict() {
    assert_eq!(
        parse_attrs_of_arg(&list(&["from_request_parts", "doc", "from_response_parts"])),
        Err(ConflictingAttributes)
    );
    assert_eq!(
        parse_attrs_of_arg(&list(&["from_request_parts", "from_request_parts"])),
        Err(ConflictingAttributes)
    );
}

#[test]
fn type_text_becomes_a_path() {
    assert_eq!(ty_into_path("Option<Vec<u8>>"), "Option::<Vec::<u8>>");
    assert_eq!(ty_into_path("StatusCode"), "StatusCode");
}

#[test]
fn result_types_are_recognized() {
    assert!(is_ouput_ty_result("ServerResult"));
    assert!(is_ouput_ty_result("Result"));
    assert!(!is_ouput_ty_result("Markup"));
    assert!(!is_ouput_ty_result("Resul"));
    assert!(!is_ouput_ty_result(""));
}

#[test]
fn last_path_segment_is_compared() {
    assert!(is_str_eq_to_path("Markup", "maud::Markup"));
    assert!(is_str_eq_to_path("Markup", "Markup"));
    assert!(!is_str_eq_to_path("maud", "maud::Markup"));
    assert!(is_str_eq_to_path("", "maud::"));
}
