use wini_assets::path::normalize_relative_path;

#[test]
fn in_out_in() {
    let normalized_path = normalize_relative_path("src/../src");

    assert_eq!("src", normalized_path.as_str());
}

#[test]
fn relative_current() {
    let normalized_path = normalize_relative_path("./src");

    assert_eq!("src", normalized_path.as_str());
}

#[test]
fn in_out_many_times() {
    let normalized_path = normalize_relative_path(
        "src/../src/../src/../src/../src/../src/./../src/./../src/../src/../src/../src/../src",
    );

    assert_eq!("src", normalized_path.as_str());
}

#[test]
fn starting_with_dotdot() {
    let normalized_path = normalize_relative_path("../src");

    assert_eq!("../src", normalized_path.as_str());
}
