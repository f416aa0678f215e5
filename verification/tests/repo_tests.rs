use fructa::repo::{banner_path, parse_description};

#[test]
fn description_fields() {
    assert_eq!(
        parse_description("fructa;A web site;extra"),
        Some(("fructa".to_string(), "A web site".to_string()))
    );
    assert_eq!(
        parse_description("a;b\n"),
        Some(("a".to_string(), "b\n".to_string()))
    );
    assert_eq!(parse_description(";"), Some((String::new(), String::new())));
    assert_eq!(parse_description("only a name"), None);
    assert_eq!(parse_description(""), None);
}

#[test]
fn banner_paths() {
    assert_eq!(
        banner_path("/home/git/FokoHetman/fructa"),
        "dynamic/fructa_banner.png"
    );
    assert_eq!(banner_path("x"), "dynamic/x_banner.png");
    assert_eq!(banner_path("a/b/"), "dynamic/_banner.png");
}
