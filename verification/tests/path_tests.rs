use toml_ops::build_path;
use toml_ops::parse_index;

#[test]
fn path_build_test() {
    let paths = build_path("");
    assert_eq!(paths.is_empty(), false);
    assert_eq!(paths, vec![""]);

    let paths = build_path("/");
    assert_eq!(paths.is_empty(), false);
    assert_eq!(paths, vec!["", ""]);

    let paths = build_path("//");
    assert_eq!(paths, vec!["", "", ""]);

    let paths = build_path("/path/to/leaf");
    assert_eq!(paths, vec!["", "path", "to", "leaf"]);

    let paths = build_path("path/to/leaf");
    assert_eq!(paths, vec!["path", "to", "leaf"]);

    let paths = build_path("path/to//leaf");
    assert_eq!(paths, vec!["path", "to", "", "leaf"]);

    let paths = build_path("path.to.leaf");
    assert_eq!(paths, vec!["path", "to", "leaf"]);

    let paths = build_path("path/to.leaf");
    assert_eq!(paths, vec!["path", "to", "leaf"]);

    let paths = build_path("path/to.leaf/");
    assert_eq!(paths, vec!["path", "to", "leaf", ""]);

    let path = "34ab";
    let index = parse_index(path);
    assert_eq!(index.is_some(), false);

    let path = "34";
    let index = parse_index(path);
    assert_eq!(index.is_some(), true);
    assert_eq!(index, Some(34));
}

#[test]
fn tests_path_build_test() {
    let paths = build_path("");
    assert_eq!(paths.is_empty(), false);
    assert_eq!(paths, vec![""]);

    let paths = build_path("/");
    assert_eq!(paths.is_empty(), false);
    assert_eq!(paths, vec!["", ""]);

    let paths = build_path("//");
    assert_eq!(paths, vec!["", "", ""]);

    let paths = build_path("/path/to/leaf");
    assert_eq!(paths, vec!["", "path", "to", "leaf"]);

    let paths = build_path("path/to/leaf");
    assert_eq!(paths, vec!["path", "to", "leaf"]);

    let paths = build_path("path/to//leaf");
    assert_eq!(paths, vec!["path", "to", "", "leaf"]);

    let paths = build_path("path.to.leaf");
    assert_eq!(paths, vec!["path", "to", "leaf"]);

    let paths = build_path("path/to.leaf");
    assert_eq!(paths, vec!["path", "to", "leaf"]);

    let paths = build_path("path/to.leaf/");
    assert_eq!(paths, vec!["path", "to", "leaf", ""]);

    let path = "34ab";
    let index = path.parse::<usize>();
    assert_eq!(index.is_ok(), false);
    assert_eq!(parse_index(path), None);

    let path = "34";
    let index = path.parse::<usize>();
    assert_eq!(index.is_ok(), true);
    assert_eq!(index, Ok(34));
    assert_eq!(parse_index(path), Some(34));
}

#[test]
fn parse_index_edges() {
    assert_eq!(parse_index(""), None);
    assert_eq!(parse_index("0"), Some(0));
    assert_eq!(parse_index("007"), Some(7));
    assert_eq!(parse_index("+3"), None);
    assert_eq!(parse_index("99999999999999999999999999"), None);
    assert_eq!(parse_index("18446744073709551615"), Some(usize::MAX));
}
