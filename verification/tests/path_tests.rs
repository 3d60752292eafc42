use file_explorer::path::{
    ensure_trailing_separator, go_up, has_trailing_separator, is_root, join_path,
};

#[test]
fn go_up_from_directory_with_trailing_separator() {
    assert_eq!(go_up("/a/b/c/".to_string()), "/a/b/");
}

#[test]
fn go_up_from_path_without_trailing_separator() {
    assert_eq!(go_up("/a/b/c".to_string()), "/a/b/");
}

#[test]
fn go_up_gives_same_parent_with_and_without_trailing_separator() {
    for path in ["/a/b", "sd:/games/saves", "x//y", "a/b/c/d"] {
        let with_separator = format!("{}/", path);
        assert_eq!(go_up(path.to_string()), go_up(with_separator));
    }
}

#[test]
fn go_up_keeps_the_device_prefix() {
    assert_eq!(go_up("sd:/games/".to_string()), "sd:/");
    assert_eq!(go_up("sd:/games/saves/".to_string()), "sd:/games/");
}

#[test]
fn go_up_from_a_path_without_separator_is_empty() {
    assert_eq!(go_up("abc".to_string()), "");
    assert_eq!(go_up("".to_string()), "");
}

#[test]
fn go_up_treats_empty_segments_as_segments() {
    assert_eq!(go_up("/a//".to_string()), "/a/");
    assert_eq!(go_up("//a".to_string()), "//");
}

#[test]
fn go_up_handles_characters_outside_ascii() {
    assert_eq!(go_up("/données/été/".to_string()), "/données/");
    assert_eq!(go_up("/日本/語".to_string()), "/日本/");
}

#[test]
fn root_has_exactly_one_separator() {
    assert!(is_root("/"));
    assert!(is_root("sd:/"));
    assert!(is_root("/a"));
    assert!(!is_root("/a/"));
    assert!(!is_root("sd:/games/"));
    assert!(!is_root("abc"));
    assert!(!is_root(""));
    assert!(!is_root("///"));
}

#[test]
fn trailing_separator_is_detected() {
    assert!(has_trailing_separator("/"));
    assert!(has_trailing_separator("/a/"));
    assert!(!has_trailing_separator("/a"));
    assert!(!has_trailing_separator(""));
    assert!(!has_trailing_separator("/é"));
}

#[test]
fn trailing_separator_is_added_once() {
    assert_eq!(ensure_trailing_separator("/a".to_string()), "/a/");
    assert_eq!(ensure_trailing_separator("/a/".to_string()), "/a/");
    assert_eq!(ensure_trailing_separator("".to_string()), "/");
}

#[test]
fn normalizing_twice_is_normalizing_once() {
    for path in ["", "/", "/a", "/a/", "sd:/games", "sd:/games/", "a//"] {
        let once = ensure_trailing_separator(path.to_string());
        let twice = ensure_trailing_separator(once.clone());
        assert_eq!(once, twice);
    }
}

#[test]
fn join_inserts_separator_only_when_missing() {
    assert_eq!(join_path("/a/b/", "x"), "/a/b/x");
    assert_eq!(join_path("/a/b", "x"), "/a/b/x");
    assert_eq!(join_path("", "x"), "/x");
    assert_eq!(join_path("/a/", ""), "/a/");
    assert_eq!(join_path("/a", ""), "/a/");
}

#[test]
fn going_up_after_descending_leads_back() {
    for dir in ["/", "sd:/", "/a/", "sd:/games/"] {
        let inside = ensure_trailing_separator(join_path(dir, "child"));
        assert!(!is_root(&inside));
        assert_eq!(go_up(inside), dir);
    }
}

#[test]
fn going_up_from_a_file_leads_to_its_directory() {
    for dir in ["/a/", "sd:/games/"] {
        let file = join_path(dir, "save.dat");
        assert!(!is_root(&file));
        assert_eq!(go_up(file), dir);
    }
}
