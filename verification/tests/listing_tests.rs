use file_explorer::listing::{directories_first, entries_from, sort_by_name};
use file_explorer::{get_directory_results, FileType, Icon};

fn child(name: &str, is_directory: bool) -> (String, bool) {
    (name.to_string(), is_directory)
}

fn names(listing: &Vec<FileType>) -> Vec<String> {
    listing.iter().map(|e| e.name().to_string()).collect()
}

#[test]
fn directories_come_first_then_names_without_regard_to_case() {
    let listing = get_directory_results(vec![
        child("Zebra", false),
        child("apple", true),
        child("Banana", true),
    ]);
    assert_eq!(names(&listing), vec!["apple", "Banana", "Zebra"]);
}

#[test]
fn listing_matches_two_stable_sorts() {
    let children = vec![
        child("sd:/b.txt", false),
        child("sd:/A", true),
        child("sd:/a", true),
        child("sd:/B.TXT", false),
        child("sd:/c", true),
        child("sd:/a.txt", false),
        child("sd:/C", true),
        child("sd:/_x", false),
    ];
    let mut expected: Vec<(String, bool)> = children.clone();
    expected.sort_by(|a, b| a.0.to_ascii_lowercase().cmp(&b.0.to_ascii_lowercase()));
    expected.sort_by(|a, b| b.1.cmp(&a.1));
    let listing = get_directory_results(children);
    let got: Vec<(String, bool)> =
        listing.iter().map(|e| (e.name().to_string(), e.is_directory())).collect();
    assert_eq!(got, expected);
}

#[test]
fn names_that_differ_in_case_only_keep_their_sequence() {
    let listing = get_directory_results(vec![
        child("readme", false),
        child("README", false),
        child("ReadMe", false),
    ]);
    assert_eq!(names(&listing), vec!["readme", "README", "ReadMe"]);
}

#[test]
fn entries_carry_the_icon_of_their_kind() {
    let listing = get_directory_results(vec![child("f", false), child("d", true)]);
    assert_eq!(listing.len(), 2);
    assert_eq!(listing[0], FileType::new("d".to_string(), true));
    assert_eq!(listing[0].icon(), Icon::Directory);
    assert!(listing[0].is_directory());
    assert_eq!(listing[1].icon(), Icon::File);
    assert!(!listing[1].is_directory());
    assert_eq!(listing[0].icon().file_name(), "folder.png");
    assert_eq!(listing[1].icon().file_name(), "file.png");
}

#[test]
fn empty_directory_has_empty_listing() {
    assert!(get_directory_results(Vec::new()).is_empty());
}

#[test]
fn every_child_is_listed_once() {
    let children = vec![child("x", false), child("x", false), child("x", true)];
    let listing = get_directory_results(children);
    assert_eq!(names(&listing), vec!["x", "x", "x"]);
    assert!(listing[0].is_directory());
    assert!(!listing[1].is_directory());
    assert!(!listing[2].is_directory());
}

#[test]
fn entries_from_keeps_the_sequence() {
    let entries = entries_from(vec![child("b", false), child("a", true)]);
    assert_eq!(names(&entries), vec!["b", "a"]);
}

#[test]
fn sort_by_name_ignores_kind() {
    let entries = entries_from(vec![child("b", true), child("C", false), child("a", false)]);
    let sorted = sort_by_name(entries);
    assert_eq!(names(&sorted), vec!["a", "b", "C"]);
}

#[test]
fn directories_first_keeps_the_sequence_within_a_kind() {
    let entries = entries_from(vec![
        child("z", false),
        child("y", true),
        child("x", false),
        child("w", true),
    ]);
    let listing = directories_first(entries);
    assert_eq!(names(&listing), vec!["y", "w", "z", "x"]);
}
