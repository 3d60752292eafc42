use file_explorer::text::{name_precedes, same_text, starts_with, to_ascii_lower};

#[test]
fn ascii_capitals_are_lowered() {
    assert_eq!(to_ascii_lower('A'), 'a');
    assert_eq!(to_ascii_lower('Z'), 'z');
    assert_eq!(to_ascii_lower('m'), 'm');
    assert_eq!(to_ascii_lower('@'), '@');
    assert_eq!(to_ascii_lower('['), '[');
    assert_eq!(to_ascii_lower('É'), 'É');
    for c in ['A', 'q', 'Z', '0', '/', 'É', 'ß', '日'] {
        assert_eq!(to_ascii_lower(c), c.to_ascii_lowercase());
    }
}

#[test]
fn same_text_compares_characters() {
    assert!(same_text("", ""));
    assert!(same_text("abc", "abc"));
    assert!(!same_text("abc", "abd"));
    assert!(!same_text("abc", "ab"));
    assert!(!same_text("ab", "abc"));
    assert!(!same_text("abc", "Abc"));
    assert!(same_text("日本", "日本"));
}

#[test]
fn starts_with_finds_prefixes() {
    assert!(starts_with("http://localhost/x", "http://localhost/"));
    assert!(starts_with("abc", ""));
    assert!(starts_with("abc", "abc"));
    assert!(!starts_with("ab", "abc"));
    assert!(!starts_with("xbc", "a"));
    assert!(!starts_with("", "a"));
}

#[test]
fn names_are_ordered_without_regard_to_case() {
    assert!(name_precedes("apple", "Banana"));
    assert!(!name_precedes("Banana", "apple"));
    assert!(name_precedes("Banana", "Zebra"));
    assert!(name_precedes("zebra", "Zebra"));
    assert!(name_precedes("Zebra", "zebra"));
    assert!(name_precedes("", "a"));
    assert!(!name_precedes("a", ""));
    assert!(name_precedes("ab", "abc"));
    assert!(!name_precedes("abc", "ab"));
    assert!(name_precedes("a_", "aB"));
}

#[test]
fn name_order_matches_the_order_of_lowered_strings() {
    let names = ["", "a", "A", "b", "B", "ab", "Ab", "aB", "a_", "Z", "[", "é", "É", "zz", "日"];
    for a in names {
        for b in names {
            let expected = a.to_ascii_lowercase() <= b.to_ascii_lowercase();
            assert_eq!(name_precedes(a, b), expected, "{:?} against {:?}", a, b);
        }
    }
}
