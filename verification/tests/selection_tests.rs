use file_explorer::{classify_selection, resolve_pick, NavError, SelectionOutcome};
use file_explorer::{GO_UP_URL, LOCALHOST};

#[test]
fn reserved_tokens_have_their_fixed_values() {
    assert_eq!(LOCALHOST, "http://localhost/");
    assert_eq!(GO_UP_URL, "http://localhost/go_up");
}

#[test]
fn go_up_address_is_recognised() {
    assert_eq!(classify_selection("http://localhost/go_up"), SelectionOutcome::GoUp);
}

#[test]
fn empty_token_is_a_cancel() {
    assert_eq!(classify_selection(""), SelectionOutcome::Cancel);
}

#[test]
fn any_other_token_is_a_pick() {
    assert_eq!(
        classify_selection("http://localhost/save.dat"),
        SelectionOutcome::Pick("http://localhost/save.dat".to_string())
    );
    assert_eq!(
        classify_selection("http://localhost/go_up/"),
        SelectionOutcome::Pick("http://localhost/go_up/".to_string())
    );
    assert_eq!(classify_selection("x"), SelectionOutcome::Pick("x".to_string()));
}

#[test]
fn pick_is_decoded_and_joined() {
    assert_eq!(
        resolve_pick("/a/b/", "http://localhost/my%20file.txt"),
        Ok("/a/b/my file.txt".to_string())
    );
}

#[test]
fn pick_inserts_the_missing_separator() {
    assert_eq!(resolve_pick("/a/b", "http://localhost/x"), Ok("/a/b/x".to_string()));
}

#[test]
fn pick_of_the_bare_origin_is_the_current_directory() {
    assert_eq!(resolve_pick("/a/", "http://localhost/"), Ok("/a/".to_string()));
}

#[test]
fn pick_without_the_origin_is_invalid() {
    assert_eq!(resolve_pick("/a/", "https://example.org/x"), Err(NavError::InvalidSelection));
    assert_eq!(resolve_pick("/a/", "http://localhost"), Err(NavError::InvalidSelection));
    assert_eq!(resolve_pick("/a/", "x"), Err(NavError::InvalidSelection));
}

#[test]
fn escapes_of_either_case_are_decoded() {
    assert_eq!(resolve_pick("/", "http://localhost/%4a%4A"), Ok("/JJ".to_string()));
    assert_eq!(resolve_pick("/", "http://localhost/a%2Fb"), Ok("/a/b".to_string()));
    assert_eq!(resolve_pick("/", "http://localhost/100%25"), Ok("/100%".to_string()));
}

#[test]
fn incomplete_escapes_are_kept() {
    assert_eq!(resolve_pick("/", "http://localhost/50%"), Ok("/50%".to_string()));
    assert_eq!(resolve_pick("/", "http://localhost/%2"), Ok("/%2".to_string()));
    assert_eq!(resolve_pick("/", "http://localhost/%zz"), Ok("/%zz".to_string()));
    assert_eq!(resolve_pick("/", "http://localhost/%4g"), Ok("/%4g".to_string()));
    assert_eq!(resolve_pick("/", "http://localhost/%%41"), Ok("/%A".to_string()));
    assert_eq!(resolve_pick("/", "http://localhost/%2%41"), Ok("/%2A".to_string()));
}

#[test]
fn escaped_utf8_is_decoded_as_text() {
    assert_eq!(resolve_pick("/", "http://localhost/%C3%A9t%C3%A9"), Ok("/été".to_string()));
    assert_eq!(resolve_pick("/", "http://localhost/%F0%9F%92%96"), Ok("/💖".to_string()));
    assert_eq!(resolve_pick("/", "http://localhost/été"), Ok("/été".to_string()));
}

#[test]
fn malformed_utf8_is_replaced_not_fatal() {
    assert_eq!(resolve_pick("/", "http://localhost/a%FFb"), Ok("/a\u{FFFD}b".to_string()));
    assert_eq!(
        resolve_pick("/", "http://localhost/%00%9F%92%96"),
        Ok("/\u{0}\u{FFFD}\u{FFFD}\u{FFFD}".to_string())
    );
}

#[test]
fn plain_names_resolve_to_themselves() {
    for name in ["games", "save.dat", "with space", "ünïcode", "a+b", ""] {
        let raw = format!("http://localhost/{}", name);
        assert_eq!(resolve_pick("/dir/", &raw), Ok(format!("/dir/{}", name)));
    }
}
