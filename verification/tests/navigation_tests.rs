use file_explorer::{
    interpret_selection, settle, show_explorer, step, Decision, NavError, NavState,
    NavigationContext, PathKind, StepEvent,
};

fn chosen(token: &str, kind: PathKind) -> StepEvent {
    StepEvent::Chosen { token: token.to_string(), kind }
}

fn child(name: &str, is_directory: bool) -> (String, bool) {
    (name.to_string(), is_directory)
}

#[test]
fn selecting_a_directory_then_a_file_returns_the_file() {
    let events = vec![
        chosen("http://localhost/games", PathKind::Directory),
        chosen("http://localhost/save.dat", PathKind::File),
    ];
    assert_eq!(
        show_explorer("/".to_string(), &events),
        Ok(NavState::Selected("/games/save.dat".to_string()))
    );
}

#[test]
fn closing_the_view_at_once_returns_the_starting_path() {
    let events = vec![chosen("", PathKind::Missing)];
    assert_eq!(show_explorer("/".to_string(), &events), Ok(NavState::Selected("/".to_string())));
}

#[test]
fn session_without_events_is_still_browsing() {
    assert_eq!(
        show_explorer("sd:/".to_string(), &Vec::new()),
        Ok(NavState::Browsing("sd:/".to_string()))
    );
}

#[test]
fn session_that_has_not_ended_is_browsing_the_last_directory() {
    let events = vec![
        chosen("http://localhost/games", PathKind::Directory),
        chosen("http://localhost/saves", PathKind::Directory),
        chosen("http://localhost/go_up", PathKind::Directory),
    ];
    assert_eq!(
        show_explorer("sd:/".to_string(), &events),
        Ok(NavState::Browsing("sd:/games/".to_string()))
    );
}

#[test]
fn events_after_the_end_are_ignored() {
    let events = vec![
        chosen("http://localhost/a.txt", PathKind::File),
        chosen("http://localhost/b.txt", PathKind::File),
        StepEvent::Unreadable,
    ];
    assert_eq!(
        show_explorer("/".to_string(), &events),
        Ok(NavState::Selected("/a.txt".to_string()))
    );
}

#[test]
fn unreadable_directory_fails_the_session() {
    let events =
        vec![chosen("http://localhost/locked", PathKind::Directory), StepEvent::Unreadable];
    assert_eq!(show_explorer("/".to_string(), &events), Err(NavError::Io));
    assert_eq!(step("/".to_string(), &StepEvent::Unreadable), Err(NavError::Io));
}

#[test]
fn go_up_at_root_is_guarded() {
    assert_eq!(interpret_selection("/", "http://localhost/go_up"), Decision::Finish);
    assert_eq!(interpret_selection("sd:/", "http://localhost/go_up"), Decision::Finish);
    let events = vec![chosen("http://localhost/go_up", PathKind::Directory)];
    assert_eq!(show_explorer("/".to_string(), &events), Ok(NavState::Selected("/".to_string())));
}

#[test]
fn go_up_below_root_proposes_the_parent() {
    assert_eq!(
        interpret_selection("/games/saves/", "http://localhost/go_up"),
        Decision::Candidate("/games/".to_string())
    );
    assert_eq!(
        interpret_selection("/games/", "http://localhost/go_up"),
        Decision::Candidate("/".to_string())
    );
}

#[test]
fn cancel_finishes() {
    assert_eq!(interpret_selection("/games/", ""), Decision::Finish);
}

#[test]
fn pick_proposes_the_joined_path() {
    assert_eq!(
        interpret_selection("/games/", "http://localhost/my%20save.dat"),
        Decision::Candidate("/games/my save.dat".to_string())
    );
}

#[test]
fn token_that_names_no_entry_finishes() {
    assert_eq!(interpret_selection("/games/", "about:blank"), Decision::Finish);
    let events = vec![chosen("about:blank", PathKind::File)];
    assert_eq!(
        show_explorer("/games/".to_string(), &events),
        Ok(NavState::Selected("/games/".to_string()))
    );
}

#[test]
fn directory_candidate_is_browsed_with_trailing_separator() {
    assert_eq!(
        settle("/".to_string(), "/games".to_string(), PathKind::Directory),
        NavState::Browsing("/games/".to_string())
    );
    assert_eq!(
        settle("/games/saves/".to_string(), "/games/".to_string(), PathKind::Directory),
        NavState::Browsing("/games/".to_string())
    );
}

#[test]
fn file_candidate_is_selected() {
    assert_eq!(
        settle("/".to_string(), "/save.dat".to_string(), PathKind::File),
        NavState::Selected("/save.dat".to_string())
    );
}

#[test]
fn missing_candidate_falls_back_to_the_current_path() {
    assert_eq!(
        settle("/games/".to_string(), "/games/gone".to_string(), PathKind::Missing),
        NavState::Selected("/games/".to_string())
    );
    let events = vec![chosen("http://localhost/gone", PathKind::Missing)];
    assert_eq!(
        show_explorer("/games/".to_string(), &events),
        Ok(NavState::Selected("/games/".to_string()))
    );
}

#[test]
fn walking_down_and_up_again() {
    let events = vec![
        chosen("http://localhost/a", PathKind::Directory),
        chosen("http://localhost/b", PathKind::Directory),
        chosen("http://localhost/go_up", PathKind::Directory),
        chosen("http://localhost/go_up", PathKind::Directory),
        chosen("http://localhost/c.txt", PathKind::File),
    ];
    assert_eq!(
        show_explorer("/".to_string(), &events),
        Ok(NavState::Selected("/c.txt".to_string()))
    );
}

#[test]
fn context_flags_the_root_and_lists_in_order() {
    let context = NavigationContext::new(
        "sd:/",
        vec![child("sd:/Zebra", false), child("sd:/apple", true), child("sd:/Banana", true)],
    );
    assert_eq!(context.current_dir(), "sd:/");
    assert!(context.is_root());
    let names: Vec<&str> = context.listings().iter().map(|e| e.name()).collect();
    assert_eq!(names, vec!["sd:/apple", "sd:/Banana", "sd:/Zebra"]);

    let below = NavigationContext::new("sd:/games/", Vec::new());
    assert!(!below.is_root());
    assert!(below.listings().is_empty());
}
