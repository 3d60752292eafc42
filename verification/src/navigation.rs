//! The navigation state machine.
//!
//! Browsing proceeds in steps. In each step the directory is listed, the
//! listing is displayed until the user chooses, the choice is resolved into
//! a candidate path, and the candidate is probed on the file system. The
//! listing, the display and the probe are done by the caller; this module
//! decides what follows from their results.

use vstd::prelude::*;
use crate::decode::is_plain;
use crate::error::NavError;
use crate::listing::{
    entries_of, entry_views, get_directory_results, in_display_order, listing_order, FileType,
    FileTypeView,
};
use crate::path::{
    ends_with_separator, ensure_trailing_separator, go_up, is_root, is_root_path, joined,
    lemma_parent_depth, lemma_parent_ignores_trailing_separator, lemma_parent_of_joined,
    lemma_separator_count_concat, lemma_separator_count_zero, parent_dir, separator_count,
    with_trailing_separator,
};
use crate::selection::{
    classify_selection, go_up_token, has_origin, lemma_pick_plain_name, lemma_reserved_tokens,
    origin, picked_path, resolve_pick, SelectionOutcome,
};
use crate::stable::is_stable_sort;

verus! {

/// What a probe of the file system reports of a path.
#[derive(Debug, Clone, Copy, PartialEq, Eq, Structural)]
pub enum PathKind {
    /// An existing directory.
    Directory,
    /// An existing file.
    File,
    /// Neither.
    Missing,
}

/// State of a browsing session.
#[derive(Debug, PartialEq, Eq)]
pub enum NavState {
    /// The directory at this path is to be listed and displayed next.
    Browsing(String),
    /// The session is over, with this path as its result.
    Selected(String),
}

/// A [`NavState`] with its path as a sequence of characters.
pub enum NavStateView {
    Browsing(Seq<char>),
    Selected(Seq<char>),
}

impl View for NavState {
    type V = NavStateView;

    open spec fn view(&self) -> NavStateView {
        match self {
            NavState::Browsing(path) => NavStateView::Browsing(path@),
            NavState::Selected(path) => NavStateView::Selected(path@),
        }
    }
}

/// What a selection asks for, before anything is probed.
#[derive(Debug, PartialEq, Eq)]
pub enum Decision {
    /// End the session with the current path.
    Finish,
    /// Probe this path and go on according to what it is.
    Candidate(String),
}

/// A [`Decision`] with its path as a sequence of characters.
pub enum DecisionView {
    Finish,
    Candidate(Seq<char>),
}

impl View for Decision {
    type V = DecisionView;

    open spec fn view(&self) -> DecisionView {
        match self {
            Decision::Finish => DecisionView::Finish,
            Decision::Candidate(path) => DecisionView::Candidate(path@),
        }
    }
}

/// What the caller observed in one step.
#[derive(Debug, PartialEq, Eq)]
pub enum StepEvent {
    /// The directory could not be enumerated; nothing was displayed.
    Unreadable,
    /// The listing was displayed and the display returned `token`. `kind`
    /// is what the probe reports of the candidate that `token` resolves
    /// to; it is not consulted where the token yields no candidate.
    Chosen { token: String, kind: PathKind },
}

/// A [`StepEvent`] with its token as a sequence of characters.
pub enum StepEventView {
    Unreadable,
    Chosen { token: Seq<char>, kind: PathKind },
}

impl View for StepEvent {
    type V = StepEventView;

    open spec fn view(&self) -> StepEventView {
        match self {
            StepEvent::Unreadable => StepEventView::Unreadable,
            StepEvent::Chosen { token, kind } => StepEventView::Chosen {
                token: token@,
                kind: *kind,
            },
        }
    }
}

/// What is handed to the display in one step: the directory being browsed,
/// whether it is a root (where the "go up" control is withheld), and its
/// listing.
#[derive(Debug, PartialEq, Eq)]
pub struct NavigationContext {
    current_dir: String,
    is_root: bool,
    listings: Vec<FileType>,
}

/// A [`NavigationContext`] over sequences.
pub struct NavigationContextView {
    pub current_dir: Seq<char>,
    pub is_root: bool,
    pub listings: Seq<FileTypeView>,
}

impl View for NavigationContext {
    type V = NavigationContextView;

    closed spec fn view(&self) -> NavigationContextView {
        NavigationContextView {
            current_dir: self.current_dir@,
            is_root: self.is_root,
            listings: entry_views(self.listings@),
        }
    }
}

impl NavigationContext {
    /// The root flag is set exactly for a root, and the listing is in
    /// display order.
    #[verifier::type_invariant]
    spec fn well_formed(self) -> bool {
        &&& self.is_root == is_root_path(self.current_dir@)
        &&& in_display_order(entry_views(self.listings@))
    }

    /// The context for browsing `current_dir`, whose children are given as
    /// displayed paths, each with whether it is a directory.
    pub fn new(current_dir: &str, children: Vec<(String, bool)>) -> (context: NavigationContext)
        ensures
            context@.current_dir == current_dir@,
            context@.is_root == is_root_path(current_dir@),
            is_stable_sort(entries_of(children@), context@.listings, listing_order()),
    {
        let listings = get_directory_results(children);
        NavigationContext {
            current_dir: current_dir.to_owned(),
            is_root: is_root(current_dir),
            listings,
        }
    }

    /// The directory being browsed.
    pub fn current_dir(&self) -> (r: &str)
        ensures
            r@ == self@.current_dir,
    {
        self.current_dir.as_str()
    }

    /// Whether the directory being browsed is a root.
    pub fn is_root(&self) -> (r: bool)
        ensures
            r == self@.is_root,
            r == is_root_path(self@.current_dir),
    {
        proof {
            use_type_invariant(self);
        }
        self.is_root
    }

    /// The entries of the directory, in display order.
    pub fn listings(&self) -> (r: &Vec<FileType>)
        ensures
            entry_views(r@) == self@.listings,
            in_display_order(entry_views(r@)),
    {
        proof {
            use_type_invariant(self);
        }
        &self.listings
    }
}

/// The events of a session, each by its view.
pub open spec fn event_views(events: Seq<StepEvent>) -> Seq<StepEventView> {
    events.map_values(|event: StepEvent| event@)
}

/// The outcome of a step or of a session, with the state by its view.
pub open spec fn outcome_view(outcome: Result<NavState, NavError>) -> Result<
    NavStateView,
    NavError,
> {
    match outcome {
        Ok(state) => Ok(state@),
        Err(e) => Err(e),
    }
}

/// The decision that `token` calls for in the directory `current`.
///
/// A dismissed view ends the session. So does "go up" at a root, which has
/// no level above it, and a token that names no entry.
pub open spec fn decision_for(current: Seq<char>, token: Seq<char>) -> DecisionView {
    if token == go_up_token() {
        if is_root_path(current) {
            DecisionView::Finish
        } else {
            DecisionView::Candidate(parent_dir(current))
        }
    } else if token.len() == 0 || !has_origin(token) {
        DecisionView::Finish
    } else {
        DecisionView::Candidate(picked_path(current, token))
    }
}

/// The state that follows once `candidate` has been probed: a directory is
/// browsed next, under its path with a trailing separator; a file ends the
/// session as its result; a path that is neither ends it with `current`.
pub open spec fn settled(current: Seq<char>, candidate: Seq<char>, kind: PathKind) -> NavStateView {
    match kind {
        PathKind::Directory => NavStateView::Browsing(with_trailing_separator(candidate)),
        PathKind::File => NavStateView::Selected(candidate),
        PathKind::Missing => NavStateView::Selected(current),
    }
}

/// The outcome of one step from `Browsing(current)`.
pub open spec fn step_of(current: Seq<char>, event: StepEventView) -> Result<
    NavStateView,
    NavError,
> {
    match event {
        StepEventView::Unreadable => Err(NavError::Io),
        StepEventView::Chosen { token, kind } => match decision_for(current, token) {
            DecisionView::Finish => Ok(NavStateView::Selected(current)),
            DecisionView::Candidate(candidate) => Ok(settled(current, candidate, kind)),
        },
    }
}

/// The outcome of a session that starts in `Browsing(start)` and observes
/// `events` in order. The session stops at the first step that ends it or
/// fails; later events are not looked at. Where the events run out first,
/// the session is still browsing.
pub open spec fn session_of(start: Seq<char>, events: Seq<StepEventView>) -> Result<
    NavStateView,
    NavError,
>
    decreases events.len(),
{
    if events.len() == 0 {
        Ok(NavStateView::Browsing(start))
    } else {
        match step_of(start, events[0]) {
            Ok(NavStateView::Browsing(next)) => session_of(next, events.drop_first()),
            outcome => outcome,
        }
    }
}

/// Decides what the token returned by the display asks for.
pub fn interpret_selection(current: &str, token: &str) -> (r: Decision)
    ensures
        r@ == decision_for(current@, token@),
{
    match classify_selection(token) {
        SelectionOutcome::GoUp => {
            if is_root(current) {
                Decision::Finish
            } else {
                Decision::Candidate(go_up(current.to_owned()))
            }
        },
        SelectionOutcome::Cancel => Decision::Finish,
        SelectionOutcome::Pick(raw) => match resolve_pick(current, raw.as_str()) {
            Ok(path) => Decision::Candidate(path),
            Err(_) => Decision::Finish,
        },
    }
}

/// Decides how the session goes on once the candidate has been probed.
pub fn settle(current: String, candidate: String, kind: PathKind) -> (r: NavState)
    ensures
        r@ == settled(current@, candidate@, kind),
{
    match kind {
        PathKind::Directory => NavState::Browsing(ensure_trailing_separator(candidate)),
        PathKind::File => NavState::Selected(candidate),
        PathKind::Missing => NavState::Selected(current),
    }
}

/// Takes one step from `Browsing(current)` on what the caller observed.
pub fn step(current: String, event: &StepEvent) -> (r: Result<NavState, NavError>)
    ensures
        outcome_view(r) == step_of(current@, event@),
{
    match event {
        StepEvent::Unreadable => Err(NavError::Io),
        StepEvent::Chosen { token, kind } => match interpret_selection(
            current.as_str(),
            token.as_str(),
        ) {
            Decision::Finish => Ok(NavState::Selected(current)),
            Decision::Candidate(candidate) => Ok(settle(current, candidate, *kind)),
        },
    }
}

/// Runs a browsing session from the directory `path` over the recorded
/// observations `events`, one per step, and returns where it ends.
pub fn show_explorer(path: String, events: &Vec<StepEvent>) -> (r: Result<NavState, NavError>)
    ensures
        outcome_view(r) == session_of(path@, event_views(events@)),
{
    let mut current = path;
    let mut i: usize = 0;
    assert(event_views(events@).skip(0) =~= event_views(events@));
    while i < events.len()
        invariant
            i <= events.len(),
            session_of(path@, event_views(events@)) == session_of(
                current@,
                event_views(events@).skip(i as int),
            ),
        decreases events.len() - i,
    {
        assert(event_views(events@).skip(i as int).drop_first() =~= event_views(events@).skip(
            i + 1,
        ));
        match step(current, &events[i]) {
            Ok(NavState::Browsing(next)) => {
                current = next;
            },
            outcome => {
                return outcome;
            },
        }
        i = i + 1;
    }
    Ok(NavState::Browsing(current))
}

/// A dismissed view ends the session with the path unchanged.
pub proof fn lemma_cancel_keeps_path(current: Seq<char>, kind: PathKind)
    ensures
        step_of(current, StepEventView::Chosen { token: Seq::empty(), kind }) == Ok::<
            NavStateView,
            NavError,
        >(NavStateView::Selected(current)),
{
    lemma_reserved_tokens();
}

/// "Go up" is never carried out at a root: there it ends the session with
/// the path unchanged.
pub proof fn lemma_go_up_at_root_is_guarded(current: Seq<char>, kind: PathKind)
    requires
        is_root_path(current),
    ensures
        decision_for(current, go_up_token()) == DecisionView::Finish,
        step_of(current, StepEventView::Chosen { token: go_up_token(), kind }) == Ok::<
            NavStateView,
            NavError,
        >(NavStateView::Selected(current)),
{
}

/// "Go up" in a directory below a root leads to its parent, a directory
/// path one level less deep.
pub proof fn lemma_go_up_below_root(current: Seq<char>)
    requires
        ends_with_separator(current),
        !is_root_path(current),
    ensures
        step_of(current, StepEventView::Chosen { token: go_up_token(), kind: PathKind::Directory })
            == Ok::<NavStateView, NavError>(NavStateView::Browsing(parent_dir(current))),
        ends_with_separator(parent_dir(current)),
        separator_count(parent_dir(current)) + 1 == separator_count(current),
{
    lemma_parent_depth(current);
}

/// A step that goes on browsing goes on in a directory path: one that ends
/// with the separator.
pub proof fn lemma_step_browses_directory(current: Seq<char>, event: StepEventView)
    ensures
        step_of(current, event) matches Ok(NavStateView::Browsing(next)) ==> ends_with_separator(
            next,
        ),
{
}

/// A session that starts in a directory path and is still browsing is
/// browsing a directory path.
pub proof fn lemma_session_browses_directory(start: Seq<char>, events: Seq<StepEventView>)
    requires
        ends_with_separator(start),
    ensures
        session_of(start, events) matches Ok(NavStateView::Browsing(path)) ==> ends_with_separator(
            path,
        ),
    decreases events.len(),
{
    if events.len() > 0 {
        lemma_step_browses_directory(start, events[0]);
        match step_of(start, events[0]) {
            Ok(NavStateView::Browsing(next)) => {
                lemma_session_browses_directory(next, events.drop_first());
            },
            _ => {},
        }
    }
}

/// A session can be run in two parts: where the first part is still
/// browsing, the second goes on from there; where it has ended or failed,
/// the events of the second are not looked at.
pub proof fn lemma_session_in_two_parts(
    start: Seq<char>,
    first: Seq<StepEventView>,
    second: Seq<StepEventView>,
)
    ensures
        session_of(start, first + second) == match session_of(start, first) {
            Ok(NavStateView::Browsing(path)) => session_of(path, second),
            outcome => outcome,
        },
    decreases first.len(),
{
    if first.len() > 0 {
        assert((first + second).drop_first() =~= first.drop_first() + second);
        match step_of(start, first[0]) {
            Ok(NavStateView::Browsing(next)) => {
                lemma_session_in_two_parts(next, first.drop_first(), second);
            },
            _ => {},
        }
    }
}

/// Picking a directory and then a file in it, both by plain names, ends the
/// session with the file's path under that directory.
pub proof fn lemma_descend_then_pick(start: Seq<char>, dir: Seq<char>, file: Seq<char>)
    requires
        is_plain(dir),
        is_plain(file),
        dir.len() > 0,
        file.len() > 0,
        origin() + dir != go_up_token(),
        origin() + file != go_up_token(),
    ensures
        session_of(
            start,
            seq![
                StepEventView::Chosen { token: origin() + dir, kind: PathKind::Directory },
                StepEventView::Chosen { token: origin() + file, kind: PathKind::File },
            ],
        ) == Ok::<NavStateView, NavError>(
            NavStateView::Selected(joined(joined(start, dir), file)),
        ),
{
    let first = StepEventView::Chosen { token: origin() + dir, kind: PathKind::Directory };
    let second = StepEventView::Chosen { token: origin() + file, kind: PathKind::File };
    let events = seq![first, second];
    let inside = with_trailing_separator(joined(start, dir));
    // The first step enters the directory ...
    lemma_pick_plain_name(start, dir);
    assert(step_of(start, first) == Ok::<NavStateView, NavError>(NavStateView::Browsing(inside)));
    // ... and the second ends the session with the file in it.
    lemma_pick_plain_name(inside, file);
    assert(step_of(inside, second) == Ok::<NavStateView, NavError>(
        NavStateView::Selected(joined(inside, file)),
    ));
    assert(events.drop_first() =~= seq![second]);
    assert(session_of(inside, seq![second]) == Ok::<NavStateView, NavError>(
        NavStateView::Selected(joined(inside, file)),
    ));
}

/// Descending into a directory by a plain name without separator and going
/// up again leads back to where the session was.
pub proof fn lemma_descend_then_go_up(start: Seq<char>, dir: Seq<char>)
    requires
        is_plain(dir),
        dir.len() > 0,
        separator_count(dir) == 0,
        origin() + dir != go_up_token(),
    ensures
        session_of(
            start,
            seq![
                StepEventView::Chosen { token: origin() + dir, kind: PathKind::Directory },
                StepEventView::Chosen { token: go_up_token(), kind: PathKind::Directory },
            ],
        ) == Ok::<NavStateView, NavError>(NavStateView::Browsing(with_trailing_separator(start))),
{
    let first = StepEventView::Chosen { token: origin() + dir, kind: PathKind::Directory };
    let second = StepEventView::Chosen { token: go_up_token(), kind: PathKind::Directory };
    let events = seq![first, second];
    let entered = joined(start, dir);
    let inside = with_trailing_separator(entered);
    let back = with_trailing_separator(start);
    // The first step enters the directory.
    lemma_pick_plain_name(start, dir);
    assert(step_of(start, first) == Ok::<NavStateView, NavError>(NavStateView::Browsing(inside)));
    // The entered directory lies below a root ...
    lemma_separator_count_zero(dir);
    lemma_separator_count_concat(back, dir);
    assert(inside.drop_last() =~= entered);
    assert(separator_count(inside) >= 2);
    // ... and its parent is where the session was.
    lemma_parent_ignores_trailing_separator(entered);
    lemma_parent_of_joined(start, dir);
    assert(parent_dir(inside) == back);
    assert(step_of(inside, second) == Ok::<NavStateView, NavError>(NavStateView::Browsing(back)));
    assert(events.drop_first() =~= seq![second]);
    assert(seq![second].drop_first() =~= Seq::<StepEventView>::empty());
    assert(session_of(back, Seq::<StepEventView>::empty()) == Ok::<NavStateView, NavError>(
        NavStateView::Browsing(back),
    ));
    assert(session_of(inside, seq![second]) == Ok::<NavStateView, NavError>(
        NavStateView::Browsing(back),
    ));
}

} // verus!
