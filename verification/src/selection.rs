//! Interpreting the token that the display hands back: the reserved
//! "go up" address, the empty token of a dismissed view, or the address of
//! an entry.

use vstd::prelude::*;
use vstd::string::StrSliceExecFns;
use vstd::string::StringExecFns;
use crate::decode::{
    decoded_text, is_plain, lemma_plain_text_decodes_to_itself, percent_decode_lossy,
};
use crate::error::NavError;
use crate::path::{join_path, joined};
use crate::text::{same_text, starts_with};

verus! {

/// The origin under which the display addresses the entries of a listing.
pub const LOCALHOST: &'static str = "http://localhost/";

/// The address reserved for the "go up" control.
pub const GO_UP_URL: &'static str = "http://localhost/go_up";

/// The characters of [`LOCALHOST`].
pub open spec fn origin() -> Seq<char> {
    LOCALHOST@
}

/// The characters of [`GO_UP_URL`].
pub open spec fn go_up_token() -> Seq<char> {
    GO_UP_URL@
}

/// What the user chose in one display of a listing.
#[derive(Debug, PartialEq, Eq)]
pub enum SelectionOutcome {
    /// The "go up" control.
    GoUp,
    /// Nothing: the view was dismissed.
    Cancel,
    /// An entry, by the address the display gave it.
    Pick(String),
}

/// A [`SelectionOutcome`] with its token as a sequence of characters.
pub enum SelectionOutcomeView {
    GoUp,
    Cancel,
    Pick(Seq<char>),
}

impl View for SelectionOutcome {
    type V = SelectionOutcomeView;

    open spec fn view(&self) -> SelectionOutcomeView {
        match self {
            SelectionOutcome::GoUp => SelectionOutcomeView::GoUp,
            SelectionOutcome::Cancel => SelectionOutcomeView::Cancel,
            SelectionOutcome::Pick(raw) => SelectionOutcomeView::Pick(raw@),
        }
    }
}

/// The outcome that a token stands for. The reserved address is looked for
/// first, then the empty token; anything else picks an entry.
pub open spec fn outcome_of(token: Seq<char>) -> SelectionOutcomeView {
    if token == go_up_token() {
        SelectionOutcomeView::GoUp
    } else if token.len() == 0 {
        SelectionOutcomeView::Cancel
    } else {
        SelectionOutcomeView::Pick(token)
    }
}

/// The token begins with the origin, so what follows names an entry.
pub open spec fn has_origin(raw: Seq<char>) -> bool {
    origin().is_prefix_of(raw)
}

/// The part of an entry's address behind the origin, still percent-encoded.
pub open spec fn encoded_segment(raw: Seq<char>) -> Seq<char> {
    raw.skip(origin().len() as int)
}

/// The path that picking `raw` in the directory `current` leads to.
pub open spec fn picked_path(current: Seq<char>, raw: Seq<char>) -> Seq<char> {
    joined(current, decoded_text(encoded_segment(raw)))
}

/// Tells what the user chose, from the token that the display returned.
pub fn classify_selection(token: &str) -> (r: SelectionOutcome)
    ensures
        r@ == outcome_of(token@),
{
    if same_text(token, GO_UP_URL) {
        SelectionOutcome::GoUp
    } else if token.is_empty() {
        SelectionOutcome::Cancel
    } else {
        SelectionOutcome::Pick(String::from_str(token))
    }
}

/// Resolves the address `raw` of a picked entry against the directory
/// `current`: strips the origin, percent-decodes the rest (lossily, so that
/// no escape is ever fatal) and joins the decoded segment to `current`.
///
/// An address that does not begin with the origin names no entry.
pub fn resolve_pick(current: &str, raw: &str) -> (r: Result<String, NavError>)
    ensures
        match r {
            Ok(path) => has_origin(raw@) && path@ == picked_path(current@, raw@),
            Err(e) => !has_origin(raw@) && e == NavError::InvalidSelection,
        },
{
    if !starts_with(raw, LOCALHOST) {
        return Err(NavError::InvalidSelection);
    }
    let from = LOCALHOST.unicode_len();
    let to = raw.unicode_len();
    let encoded = raw.substring_char(from, to);
    let segment = percent_decode_lossy(encoded);
    Ok(join_path(current, segment.as_str()))
}

/// The reserved tokens, spelled out: the origin ends with a `/`, and the
/// "go up" address is the origin followed by `go_up`.
pub proof fn lemma_reserved_tokens()
    ensures
        origin().len() == 17,
        origin().last() == '/',
        go_up_token() == origin() + seq!['g', 'o', '_', 'u', 'p'],
        has_origin(go_up_token()),
{
    reveal_strlit("http://localhost/");
    reveal_strlit("http://localhost/go_up");
}

/// The address of an entry with a plain name resolves to that name under
/// the current directory.
pub proof fn lemma_pick_plain_name(current: Seq<char>, name: Seq<char>)
    requires
        is_plain(name),
    ensures
        has_origin(origin() + name),
        picked_path(current, origin() + name) == joined(current, name),
{
    let raw = origin() + name;
    assert(encoded_segment(raw) =~= name);
    lemma_plain_text_decodes_to_itself(name);
}

} // verus!
