//! Core of an interactive file browser.
//!
//! A user walks a directory tree one level at a time: each step shows the
//! listing of a directory and waits for one choice, which either descends
//! into a subdirectory, goes up, or ends the session with a path. This
//! crate holds the logic of that walk, with contracts checked by Verus:
//!
//! - [`path`]: ascending, joining and normalising browse paths;
//! - [`listing`]: the entries of a directory in display order;
//! - [`selection`]: interpreting the token that the display returns;
//! - [`navigation`]: the state machine that ties the steps together.
//!
//! They rest on [`text`] (comparing strings by character), [`stable`]
//! (what a stable sort is), [`decode`] (percent-decoding, done by the
//! `percent-encoding` crate) and [`error`].
//!
//! Listing a directory, displaying it and probing a path are left to the
//! caller, who hands their results in as plain values.

pub mod decode;
pub mod error;
pub mod listing;
pub mod navigation;
pub mod path;
pub mod selection;
pub mod stable;
pub mod text;

pub use error::NavError;
pub use listing::{get_directory_results, FileType, Icon};
pub use navigation::{
    interpret_selection, settle, show_explorer, step, Decision, NavState, NavigationContext,
    PathKind, StepEvent,
};
pub use path::{ensure_trailing_separator, go_up, is_root, join_path};
pub use selection::{classify_selection, resolve_pick, SelectionOutcome, GO_UP_URL, LOCALHOST};
