//! Browse paths: plain strings in which `/` separates the segments.
//!
//! A directory path carries a trailing separator, a file path does not.
//! Every function here is pure; the contracts speak of a path as the
//! sequence of its characters.

use vstd::prelude::*;
use vstd::string::StringExecFns;
use vstd::string::StrSliceExecFns;

verus! {

/// The character that separates the segments of a path.
pub const SEPARATOR: char = '/';

/// A path ends with the separator.
pub open spec fn ends_with_separator(path: Seq<char>) -> bool {
    path.len() > 0 && path.last() == SEPARATOR
}

/// Number of separator characters in a path.
pub open spec fn separator_count(path: Seq<char>) -> nat
    decreases path.len(),
{
    if path.len() == 0 {
        0
    } else if path.last() == SEPARATOR {
        separator_count(path.drop_last()) + 1
    } else {
        separator_count(path.drop_last())
    }
}

/// A path is the root of its tree when it holds exactly one separator.
pub open spec fn is_root_path(path: Seq<char>) -> bool {
    separator_count(path) == 1
}

/// The path with a trailing separator, appended only when it is missing.
pub open spec fn with_trailing_separator(path: Seq<char>) -> Seq<char> {
    if ends_with_separator(path) {
        path
    } else {
        path.push(SEPARATOR)
    }
}

/// The path without its trailing separator, if it has one.
pub open spec fn without_trailing_separator(path: Seq<char>) -> Seq<char> {
    if ends_with_separator(path) {
        path.drop_last()
    } else {
        path
    }
}

/// Length of the longest prefix of `path` that is empty or ends with a separator.
pub open spec fn parent_len(path: Seq<char>) -> nat
    decreases path.len(),
{
    if path.len() == 0 {
        0
    } else if path.last() == SEPARATOR {
        path.len()
    } else {
        parent_len(path.drop_last())
    }
}

/// The directory one level above `path`: the path, less a trailing separator,
/// cut after the last separator that is left. Empty when none is left.
pub open spec fn parent_dir(path: Seq<char>) -> Seq<char> {
    let stem = without_trailing_separator(path);
    stem.take(parent_len(stem) as int)
}

/// `segment` placed under the directory `current`, with exactly one separator
/// inserted where `current` does not already end with one.
pub open spec fn joined(current: Seq<char>, segment: Seq<char>) -> Seq<char> {
    with_trailing_separator(current) + segment
}

/// The segments of a path: the pieces between its separators, empty pieces
/// included. A path with `n` separators has `n + 1` segments.
pub open spec fn segments(path: Seq<char>) -> Seq<Seq<char>>
    decreases path.len(),
{
    if path.len() == 0 {
        seq![Seq::empty()]
    } else {
        let front = segments(path.drop_last());
        if path.last() == SEPARATOR {
            front.push(Seq::empty())
        } else {
            front.drop_last().push(front.last().push(path.last()))
        }
    }
}

/// The segments put together again, with one separator between neighbours.
pub open spec fn rejoined(parts: Seq<Seq<char>>) -> Seq<char>
    decreases parts.len(),
{
    if parts.len() == 0 {
        Seq::empty()
    } else if parts.len() == 1 {
        parts[0]
    } else {
        rejoined(parts.drop_last()) + seq![SEPARATOR] + parts.last()
    }
}

/// The parent, computed on the segments: the last segment is dropped, or
/// the last two where the path ends with a separator (the last one is then
/// empty), an empty segment is appended, and the segments are rejoined.
pub open spec fn parent_by_segments(path: Seq<char>) -> Seq<char> {
    let parts = segments(path);
    let dropped: int = if ends_with_separator(path) {
        2
    } else {
        1
    };
    rejoined(parts.take(parts.len() - dropped).push(Seq::empty()))
}

/// Tells whether `path` ends with the separator.
pub fn has_trailing_separator(path: &str) -> (r: bool)
    ensures
        r == ends_with_separator(path@),
{
    let mut r = false;
    for c in it: path.chars()
        invariant
            it.seq() == path@,
            r == ends_with_separator(path@.take(it.index() as int)),
    {
        r = c == SEPARATOR;
    }
    r
}

/// Tells whether `path` is a root: whether it holds exactly one separator.
pub fn is_root(path: &str) -> (r: bool)
    ensures
        r == is_root_path(path@),
{
    // Separators seen so far, counted up to two.
    let mut seen: u8 = 0;
    for c in it: path.chars()
        invariant
            it.seq() == path@,
            seen <= 2,
            seen < 2 ==> seen == separator_count(path@.take(it.index() as int)),
            seen == 2 ==> separator_count(path@.take(it.index() as int)) >= 2,
    {
        assert(path@.take(it.index() + 1).drop_last() =~= path@.take(it.index() as int));
        if c == SEPARATOR && seen < 2 {
            seen = seen + 1;
        }
    }
    assert(path@.take(path@.len() as int) =~= path@);
    seen == 1
}

/// Gives `path` a trailing separator unless it already has one.
pub fn ensure_trailing_separator(path: String) -> (r: String)
    ensures
        r@ == with_trailing_separator(path@),
        ends_with_separator(r@),
{
    if has_trailing_separator(path.as_str()) {
        path
    } else {
        proof {
            reveal_strlit("/");
        }
        path.concat("/")
    }
}

/// Joins `segment` to the directory `current`. A separator is inserted
/// between the two only where `current` does not end with one.
pub fn join_path(current: &str, segment: &str) -> (r: String)
    ensures
        r@ == joined(current@, segment@),
{
    let base = ensure_trailing_separator(String::from_str(current));
    base.concat(segment)
}

/// Moves one level up: drops the last segment of `path`, together with the
/// separator that ends `path` if there is one, and keeps the separator in
/// front of the dropped segment.
///
/// A root has no level above it, so the caller has to rule that case out.
pub fn go_up(path: String) -> (r: String)
    requires
        !is_root_path(path@),
    ensures
        r@ == parent_dir(path@),
{
    let n = path.as_str().unicode_len();
    // `last` is the position behind the last separator seen, `prev` the
    // position behind the one before it; 0 where there is none.
    let mut last: usize = 0;
    let mut prev: usize = 0;
    let mut i: usize = 0;
    for c in it: path.as_str().chars()
        invariant
            it.seq() == path@,
            n == path@.len(),
            i == it.index(),
            prev <= last <= i,
            last == parent_len(path@.take(i as int)),
            last > 0 ==> prev == parent_len(path@.take(last - 1)),
    {
        assert(path@.take(i + 1).drop_last() =~= path@.take(i as int));
        if c == SEPARATOR {
            prev = last;
            last = i + 1;
        }
        i = i + 1;
    }
    assert(path@.take(n as int) =~= path@);
    proof {
        lemma_parent_len(path@);
    }
    let cut = if n > 0 && last == n {
        prev
    } else {
        last
    };
    let parent = path.as_str().substring_char(0, cut);
    assert(parent@ =~= parent_dir(path@)) by {
        let stem = without_trailing_separator(path@);
        lemma_parent_len(stem);
    }
    String::from_str(parent)
}

/// `parent_len` is a position just behind a separator (or the start of the
/// path), and no separator follows it.
pub proof fn lemma_parent_len(path: Seq<char>)
    ensures
        parent_len(path) <= path.len(),
        parent_len(path) > 0 ==> path[parent_len(path) - 1] == SEPARATOR,
        forall|i: int| parent_len(path) <= i < path.len() ==> path[i] != SEPARATOR,
    decreases path.len(),
{
    if path.len() > 0 && path.last() != SEPARATOR {
        let front = path.drop_last();
        lemma_parent_len(front);
        assert forall|i: int| parent_len(path) <= i < path.len() implies path[i] != SEPARATOR by {
            if i < front.len() {
                assert(front[i] == path[i]);
            }
        }
    }
}

/// Separators are counted segment by segment.
pub proof fn lemma_separator_count_concat(a: Seq<char>, b: Seq<char>)
    ensures
        separator_count(a + b) == separator_count(a) + separator_count(b),
    decreases b.len(),
{
    if b.len() > 0 {
        assert((a + b).drop_last() =~= a + b.drop_last());
        lemma_separator_count_concat(a, b.drop_last());
    }
}

/// A path without any separator counts none, and the converse.
pub proof fn lemma_separator_count_zero(path: Seq<char>)
    ensures
        separator_count(path) == 0 <==> (forall|i: int|
            0 <= i < path.len() ==> path[i] != SEPARATOR),
    decreases path.len(),
{
    if path.len() > 0 {
        let front = path.drop_last();
        lemma_separator_count_zero(front);
        if separator_count(path) == 0 {
            assert forall|i: int| 0 <= i < path.len() implies path[i] != SEPARATOR by {
                if i < front.len() {
                    assert(front[i] == path[i]);
                }
            }
        }
    }
}

/// Ensuring the trailing separator a second time changes nothing.
pub proof fn lemma_trailing_separator_idempotent(path: Seq<char>)
    ensures
        with_trailing_separator(with_trailing_separator(path)) == with_trailing_separator(path),
{
}

/// A path and the same path with a trailing separator have the same parent.
pub proof fn lemma_parent_ignores_trailing_separator(path: Seq<char>)
    requires
        !ends_with_separator(path),
    ensures
        parent_dir(path.push(SEPARATOR)) == parent_dir(path),
{
    assert(path.push(SEPARATOR).drop_last() =~= path);
}

/// The parent holds every separator of the path but a trailing one. So the
/// parent of a directory path that is no root is itself a directory path,
/// one level less deep.
pub proof fn lemma_parent_depth(path: Seq<char>)
    ensures
        separator_count(parent_dir(path)) == separator_count(without_trailing_separator(path)),
        ends_with_separator(path) ==> separator_count(parent_dir(path)) + 1 == separator_count(
            path,
        ),
        separator_count(parent_dir(path)) > 0 ==> ends_with_separator(parent_dir(path)),
{
    let stem = without_trailing_separator(path);
    let cut = parent_len(stem) as int;
    lemma_parent_len(stem);
    let rest = stem.skip(cut);
    assert(stem =~= stem.take(cut) + rest);
    lemma_separator_count_concat(stem.take(cut), rest);
    lemma_separator_count_zero(rest);
}

/// Going up from an entry of a directory leads back to that directory:
/// the parent of `current` joined with a segment that is not empty and
/// holds no separator is `current` with its trailing separator.
pub proof fn lemma_parent_of_joined(current: Seq<char>, segment: Seq<char>)
    requires
        segment.len() > 0,
        separator_count(segment) == 0,
    ensures
        parent_dir(joined(current, segment)) == with_trailing_separator(current),
{
    lemma_separator_count_zero(segment);
    lemma_parent_len_skips(with_trailing_separator(current), segment);
}

/// Characters that are no separators, appended to a path that ends with
/// one, do not move `parent_len`.
proof fn lemma_parent_len_skips(dir: Seq<char>, tail: Seq<char>)
    requires
        ends_with_separator(dir),
        forall|i: int| 0 <= i < tail.len() ==> tail[i] != SEPARATOR,
    ensures
        parent_len(dir + tail) == dir.len(),
    decreases tail.len(),
{
    if tail.len() > 0 {
        assert((dir + tail).drop_last() =~= dir + tail.drop_last());
        lemma_parent_len_skips(dir, tail.drop_last());
    }
}

/// Splitting a path and rejoining the segments gives the path back.
pub proof fn lemma_segments_rejoin(path: Seq<char>)
    ensures
        segments(path).len() == separator_count(path) + 1,
        rejoined(segments(path)) == path,
    decreases path.len(),
{
    if path.len() > 0 {
        let front = segments(path.drop_last());
        lemma_segments_rejoin(path.drop_last());
        if path.last() == SEPARATOR {
            assert(front.push(Seq::empty()).drop_last() =~= front);
        } else {
            let parts = front.drop_last().push(front.last().push(path.last()));
            assert(parts.drop_last() =~= front.drop_last());
            if front.len() > 1 {
                assert(rejoined(parts) =~= (rejoined(front.drop_last()) + seq![SEPARATOR]
                    + front.last()).push(path.last()));
            }
        }
    }
}

/// Dropping the last segment and rejoining with an empty one appended cuts
/// the path behind its last separator.
proof fn lemma_cut_last_segment(path: Seq<char>)
    ensures
        rejoined(segments(path).drop_last().push(Seq::empty())) == path.take(
            parent_len(path) as int,
        ),
    decreases path.len(),
{
    if path.len() > 0 {
        let front = segments(path.drop_last());
        lemma_segments_rejoin(path.drop_last());
        if path.last() == SEPARATOR {
            assert(segments(path).drop_last() =~= front);
            lemma_segments_rejoin(path);
        } else {
            assert(segments(path).drop_last() =~= front.drop_last());
            lemma_cut_last_segment(path.drop_last());
            lemma_parent_len(path.drop_last());
            assert(path.take(parent_len(path) as int) =~= path.drop_last().take(
                parent_len(path) as int,
            ));
        }
    }
}

/// Cutting a path behind the last separator that a trailing separator
/// leaves is the same as dropping segments and rejoining.
pub proof fn lemma_parent_by_segments(path: Seq<char>)
    ensures
        parent_dir(path) == parent_by_segments(path),
{
    let parts = segments(path);
    lemma_segments_rejoin(path);
    if ends_with_separator(path) {
        let stem = path.drop_last();
        lemma_segments_rejoin(stem);
        assert(parts.take(parts.len() - 2) =~= segments(stem).drop_last());
        lemma_cut_last_segment(stem);
    } else {
        lemma_cut_last_segment(path);
    }
}

} // verus!
