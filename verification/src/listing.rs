//! Directory listings: the entries of a directory in display order.
//!
//! Directories come before files, and within each of the two groups the
//! names ascend in the case-insensitive order. Entries that this order
//! does not tell apart keep the sequence in which the directory gave them.

use vstd::prelude::*;
use crate::stable::{is_stable_sort, lemma_two_passes, stably_sorted_by, then_by};
use crate::text::{
    lemma_lex_le_total, lemma_lex_le_transitive, folded, name_le, name_precedes,
};

verus! {

/// The picture shown beside an entry.
#[derive(Debug, Clone, Copy, PartialEq, Eq, Structural)]
pub enum Icon {
    File,
    Directory,
}

/// File name of the picture for files.
pub const FILE_ICON: &'static str = "file.png";

/// File name of the picture for directories.
pub const FOLDER_ICON: &'static str = "folder.png";

/// The file name under which the display finds the picture of an icon.
pub open spec fn icon_file_name(icon: Icon) -> Seq<char> {
    match icon {
        Icon::File => FILE_ICON@,
        Icon::Directory => FOLDER_ICON@,
    }
}

impl Icon {
    /// The file name under which the display finds the picture.
    pub fn file_name(self) -> (r: &'static str)
        ensures
            r@ == icon_file_name(self),
    {
        match self {
            Icon::File => FILE_ICON,
            Icon::Directory => FOLDER_ICON,
        }
    }
}

/// One entry of a directory listing.
#[derive(Debug, PartialEq, Eq)]
pub struct FileType {
    name: String,
    icon: Icon,
    is_directory: bool,
}

/// A [`FileType`] with its name as a sequence of characters.
pub struct FileTypeView {
    pub name: Seq<char>,
    pub icon: Icon,
    pub is_directory: bool,
}

impl View for FileType {
    type V = FileTypeView;

    closed spec fn view(&self) -> FileTypeView {
        FileTypeView { name: self.name@, icon: self.icon, is_directory: self.is_directory }
    }
}

/// The icon that goes with an entry of the given kind.
pub open spec fn icon_for(is_directory: bool) -> Icon {
    if is_directory {
        Icon::Directory
    } else {
        Icon::File
    }
}

/// The entry with the given name and kind.
pub open spec fn entry(name: Seq<char>, is_directory: bool) -> FileTypeView {
    FileTypeView { name, icon: icon_for(is_directory), is_directory }
}

/// The entries that stand for the children of a directory, in the sequence
/// given: each child is a displayed path and whether it is a directory.
pub open spec fn entries_of(children: Seq<(String, bool)>) -> Seq<FileTypeView> {
    children.map_values(|child: (String, bool)| entry(child.0@, child.1))
}

/// The entries of a listing, each by its view.
pub open spec fn entry_views(entries: Seq<FileType>) -> Seq<FileTypeView> {
    entries.map_values(|e: FileType| e@)
}

/// Order by name, ignoring the case of ASCII letters.
pub open spec fn by_name() -> spec_fn(FileTypeView, FileTypeView) -> bool {
    |a: FileTypeView, b: FileTypeView| name_le(a.name, b.name)
}

/// Order by kind: a directory comes before a file.
pub open spec fn by_kind() -> spec_fn(FileTypeView, FileTypeView) -> bool {
    |a: FileTypeView, b: FileTypeView| a.is_directory || !b.is_directory
}

/// The order of a listing: by kind, and by name within a kind.
pub open spec fn listing_order() -> spec_fn(FileTypeView, FileTypeView) -> bool {
    then_by(by_kind(), by_name())
}

/// `a` may stand before `b` in a listing.
pub open spec fn listing_le(a: FileTypeView, b: FileTypeView) -> bool {
    if a.is_directory == b.is_directory {
        name_le(a.name, b.name)
    } else {
        a.is_directory
    }
}

/// Every entry of `listing` may stand before every later one: directories
/// come before files, and within each kind the names ascend.
pub open spec fn in_display_order(listing: Seq<FileTypeView>) -> bool {
    forall|i: int, j: int|
        0 <= i < j < listing.len() ==> listing_le(#[trigger] listing[i], #[trigger] listing[j])
}

impl FileType {
    /// Every entry carries the icon of its kind.
    #[verifier::type_invariant]
    spec fn icon_matches_kind(self) -> bool {
        self.icon == icon_for(self.is_directory)
    }

    /// An entry with the icon of its kind.
    pub fn new(name: String, is_directory: bool) -> (e: FileType)
        ensures
            e@ == entry(name@, is_directory),
    {
        let icon = if is_directory {
            Icon::Directory
        } else {
            Icon::File
        };
        FileType { name, icon, is_directory }
    }

    /// The displayed name of the entry.
    pub fn name(&self) -> (r: &str)
        ensures
            r@ == self@.name,
    {
        self.name.as_str()
    }

    /// The icon of the entry: that of its kind.
    pub fn icon(&self) -> (r: Icon)
        ensures
            r == self@.icon,
            r == icon_for(self@.is_directory),
    {
        proof {
            use_type_invariant(self);
        }
        self.icon
    }

    /// Whether the entry is a directory.
    pub fn is_directory(&self) -> (r: bool)
        ensures
            r == self@.is_directory,
    {
        self.is_directory
    }
}

/// Makes an entry of each child, in the sequence given.
pub fn entries_from(children: Vec<(String, bool)>) -> (entries: Vec<FileType>)
    ensures
        entry_views(entries@) == entries_of(children@),
{
    let ghost input = children@;
    let mut entries: Vec<FileType> = Vec::new();
    for child in it: children
        invariant
            it.seq() == input,
            entries.len() == it.index(),
            forall|i: int|
                0 <= i < entries.len() ==> (#[trigger] entries[i])@ == entry(
                    input[i].0@,
                    input[i].1,
                ),
    {
        entries.push(FileType::new(child.0, child.1));
    }
    entries
}

/// Sorts the entries by name, ignoring the case of ASCII letters. Entries
/// whose names differ in case only keep their sequence.
pub fn sort_by_name(entries: Vec<FileType>) -> (sorted: Vec<FileType>)
    ensures
        is_stable_sort(entry_views(entries@), entry_views(sorted@), by_name()),
{
    let ghost input = entries@;
    let ghost mut order: Seq<int> = Seq::empty();
    let mut sorted: Vec<FileType> = Vec::new();
    for e in it: entries
        invariant
            it.seq() == input,
            sorted.len() == it.index(),
            order.len() == it.index(),
            forall|i: int| 0 <= i < order.len() ==> 0 <= #[trigger] order[i] < it.index(),
            forall|i: int, j: int|
                0 <= i < j < order.len() ==> #[trigger] order[i] != #[trigger] order[j],
            forall|i: int| 0 <= i < sorted.len() ==> #[trigger] sorted[i] == input[order[i]],
            forall|i: int, j: int|
                0 <= i < j < sorted.len() ==> name_le(
                    (#[trigger] sorted[i])@.name,
                    (#[trigger] sorted[j])@.name,
                ),
            forall|i: int, j: int|
                0 <= i < j < sorted.len() && name_le(sorted[j]@.name, sorted[i]@.name)
                    ==> #[trigger] order[i] < #[trigger] order[j],
    {
        // The entry goes behind every entry that comes before or with it.
        let mut at: usize = 0;
        while at < sorted.len() && name_precedes(sorted[at].name(), e.name())
            invariant
                at <= sorted.len(),
                forall|i: int| 0 <= i < at ==> name_le((#[trigger] sorted[i])@.name, e@.name),
            decreases sorted.len() - at,
        {
            at = at + 1;
        }
        proof {
            let ghost before = sorted@;
            assert forall|j: int| at <= j < before.len() implies !name_le(
                (#[trigger] before[j])@.name,
                e@.name,
            ) && name_le(e@.name, before[j]@.name) by {
                if name_le(before[j]@.name, e@.name) {
                    if at < j {
                        lemma_lex_le_transitive(
                            folded(before[at as int]@.name),
                            folded(before[j]@.name),
                            folded(e@.name),
                        );
                    }
                }
                lemma_lex_le_total(folded(e@.name), folded(before[j]@.name));
            }
            order = order.insert(at as int, it.index() as int);
        }
        sorted.insert(at, e);
    }
    proof {
        assert(stably_sorted_by(entry_views(input), entry_views(sorted@), order, by_name()));
    }
    sorted
}

/// Moves the directories in front of the files. Within the directories, and
/// within the files, the entries keep their sequence.
pub fn directories_first(entries: Vec<FileType>) -> (listing: Vec<FileType>)
    ensures
        is_stable_sort(entry_views(entries@), entry_views(listing@), by_kind()),
{
    let ghost input = entries@;
    let ghost mut dir_order: Seq<int> = Seq::empty();
    let ghost mut file_order: Seq<int> = Seq::empty();
    let mut listing: Vec<FileType> = Vec::new();
    let mut files: Vec<FileType> = Vec::new();
    for e in it: entries
        invariant
            it.seq() == input,
            listing.len() + files.len() == it.index(),
            dir_order.len() == listing.len(),
            file_order.len() == files.len(),
            forall|i: int| 0 <= i < listing.len() ==> 0 <= #[trigger] dir_order[i] < it.index(),
            forall|i: int| 0 <= i < files.len() ==> 0 <= #[trigger] file_order[i] < it.index(),
            forall|i: int, j: int|
                0 <= i < j < listing.len() ==> #[trigger] dir_order[i] < #[trigger] dir_order[j],
            forall|i: int, j: int|
                0 <= i < j < files.len() ==> #[trigger] file_order[i] < #[trigger] file_order[j],
            forall|i: int|
                0 <= i < listing.len() ==> #[trigger] listing[i] == input[dir_order[i]]
                    && listing[i]@.is_directory,
            forall|i: int|
                0 <= i < files.len() ==> #[trigger] files[i] == input[file_order[i]]
                    && !files[i]@.is_directory,
    {
        if e.is_directory() {
            proof {
                dir_order = dir_order.push(it.index() as int);
            }
            listing.push(e);
        } else {
            proof {
                file_order = file_order.push(it.index() as int);
            }
            files.push(e);
        }
    }
    let ghost dirs = listing@;
    let ghost rest = files@;
    listing.append(&mut files);
    proof {
        let order = dir_order + file_order;
        let n = input.len() as int;
        let d = dirs.len() as int;
        assert forall|i: int, j: int| 0 <= i < j < n implies #[trigger] order[i]
            != #[trigger] order[j] by {
            if i < d && j >= d {
                assert(dirs[i] == input[order[i]]);
                assert(rest[j - d] == input[order[j]]);
            }
        }
        assert(stably_sorted_by(entry_views(input), entry_views(listing@), order, by_kind()));
    }
    listing
}

/// Builds the listing of a directory from its children, each given as the
/// displayed path and whether it is a directory.
///
/// The entries are sorted in two stable passes, first by name and then by
/// kind. The result is the stable sort by kind and, within a kind, by name.
pub fn get_directory_results(children: Vec<(String, bool)>) -> (listing: Vec<FileType>)
    ensures
        is_stable_sort(entries_of(children@), entry_views(listing@), listing_order()),
        in_display_order(entry_views(listing@)),
{
    let entries = entries_from(children);
    let sorted = sort_by_name(entries);
    let listing = directories_first(sorted);
    proof {
        lemma_two_passes(
            entries_of(children@),
            entry_views(sorted@),
            entry_views(listing@),
            by_name(),
            by_kind(),
        );
        lemma_listing_order(entries_of(children@), entry_views(listing@));
    }
    listing
}

/// In a stable sort by the listing order every directory stands before
/// every file, and within each kind the names ascend.
pub proof fn lemma_listing_order(input: Seq<FileTypeView>, output: Seq<FileTypeView>)
    requires
        is_stable_sort(input, output, listing_order()),
    ensures
        in_display_order(output),
{
    let order = choose|order: Seq<int>| stably_sorted_by(input, output, order, listing_order());
    assert forall|i: int, j: int| 0 <= i < j < output.len() implies listing_le(
        #[trigger] output[i],
        #[trigger] output[j],
    ) by {
    }
}

} // verus!
