//! Target enumeration: from a walk of the directory, or from a list of paths.

use vstd::prelude::*;

use crate::builder::{FileEntry, FileEntryView, TargetEntries};
use crate::data::ObjectKind;
use crate::error::ReadContentError;
use crate::filter::Filter;
use crate::path::{path_components, RelativePath, SEPARATOR};
use crate::text::copy_range;

verus! {

/// Blanks, tabs and line ends: what is cut off both ends of a listed line.
pub open spec fn is_space(b: u8) -> bool {
    b == 0x20 || (0x09 <= b && b <= 0x0d)
}

/// `s` without the white space at its beginning.
pub open spec fn trim_start(s: Seq<u8>) -> Seq<u8>
    decreases s.len(),
{
    if s.len() > 0 && is_space(s[0]) {
        trim_start(s.drop_first())
    } else {
        s
    }
}

/// `s` without the white space at its end.
pub open spec fn trim_end(s: Seq<u8>) -> Seq<u8>
    decreases s.len(),
{
    if s.len() > 0 && is_space(s.last()) {
        trim_end(s.drop_last())
    } else {
        s
    }
}

/// `s` without every `./` at its beginning.
pub open spec fn strip_dot_slashes(s: Seq<u8>) -> Seq<u8>
    decreases s.len(),
{
    if s.len() >= 2 && s[0] == 0x2e && s[1] == SEPARATOR {
        strip_dot_slashes(s.subrange(2, s.len() as int))
    } else {
        s
    }
}

/// `s` without every `/` at its end.
pub open spec fn strip_trailing_slashes(s: Seq<u8>) -> Seq<u8>
    decreases s.len(),
{
    if s.len() > 0 && s.last() == SEPARATOR {
        strip_trailing_slashes(s.drop_last())
    } else {
        s
    }
}

/// The path text of a listed line: the line without the white space around
/// it, without `./` in front and without `/` behind.
pub open spec fn listed_text(line: Seq<u8>) -> Seq<u8> {
    strip_trailing_slashes(strip_dot_slashes(trim_end(trim_start(line))))
}

/// A listed line names a directory where, white space aside, it ends in `/`.
pub open spec fn listed_is_dir(line: Seq<u8>) -> bool {
    let t = trim_end(trim_start(line));
    t.len() > 0 && t.last() == SEPARATOR
}

/// The entry of a listed line; none for an absolute path.  The depth of the
/// entry is the number of components of its path.
pub open spec fn listed_entry(line: Seq<u8>) -> Option<FileEntryView> {
    let text = listed_text(line);
    if text.len() > 0 && text[0] == SEPARATOR {
        None
    } else {
        Some(
            FileEntryView {
                mode: if listed_is_dir(line) {
                    ObjectKind::Tree
                } else {
                    ObjectKind::File
                },
                path: path_components(text),
                depth: path_components(text).len(),
            },
        )
    }
}

/// Reads one line of a list of paths.
pub fn parse_listed_line(line: &[u8]) -> (r: Result<FileEntry, ReadContentError>)
    ensures
        match listed_entry(line@) {
            Some(e) => r matches Ok(entry) && entry@ == e,
            None => r == Err::<FileEntry, ReadContentError>(
                ReadContentError::AbsolutePathNotSupported,
            ),
        },
{
    let n = line.len();
    let mut start: usize = 0;
    assert(line@.subrange(0, n as int) =~= line@);
    while start < n && (line[start] == 0x20 || (0x09 <= line[start] && line[start] <= 0x0d))
        invariant
            start <= n == line.len(),
            trim_start(line@) == trim_start(line@.subrange(start as int, n as int)),
        decreases n - start,
    {
        assert(line@.subrange(start as int, n as int).drop_first() =~= line@.subrange(
            start + 1,
            n as int,
        ));
        start = start + 1;
    }
    assert(trim_start(line@) == line@.subrange(start as int, n as int));
    let mut end: usize = n;
    while end > start && (line[end - 1] == 0x20 || (0x09 <= line[end - 1] && line[end - 1]
        <= 0x0d))
        invariant
            start <= end <= n == line.len(),
            trim_end(trim_start(line@)) == trim_end(line@.subrange(start as int, end as int)),
        decreases end - start,
    {
        assert(line@.subrange(start as int, end as int).drop_last() =~= line@.subrange(
            start as int,
            end - 1,
        ));
        end = end - 1;
    }
    let ghost trimmed = line@.subrange(start as int, end as int);
    assert(trim_end(trim_start(line@)) == trimmed);
    let is_dir = end > start && line[end - 1] == SEPARATOR;
    assert(is_dir == listed_is_dir(line@));
    while end - start >= 2 && line[start] == 0x2e && line[start + 1] == SEPARATOR
        invariant
            start <= end <= n == line.len(),
            strip_dot_slashes(trimmed) == strip_dot_slashes(
                line@.subrange(start as int, end as int),
            ),
        decreases end - start,
    {
        assert(line@.subrange(start as int, end as int).subrange(2, end - start)
            =~= line@.subrange(start + 2, end as int));
        start = start + 2;
    }
    let ghost stripped = line@.subrange(start as int, end as int);
    assert(strip_dot_slashes(trimmed) == stripped);
    while end > start && line[end - 1] == SEPARATOR
        invariant
            start <= end <= n == line.len(),
            strip_trailing_slashes(stripped) == strip_trailing_slashes(
                line@.subrange(start as int, end as int),
            ),
        decreases end - start,
    {
        assert(line@.subrange(start as int, end as int).drop_last() =~= line@.subrange(
            start as int,
            end - 1,
        ));
        end = end - 1;
    }
    assert(listed_text(line@) == line@.subrange(start as int, end as int));
    if end > start && line[start] == SEPARATOR {
        return Err(ReadContentError::AbsolutePathNotSupported);
    }
    let text = copy_range(line, start, end);
    let path = RelativePath::from_bytes(text.as_slice());
    let depth = path.depth();
    let mode = if is_dir {
        ObjectKind::Tree
    } else {
        ObjectKind::File
    };
    Ok(FileEntry::new(mode, path, depth))
}

/// The entry of the root: a directory at depth 0.
pub open spec fn root_entry() -> FileEntryView {
    FileEntryView { mode: ObjectKind::Tree, path: Seq::empty(), depth: 0 }
}

/// The entries of the listed lines that the filter lets through, in the
/// order of the lines; none where a line names an absolute path.
pub open spec fn listed_entries<F: Filter>(filter: &F, lines: Seq<Seq<u8>>) -> Option<
    Seq<FileEntryView>,
>
    decreases lines.len(),
{
    if lines.len() == 0 {
        Some(Seq::empty())
    } else {
        match listed_entries(filter, lines.drop_last()) {
            None => None,
            Some(before) => match listed_entry(lines.last()) {
                None => None,
                Some(e) => if filter.matches(e.path) {
                    Some(before.push(e))
                } else {
                    Some(before)
                },
            },
        }
    }
}

/// Enumerates the target from a list of paths, one to a line.
pub struct FileTargetGenerator<F: Filter> {
    /// What decides which of the listed paths take part.
    pub filter: F,
    /// The name of the list; `-` stands for the standard input.
    pub input: Vec<u8>,
}

impl<F: Filter> FileTargetGenerator<F> {
    pub fn new(filter: F, input: Vec<u8>) -> (g: Self)
        ensures
            g.filter == filter,
            g.input == input,
    {
        Self { filter, input }
    }

    /// The entries of the lines of the list: a line that ends in `/` names a
    /// directory, any other a file; the entry of the root comes last.  A line
    /// with an absolute path stops the enumeration.
    pub fn generate(&self, lines: &Vec<Vec<u8>>) -> (r: Result<TargetEntries, ReadContentError>)
        ensures
            match listed_entries(&self.filter, crate::text::views(lines@)) {
                Some(es) => r matches Ok(t) && t@ == es.push(root_entry()),
                None => r matches Err(e) && e == ReadContentError::AbsolutePathNotSupported,
            },
    {
        let mut entries = TargetEntries::new();
        let mut i: usize = 0;
        let ghost all = crate::text::views(lines@);
        assert(all.take(0) =~= Seq::empty());
        while i < lines.len()
            invariant
                i <= lines.len(),
                all == crate::text::views(lines@),
                listed_entries(&self.filter, all.take(i as int)) == Some(entries@),
            decreases lines.len() - i,
        {
            assert(all.take(i + 1).drop_last() =~= all.take(i as int));
            assert(all.take(i + 1).last() == lines[i as int]@);
            match parse_listed_line(lines[i].as_slice()) {
                Err(e) => {
                    proof {
                        lemma_listed_entries_stop(&self.filter, all, i as int);
                    }
                    return Err(e);
                },
                Ok(entry) => {
                    if self.filter.path_matches(&entry.path) {
                        entries.push_file_entry(entry);
                    }
                },
            }
            i = i + 1;
        }
        assert(all.take(lines.len() as int) =~= all);
        entries.push_file_entry(FileEntry::new(ObjectKind::Tree, RelativePath::Root, 0));
        Ok(entries)
    }
}

/// What a walk of the directory found at one place.
#[derive(Debug, Clone, PartialEq, Eq)]
pub struct Walked {
    /// The path of the place, relative to the root of the walk.
    pub path: Vec<u8>,
    /// Whether a regular file is there.
    pub is_file: bool,
    /// Whether a directory is there.
    pub is_dir: bool,
}

/// The entry of a place of the walk: none for the root of the walk itself
/// and for what is neither a regular file nor a directory; else a directory
/// or a file at its path, with the number of its components as depth.
pub open spec fn walked_entry(path: Seq<u8>, is_file: bool, is_dir: bool) -> Option<
    FileEntryView,
> {
    if path_components(path).len() == 0 || (!is_file && !is_dir) {
        None
    } else {
        Some(
            FileEntryView {
                mode: if is_dir {
                    ObjectKind::Tree
                } else {
                    ObjectKind::File
                },
                path: path_components(path),
                depth: path_components(path).len(),
            },
        )
    }
}

/// The entries of the places that have one and that the filter lets
/// through, in the order of the walk.
pub open spec fn walked_entries<F: Filter>(filter: &F, walked: Seq<Walked>) -> Seq<FileEntryView>
    decreases walked.len(),
{
    if walked.len() == 0 {
        Seq::empty()
    } else {
        let before = walked_entries(filter, walked.drop_last());
        let w = walked.last();
        match walked_entry(w.path@, w.is_file, w.is_dir) {
            Some(e) => if filter.matches(e.path) {
                before.push(e)
            } else {
                before
            },
            None => before,
        }
    }
}

/// Enumerates the target from a walk of the directory.
pub struct ScanTargetGenerator<F: Filter> {
    /// What decides which of the places take part.
    pub filter: F,
    /// Whether the walk goes into hidden files and directories.
    pub hidden: bool,
}

impl<F: Filter> ScanTargetGenerator<F> {
    pub fn new(filter: F, hidden: bool) -> (g: Self)
        ensures
            g.filter == filter,
            g.hidden == hidden,
    {
        Self { filter, hidden }
    }

    /// Whether the walk goes on at the place with the given path: the
    /// filter decides.
    pub fn accepts(&self, path: &[u8]) -> (b: bool)
        ensures
            b == self.filter.matches(path_components(path@)),
    {
        let path = RelativePath::from_bytes(path);
        self.filter.path_matches(&path)
    }

    /// The entry of one place of the walk.
    pub fn entry_of(walked: &Walked) -> (r: Option<FileEntry>)
        ensures
            match walked_entry(walked.path@, walked.is_file, walked.is_dir) {
                Some(e) => r matches Some(entry) && entry@ == e,
                None => r is None,
            },
    {
        let path = RelativePath::from_bytes(walked.path.as_slice());
        if path.is_root() || (!walked.is_file && !walked.is_dir) {
            return None;
        }
        let mode = if walked.is_dir {
            ObjectKind::Tree
        } else {
            ObjectKind::File
        };
        let depth = path.depth();
        Some(FileEntry::new(mode, path, depth))
    }

    /// The entries of a walk: the entry of the root first, then the entries
    /// of the places, in the order of the walk.
    pub fn generate(&self, walked: &Vec<Walked>) -> (t: TargetEntries)
        ensures
            t@ == seq![root_entry()] + walked_entries(&self.filter, walked@),
    {
        let mut entries = TargetEntries::new();
        entries.push_file_entry(FileEntry::new(ObjectKind::Tree, RelativePath::Root, 0));
        let mut i: usize = 0;
        assert(walked@.take(0) =~= Seq::empty());
        assert(entries@ =~= seq![root_entry()] + walked_entries(&self.filter, walked@.take(0)));
        while i < walked.len()
            invariant
                i <= walked.len(),
                entries@ == seq![root_entry()] + walked_entries(
                    &self.filter,
                    walked@.take(i as int),
                ),
            decreases walked.len() - i,
        {
            assert(walked@.take(i + 1).drop_last() =~= walked@.take(i as int));
            let ghost before = walked_entries(&self.filter, walked@.take(i as int));
            match Self::entry_of(&walked[i]) {
                Some(entry) => {
                    if self.filter.path_matches(&entry.path) {
                        entries.push_file_entry(entry);
                        assert(entries@ =~= seq![root_entry()] + before.push(entry@));
                    }
                },
                None => {},
            }
            i = i + 1;
        }
        assert(walked@.take(walked.len() as int) =~= walked@);
        entries
    }
}

/// Every entry has the number of components of its path as depth.
pub open spec fn depths_fit(entries: Seq<FileEntryView>) -> bool {
    forall|i: int| 0 <= i < entries.len() ==> (#[trigger] entries[i]).depth == entries[i].path.len()
}

/// The entries of a walk have the depths of their paths.
pub proof fn lemma_walked_depths<F: Filter>(filter: &F, walked: Seq<Walked>)
    ensures
        depths_fit(walked_entries(filter, walked)),
        depths_fit(seq![root_entry()] + walked_entries(filter, walked)),
    decreases walked.len(),
{
    if walked.len() > 0 {
        lemma_walked_depths(filter, walked.drop_last());
        let before = walked_entries(filter, walked.drop_last());
        let all = walked_entries(filter, walked);
        assert forall|i: int| 0 <= i < all.len() implies (#[trigger] all[i]).depth
            == all[i].path.len() by {
            if i < before.len() {
                assert(all[i] == before[i]);
            }
        }
    }
    let all = walked_entries(filter, walked);
    let with_root = seq![root_entry()] + all;
    assert forall|i: int| 0 <= i < with_root.len() implies (#[trigger] with_root[i]).depth
        == with_root[i].path.len() by {
        if i > 0 {
            assert(with_root[i] == all[i - 1]);
        }
    }
}

/// The entries of a list of paths have the depths of their paths.
pub proof fn lemma_listed_depths<F: Filter>(filter: &F, lines: Seq<Seq<u8>>)
    ensures
        listed_entries(filter, lines) matches Some(es) ==> depths_fit(es) && depths_fit(
            es.push(root_entry()),
        ),
    decreases lines.len(),
{
    if lines.len() > 0 {
        lemma_listed_depths(filter, lines.drop_last());
    }
    match listed_entries(filter, lines) {
        Some(es) => {
            if lines.len() > 0 {
                let before = listed_entries(filter, lines.drop_last()).unwrap();
                assert forall|i: int| 0 <= i < es.len() implies (#[trigger] es[i]).depth
                    == es[i].path.len() by {
                    if i < before.len() {
                        assert(es[i] == before[i]);
                    }
                }
            }
            let with_root = es.push(root_entry());
            assert forall|i: int| 0 <= i < with_root.len() implies (#[trigger] with_root[i]).depth
                == with_root[i].path.len() by {
                if i < es.len() {
                    assert(with_root[i] == es[i]);
                }
            }
        },
        None => {},
    }
}

/// An absolute path among the first lines stops the whole list.
pub proof fn lemma_listed_entries_stop<F: Filter>(
    filter: &F,
    lines: Seq<Seq<u8>>,
    at: int,
)
    requires
        0 <= at < lines.len(),
        listed_entries(filter, lines.take(at + 1)) is None,
    ensures
        listed_entries(filter, lines) is None,
    decreases lines.len(),
{
    if at + 1 == lines.len() {
        assert(lines.take(at + 1) =~= lines);
    } else {
        assert(lines.drop_last().take(at + 1) =~= lines.take(at + 1));
        lemma_listed_entries_stop(filter, lines.drop_last(), at);
    }
}

} // verus!
