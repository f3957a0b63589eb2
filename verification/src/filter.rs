//! Filters: which paths take part in a build.

use ignore::gitignore::{Gitignore, GitignoreBuilder};
use vstd::prelude::*;

use crate::path::{is_path_text, is_prefix, join_text, RelativePath};
use crate::text::bytes_eq;

verus! {

/// The name of the repository directory, `.mtl`.
pub open spec fn mtl_dir() -> Seq<u8> {
    seq![0x2eu8, 0x6du8, 0x74u8, 0x6cu8]
}

/// The name of the directory of the version control system, `.git`.
pub open spec fn git_dir() -> Seq<u8> {
    seq![0x2eu8, 0x67u8, 0x69u8, 0x74u8]
}

/// Decides which paths take part in a build.
pub trait Filter: Send + Sync {
    /// The paths that the filter lets through.
    spec fn matches(&self, path: Seq<Seq<u8>>) -> bool;

    /// The name of the directory at which the paths are anchored.
    spec fn anchor(&self) -> Seq<u8>;

    /// The directory at which the paths are anchored, as the bytes of its name.
    fn root(&self) -> (r: &[u8])
        ensures
            r@ == self.anchor(),
    ;

    /// Whether `path` takes part.
    fn path_matches(&self, path: &RelativePath) -> (b: bool)
        ensures
            b == self.matches(path@),
    ;
}

/// Lets every path through but those of the repository directory and of the
/// version control system.
#[derive(Clone, Debug)]
pub struct MatchAllFilter(pub Vec<u8>);

impl MatchAllFilter {
    pub fn new(root: Vec<u8>) -> (f: Self)
        ensures
            f.0 == root,
    {
        Self(root)
    }
}

impl Filter for MatchAllFilter {
    /// A path takes part unless it is `.mtl` or `.git` or lies below one of
    /// them: unless its first component is one of the two names.
    open spec fn matches(&self, path: Seq<Seq<u8>>) -> bool {
        !(path.len() > 0 && (path[0] == mtl_dir() || path[0] == git_dir()))
    }

    open spec fn anchor(&self) -> Seq<u8> {
        self.0@
    }

    fn root(&self) -> (r: &[u8]) {
        self.0.as_slice()
    }

    fn path_matches(&self, path: &RelativePath) -> (b: bool) {
        let mtl: Vec<u8> = vec![0x2eu8, 0x6du8, 0x74u8, 0x6cu8];
        let git: Vec<u8> = vec![0x2eu8, 0x67u8, 0x69u8, 0x74u8];
        assert(mtl@ =~= mtl_dir());
        assert(git@ =~= git_dir());
        match path.first_name() {
            Some(name) => !bytes_eq(name.as_slice(), mtl.as_slice()) && !bytes_eq(
                name.as_slice(),
                git.as_slice(),
            ),
            None => true,
        }
    }
}

/// Lets through what lies on or under a target path, and the directories
/// above the target, so that the trees on the way down are still built.
#[derive(Clone, Debug)]
pub struct PathFilter {
    pub root: Vec<u8>,
    pub target: RelativePath,
}

impl PathFilter {
    pub fn new(root: Vec<u8>, target: RelativePath) -> (f: Self)
        ensures
            f.root == root,
            f.target == target,
    {
        Self { root, target }
    }
}

impl Filter for PathFilter {
    /// With the root as target every path takes part.  Else a path takes part
    /// if it is the target or lies below it, or if it is a directory above the
    /// target, the root itself left out.
    open spec fn matches(&self, path: Seq<Seq<u8>>) -> bool {
        self.target@.len() == 0 || (path.len() > 0 && is_prefix(path, self.target@)) || is_prefix(
            self.target@,
            path,
        )
    }

    open spec fn anchor(&self) -> Seq<u8> {
        self.root@
    }

    fn root(&self) -> (r: &[u8]) {
        self.root.as_slice()
    }

    fn path_matches(&self, path: &RelativePath) -> (b: bool) {
        if self.target.is_root() {
            return true;
        }
        if path.is_path() && self.target.starts_with(path) {
            return true;
        }
        path.starts_with(&self.target)
    }
}

/// A component that marks a path as hidden: it begins with a dot and is not
/// the name `..` of the directory above.
pub open spec fn hidden_component(c: Seq<u8>) -> bool {
    c.len() > 0 && c[0] == 0x2e && c != seq![0x2eu8, 0x2eu8]
}

/// A path is hidden where one of its components is.
pub open spec fn hidden(path: Seq<Seq<u8>>) -> bool {
    exists|i: int| 0 <= i < path.len() && hidden_component(#[trigger] path[i])
}

/// Whether one of the components of `path` marks it as hidden.
pub fn is_hidden(path: &RelativePath) -> (b: bool)
    ensures
        b == hidden(path@),
{
    let mut rest = path.clone();
    while rest.is_path()
        invariant
            hidden(path@) == hidden(rest@),
            rest@.len() <= path@.len(),
        decreases rest@.len(),
    {
        let ghost before = rest@;
        let name = rest.file_name();
        let c = name.unwrap();
        let is_parent = c.len() == 2 && c[0] == 0x2e && c[1] == 0x2e;
        assert(is_parent == (c@ =~= seq![0x2eu8, 0x2eu8]));
        if c.len() > 0 && c[0] == 0x2e && !is_parent {
            assert(hidden_component(before[before.len() - 1]));
            return true;
        }
        rest = rest.parent();
        proof {
            if hidden(before) {
                let i = choose|i: int| 0 <= i < before.len() && hidden_component(#[trigger] before[i]);
                assert(rest@[i] == before[i]);
            }
            if hidden(rest@) {
                let i = choose|i: int| 0 <= i < rest@.len() && hidden_component(#[trigger] rest@[i]);
                assert(rest@[i] == before[i]);
            }
        }
    }
    false
}

/// Whether the rules `lines`, read as the lines of an ignore file that lies
/// in `root`, ignore `path` or a directory above it.
pub uninterp spec fn gitignore_ignores(root: Seq<u8>, lines: Seq<Seq<char>>, path: Seq<u8>) -> bool;

/// The texts that a vector of strings holds.
pub open spec fn line_views(lines: Seq<String>) -> Seq<Seq<char>> {
    Seq::new(lines.len(), |i: int| lines[i]@)
}

/// Builds a matcher with `ignore::gitignore::GitignoreBuilder` from `lines`
/// (a line that is no valid rule is left out, as the builder does for a
/// file) and asks it with `Gitignore::matched_path_or_any_parents` whether
/// `path`, taken as a directory, is ignored.  Both byte strings are handed
/// over as text, bytes that are not UTF-8 replaced.  The matcher panics on a
/// path with a root, so `path` must be the text of a relative path.
#[verifier::external_body]
fn ignored_by_rules(root: &[u8], lines: &Vec<String>, path: &[u8]) -> (ignored: bool)
    requires
        is_path_text(path@),
    ensures
        ignored == gitignore_ignores(root@, line_views(lines@), path@),
{
    let mut builder = GitignoreBuilder::new(String::from_utf8_lossy(root).as_ref());
    for line in lines.iter() {
        let _ = builder.add_line(None, line);
    }
    let matcher = builder.build().unwrap_or(Gitignore::empty());
    let path = String::from_utf8_lossy(path);
    matcher.matched_path_or_any_parents(path.as_ref(), true).is_ignore()
}

/// Applies the rules of ignore files, and leaves hidden paths out unless
/// they are asked for.
#[derive(Clone, Debug)]
pub struct IgnoreFilter {
    root: Vec<u8>,
    lines: Vec<String>,
    hidden: bool,
}

impl IgnoreFilter {
    /// A filter anchored at `root` with the rules `lines`, the lines of the
    /// ignore files of `root`.  Two rules are added behind them: `.git/` and
    /// `.mtl/`.  With `hidden` set, hidden paths take part too.
    pub fn new(root: Vec<u8>, lines: Vec<String>, hidden: bool) -> (f: Self)
        ensures
            f.root_bytes() == root@,
            f.shows_hidden() == hidden,
            f.rules() == line_views(lines@).push(".git/"@).push(".mtl/"@),
    {
        let mut all = lines;
        let ghost given = line_views(all@);
        all.push(".git/".to_owned());
        all.push(".mtl/".to_owned());
        assert(line_views(all@) =~= given.push(".git/"@).push(".mtl/"@));
        Self { root, lines: all, hidden }
    }

    /// The rules of the filter, in their order.
    pub closed spec fn rules(&self) -> Seq<Seq<char>> {
        line_views(self.lines@)
    }

    /// The bytes of the name of the directory at which the filter is anchored.
    pub closed spec fn root_bytes(&self) -> Seq<u8> {
        self.root@
    }

    /// Whether hidden paths take part.
    pub closed spec fn shows_hidden(&self) -> bool {
        self.hidden
    }
}

impl Filter for IgnoreFilter {
    /// A path takes part unless it is hidden while hidden paths are left
    /// out, or the rules ignore it or a directory above it.
    open spec fn matches(&self, path: Seq<Seq<u8>>) -> bool {
        !(!self.shows_hidden() && hidden(path)) && !gitignore_ignores(
            self.root_bytes(),
            self.rules(),
            join_text(path),
        )
    }

    open spec fn anchor(&self) -> Seq<u8> {
        self.root_bytes()
    }

    fn root(&self) -> (r: &[u8]) {
        self.root.as_slice()
    }

    fn path_matches(&self, path: &RelativePath) -> (b: bool) {
        if !self.hidden && is_hidden(path) {
            return false;
        }
        let text = path.as_path();
        !ignored_by_rules(self.root.as_slice(), &self.lines, text.as_slice())
    }
}

} // verus!
