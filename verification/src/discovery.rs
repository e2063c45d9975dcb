//! What the walk through a library looks at: which entries are documents, which directories are
//! passed over, and where a repository begins.

use vstd::prelude::*;
use vstd::utf8::encode_utf8;
use crate::paths::{lies_beneath, path_extension, LibraryPath};
use crate::text::{
    begins_with, bytes_eq_ignore_case, chars_of, lower_bytes, slice_begins_with, text_of,
    trimmed_end_of,
};

verus! {

broadcast use vstd::string::group_string_axioms;

/// The largest `.git` file that is read.
pub const MAX_GITFILE_BYTES: u64 = 4096;

/// Whether bytes spell a word, the case of ASCII letters aside.
pub open spec fn spells(bytes: Seq<u8>, word: Seq<char>) -> bool {
    lower_bytes(bytes) == lower_bytes(encode_utf8(word))
}

/// Whether bytes spell a word, the case of ASCII letters aside.
pub fn spells_word(bytes: &[u8], word: &str) -> (res: bool)
    ensures
        res == spells(bytes@, word@),
{
    bytes_eq_ignore_case(bytes, word.as_bytes())
}

// ---------------------------------------------------------------------------
// Entries
// ---------------------------------------------------------------------------

/// Whether an extension is one of those of Markdown, in any case.
pub open spec fn markdown_extension(extension: Seq<u8>) -> bool {
    spells(extension, "md"@) || spells(extension, "markdown"@)
}

/// Whether a path has one of the extensions of Markdown, in any case.
pub open spec fn markdown_path(path: Seq<Seq<u8>>) -> bool {
    path_extension(path) matches Some(extension) && markdown_extension(extension)
}

/// Whether an extension is one of those of Markdown.
pub(crate) fn is_markdown_extension(extension: &[u8]) -> (res: bool)
    ensures
        res == markdown_extension(extension@),
{
    spells_word(extension, "md") || spells_word(extension, "markdown")
}

/// Whether a path has one of the extensions of Markdown.
pub fn is_markdown_path(path: &LibraryPath) -> (res: bool)
    ensures
        res == markdown_path(path@),
{
    match path.extension() {
        Some(extension) => is_markdown_extension(extension),
        None => false,
    }
}

/// Whether a directory name is that of a dependency or build cache, in any case.
pub open spec fn hard_excluded(name: Seq<u8>) -> bool {
    ||| spells(name, ".git"@)
    ||| spells(name, "target"@)
    ||| spells(name, "node_modules"@)
    ||| spells(name, ".venv"@)
    ||| spells(name, ".direnv"@)
    ||| spells(name, "vendor"@)
}

/// Whether a directory is never entered.
pub fn is_hard_excluded(name: &[u8]) -> (res: bool)
    ensures
        res == hard_excluded(name@),
{
    spells_word(name, ".git") || spells_word(name, "target") || spells_word(name, "node_modules")
        || spells_word(name, ".venv") || spells_word(name, ".direnv") || spells_word(name, "vendor")
}

/// Whether the walk goes on with an entry: always with the root, with anything that is not a
/// directory, and with every directory that is not excluded.
pub open spec fn kept_entry(depth: nat, is_directory: bool, name: Seq<u8>) -> bool {
    depth == 0 || !is_directory || !hard_excluded(name)
}

/// Whether the walk goes on with an entry.
pub fn keeps_entry(depth: usize, is_directory: bool, name: &[u8]) -> (res: bool)
    ensures
        res == kept_entry(depth as nat, is_directory, name@),
{
    depth == 0 || !is_directory || !is_hard_excluded(name)
}

/// What kind of entry the walk has come to.
#[derive(Clone, Copy, Debug, PartialEq, Eq, Structural)]
pub enum EntryKind {
    Directory,
    File,
    Other,
}

/// Whether an entry is a Markdown file.
pub open spec fn markdown_entry(kind: EntryKind, path: Seq<Seq<u8>>) -> bool {
    kind == EntryKind::File && markdown_path(path)
}

/// Whether an entry is a Markdown file.
pub fn is_markdown_entry(kind: EntryKind, path: &LibraryPath) -> (res: bool)
    ensures
        res == markdown_entry(kind, path@),
{
    match kind {
        EntryKind::File => is_markdown_path(path),
        _ => false,
    }
}

// ---------------------------------------------------------------------------
// Walk errors
// ---------------------------------------------------------------------------

/// An error of the walk, as far as the path it is about matters.
pub enum WalkError {
    Partial(Vec<WalkError>),
    WithLineNumber(Box<WalkError>),
    WithDepth(Box<WalkError>),
    WithPath(Vec<u8>),
    Loop { child: Vec<u8> },
    Other,
}

/// The path that an error is about.
pub open spec fn error_path(error: WalkError) -> Option<Seq<u8>>
    decreases error,
{
    match error {
        WalkError::Partial(errors) => first_error_path(errors@),
        WalkError::WithLineNumber(inner) => error_path(*inner),
        WalkError::WithDepth(inner) => error_path(*inner),
        WalkError::WithPath(path) => Some(path@),
        WalkError::Loop { child } => Some(child@),
        WalkError::Other => None,
    }
}

/// The path that the first of several errors with a path is about.
pub open spec fn first_error_path(errors: Seq<WalkError>) -> Option<Seq<u8>>
    decreases errors,
{
    if errors.len() == 0 {
        None
    } else {
        match error_path(errors[0]) {
            Some(path) => Some(path),
            None => first_error_path(errors.drop_first()),
        }
    }
}

/// The path that an error is about: its own, or that of the first error in it that has one.
pub fn ignore_error_path(error: &WalkError) -> (res: Option<Vec<u8>>)
    ensures
        res is Some <==> error_path(*error) is Some,
        res matches Some(path) ==> Some(path@) == error_path(*error),
    decreases error,
{
    match error {
        WalkError::Partial(errors) => {
            let mut i: usize = 0;
            assert(errors@.skip(0) =~= errors@);
            while i < errors.len()
                invariant
                    i <= errors@.len(),
                    error == WalkError::Partial(*errors),
                    first_error_path(errors@) == first_error_path(errors@.skip(i as int)),
                decreases errors@.len() - i,
            {
                let ghost rest = errors@.skip(i as int);
                assert(rest[0] == errors@[i as int]);
                assert(rest.drop_first() =~= errors@.skip(i + 1));
                let found: Option<Vec<u8>> = ignore_error_path(&errors[i]);
                if found.is_some() {
                    return found;
                }
                i += 1;
            }
            None
        },
        WalkError::WithLineNumber(inner) => ignore_error_path(inner),
        WalkError::WithDepth(inner) => ignore_error_path(inner),
        WalkError::WithPath(path) => Some(crate::text::copy_of(path.as_slice())),
        WalkError::Loop { child } => Some(crate::text::copy_of(child.as_slice())),
        WalkError::Other => None,
    }
}

// ---------------------------------------------------------------------------
// Git boundaries
// ---------------------------------------------------------------------------

/// What stands under the name `.git` in a directory.
#[derive(Clone, Copy, Debug, PartialEq, Eq, Structural)]
pub enum GitMarker {
    Absent,
    Directory,
    File { bytes: u64 },
    Other,
}

/// What is to be looked at next to tell whether a directory is a repository.
#[derive(Clone, Copy, Debug, PartialEq, Eq, Structural)]
pub enum GitProbe {
    /// It is none.
    NoRepository,
    /// The `.git` directory itself must hold a `HEAD`.
    AdminDirectory,
    /// The `.git` file names the directory that must hold a `HEAD`.
    Gitfile,
}

/// What to look at after a `.git` entry: a directory is looked into, a small file is read.
pub open spec fn git_probe(marker: GitMarker) -> GitProbe {
    match marker {
        GitMarker::Absent => GitProbe::NoRepository,
        GitMarker::Directory => GitProbe::AdminDirectory,
        GitMarker::File { bytes } => if bytes <= MAX_GITFILE_BYTES {
            GitProbe::Gitfile
        } else {
            GitProbe::NoRepository
        },
        GitMarker::Other => GitProbe::NoRepository,
    }
}

/// What to look at after a `.git` entry.
pub fn probe_git_marker(marker: GitMarker) -> (res: GitProbe)
    ensures
        res == git_probe(marker),
{
    match marker {
        GitMarker::Absent => GitProbe::NoRepository,
        GitMarker::Directory => GitProbe::AdminDirectory,
        GitMarker::File { bytes } => if bytes <= MAX_GITFILE_BYTES {
            GitProbe::Gitfile
        } else {
            GitProbe::NoRepository
        },
        GitMarker::Other => GitProbe::NoRepository,
    }
}

/// The characters of line ends, as a predicate.
pub open spec fn is_line_end() -> spec_fn(char) -> bool {
    |c: char| c == '\r' || c == '\n'
}

/// The directory that a `.git` file points to: what follows `gitdir: ` on its one line.
pub open spec fn gitfile_target(contents: Seq<char>) -> Option<Seq<char>> {
    if begins_with(contents, "gitdir: "@) {
        let target = trimmed_end_of(contents.skip("gitdir: "@.len() as int), is_line_end());
        if target.len() > 0 && forall|i: int|
            0 <= i < target.len() ==> !is_line_end()(#[trigger] target[i]) {
            Some(target)
        } else {
            None
        }
    } else {
        None
    }
}

/// Removes line ends at the end.
fn trim_line_end(s: &[char]) -> (res: &[char])
    ensures
        res@ == trimmed_end_of(s@, is_line_end()),
{
    let mut n: usize = s.len();
    while n > 0 && (s[n - 1] == '\r' || s[n - 1] == '\n')
        invariant
            n <= s@.len(),
            forall|j: int| n <= j < s@.len() ==> is_line_end()(#[trigger] s@[j]),
        decreases n,
    {
        n -= 1;
    }
    proof {
        crate::text::lemma_trimmed_end_is(s@, is_line_end(), n as int);
        assert(s@.subrange(0, n as int) =~= s@.take(n as int));
    }
    vstd::slice::slice_subrange(s, 0, n)
}

/// The directory that the contents of a `.git` file point to.
pub fn parse_gitfile(contents: &str) -> (res: Option<String>)
    ensures
        res is Some <==> gitfile_target(contents@) is Some,
        res matches Some(target) ==> Some(target@) == gitfile_target(contents@),
{
    let chars: Vec<char> = chars_of(contents);
    let prefix: Vec<char> = chars_of("gitdir: ");
    if !slice_begins_with(chars.as_slice(), prefix.as_slice()) {
        return None;
    }
    let rest: &[char] = vstd::slice::slice_subrange(chars.as_slice(), prefix.len(), chars.len());
    assert(rest@ =~= contents@.skip("gitdir: "@.len() as int));
    let target: &[char] = trim_line_end(rest);
    let mut i: usize = 0;
    while i < target.len()
        invariant
            i <= target@.len(),
            begins_with(contents@, "gitdir: "@),
            target@ == trimmed_end_of(contents@.skip("gitdir: "@.len() as int), is_line_end()),
            forall|j: int| 0 <= j < i ==> !is_line_end()(#[trigger] target@[j]),
        decreases target@.len() - i,
    {
        if target[i] == '\r' || target[i] == '\n' {
            assert(is_line_end()(target@[i as int]));
            return None;
        }
        i += 1;
    }
    if target.len() == 0 {
        None
    } else {
        Some(text_of(target))
    }
}

// ---------------------------------------------------------------------------
// The nearest repository
// ---------------------------------------------------------------------------

/// What is known of one directory.
pub struct Boundary {
    pub directory: LibraryPath,
    pub is_repository: bool,
}

/// What is known of the directories looked at so far.
pub struct Boundaries {
    entries: Vec<Boundary>,
}

/// What a list of findings says: the last word on a directory counts.
pub open spec fn findings(entries: Seq<Boundary>) -> Map<Seq<Seq<u8>>, bool>
    decreases entries.len(),
{
    if entries.len() == 0 {
        Map::empty()
    } else {
        findings(entries.drop_last()).insert(entries.last().directory@, entries.last().is_repository)
    }
}

impl View for Boundaries {
    type V = Map<Seq<Seq<u8>>, bool>;

    closed spec fn view(&self) -> Map<Seq<Seq<u8>>, bool> {
        findings(self.entries@)
    }
}

impl Boundaries {
    /// Nothing is known yet.
    pub fn new() -> (res: Boundaries)
        ensures
            res@ == Map::<Seq<Seq<u8>>, bool>::empty(),
    {
        Boundaries { entries: Vec::new() }
    }

    /// Notes whether a directory is a repository.
    pub fn insert(&mut self, directory: LibraryPath, is_repository: bool)
        ensures
            final(self)@ == old(self)@.insert(directory@, is_repository),
    {
        let ghost before = self.entries@;
        self.entries.push(Boundary { directory, is_repository });
        assert(self.entries@.drop_last() =~= before);
    }

    /// Whether a directory is a repository, if that is known.
    pub fn get(&self, directory: &LibraryPath) -> (res: Option<bool>)
        ensures
            res == (if self@.dom().contains(directory@) {
                Some(self@[directory@])
            } else {
                None
            }),
    {
        let mut n: usize = self.entries.len();
        assert(self.entries@.take(n as int) =~= self.entries@);
        while n > 0
            invariant
                n <= self.entries@.len(),
                self@ == findings(self.entries@),
                self@.dom().contains(directory@) == findings(
                    self.entries@.take(n as int),
                ).dom().contains(directory@),
                self@.dom().contains(directory@) ==> self@[directory@] == findings(
                    self.entries@.take(n as int),
                )[directory@],
            decreases n,
        {
            let ghost known = self.entries@.take(n as int);
            assert(known.drop_last() =~= self.entries@.take(n - 1));
            assert(known.last() == self.entries@[n - 1]);
            n -= 1;
            if self.entries[n].directory.equals(directory) {
                return Some(self.entries[n].is_repository);
            }
        }
        None
    }
}

/// Where the search for the repository of a document stands.
pub enum RootSearch {
    /// The document belongs to the repository with this root.
    Repository(LibraryPath),
    /// The document belongs to no repository.
    Loose,
    /// It has to be found out whether this directory is a repository.
    Unknown(LibraryPath),
}

/// The value of a search.
pub enum RootSearchView {
    Repository(Seq<Seq<u8>>),
    Loose,
    Unknown(Seq<Seq<u8>>),
}

impl View for RootSearch {
    type V = RootSearchView;

    open spec fn view(&self) -> RootSearchView {
        match self {
            RootSearch::Repository(root) => RootSearchView::Repository(root@),
            RootSearch::Loose => RootSearchView::Loose,
            RootSearch::Unknown(directory) => RootSearchView::Unknown(directory@),
        }
    }
}

/// The search upwards from a directory to the library root.
pub open spec fn search_up(
    directory: Seq<Seq<u8>>,
    known: Map<Seq<Seq<u8>>, bool>,
) -> RootSearchView
    decreases directory.len(),
{
    if !known.dom().contains(directory) {
        RootSearchView::Unknown(directory)
    } else if known[directory] {
        RootSearchView::Repository(directory)
    } else if directory.len() == 0 {
        RootSearchView::Loose
    } else {
        search_up(directory.drop_last(), known)
    }
}

/// The search for the repository of a document, from its directory upwards.
pub open spec fn repository_search(
    document: Seq<Seq<u8>>,
    known: Map<Seq<Seq<u8>>, bool>,
) -> RootSearchView {
    if document.len() == 0 {
        RootSearchView::Loose
    } else {
        search_up(document.drop_last(), known)
    }
}

/// Searches for the repository of a document among what is known. Where a directory on the way
/// is not known, the answer is to look at it first.
pub fn nearest_repository_root(document: &LibraryPath, boundaries: &Boundaries) -> (res: RootSearch)
    ensures
        res@ == repository_search(document@, boundaries@),
{
    let mut current: LibraryPath = match document.parent() {
        Some(parent) => parent,
        None => {
            return RootSearch::Loose;
        },
    };
    loop
        invariant
            repository_search(document@, boundaries@) == search_up(current@, boundaries@),
        decreases current@.len(),
    {
        match boundaries.get(&current) {
            None => {
                return RootSearch::Unknown(current);
            },
            Some(true) => {
                return RootSearch::Repository(current);
            },
            Some(false) => {},
        }
        current = match current.parent() {
            Some(parent) => parent,
            None => {
                return RootSearch::Loose;
            },
        };
    }
}

/// A document belongs to the nearest repository above it: the one found holds the document, and
/// no directory between it and the document is a repository. A document is loose only where no
/// directory above it is a repository.
pub proof fn law_repository_is_the_nearest(
    document: Seq<Seq<u8>>,
    known: Map<Seq<Seq<u8>>, bool>,
    n: int,
)
    requires
        0 <= n < document.len(),
    ensures
        repository_search(document, known) matches RootSearchView::Repository(root) ==> {
            &&& lies_beneath(document.drop_last(), root)
            &&& known.dom().contains(root) && known[root]
            &&& n > root.len() ==> known.dom().contains(document.take(n)) && !known[document.take(
                n,
            )]
        },
        repository_search(document, known) is Loose ==> known.dom().contains(document.take(n))
            && !known[document.take(n)],
{
    lemma_search_up(document.drop_last(), known, n);
    assert(document.drop_last().take(n) =~= document.take(n));
}

proof fn lemma_search_up(directory: Seq<Seq<u8>>, known: Map<Seq<Seq<u8>>, bool>, n: int)
    requires
        0 <= n <= directory.len(),
    ensures
        search_up(directory, known) matches RootSearchView::Repository(root) ==> {
            &&& lies_beneath(directory, root)
            &&& known.dom().contains(root) && known[root]
            &&& n > root.len() ==> known.dom().contains(directory.take(n)) && !known[directory.take(
                n,
            )]
        },
        search_up(directory, known) is Loose ==> known.dom().contains(directory.take(n))
            && !known[directory.take(n)],
    decreases directory.len(),
{
    assert(directory.take(directory.len() as int) =~= directory);
    if known.dom().contains(directory) && !known[directory] && directory.len() > 0 {
        let above = directory.drop_last();
        if n < directory.len() {
            lemma_search_up(above, known, n);
            assert(above.take(n) =~= directory.take(n));
        } else {
            lemma_search_up(above, known, 0);
        }
        match search_up(above, known) {
            RootSearchView::Repository(root) => {
                assert(above.take(root.len() as int) =~= directory.take(root.len() as int));
            },
            _ => {},
        }
    }
}

} // verus!
