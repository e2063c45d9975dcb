//! A walk through a library, step by step.

use vstd::prelude::*;
use vstd::utf8::valid_utf8;
use crate::assembly::WalkEntry;
use crate::discovery::{
    is_markdown_entry, markdown_entry, nearest_repository_root, repository_search, search_up,
    Boundaries, RootSearch, RootSearchView,
};
use crate::paths::{lies_beneath, no_nul, ordinary, written, LibraryPath};

verus! {

/// The path that a step of the walk came to.
pub open spec fn entry_path(entry: WalkEntry) -> Option<Seq<Seq<u8>>> {
    match entry {
        WalkEntry::Failure { error, message } => None,
        WalkEntry::Entry { kind, path, contents } => Some(path@),
    }
}

/// Whether two paths can be those of two files: neither lies at or beneath the other.
pub open spec fn apart(a: Seq<Seq<u8>>, b: Seq<Seq<u8>>) -> bool {
    !lies_beneath(a, b) && !lies_beneath(b, a)
}

/// The value of a walk: what it came to, and which directories it knows to be repositories or not.
pub struct WalkView {
    pub entries: Seq<WalkEntry>,
    pub known: Map<Seq<Seq<u8>>, bool>,
}

/// Whether it is known which repository a document belongs to, if any.
pub open spec fn settled(path: Seq<Seq<u8>>, known: Map<Seq<Seq<u8>>, bool>) -> bool {
    !(repository_search(path, known) is Unknown)
}

/// Whether a step is one of a walk through files: it comes to a Markdown file, with names as files
/// have them, and it is known which repository the file belongs to if its path is UTF-8.
pub open spec fn sound_step(entry: WalkEntry, known: Map<Seq<Seq<u8>>, bool>) -> bool {
    entry matches WalkEntry::Entry { kind, path, contents } ==> markdown_entry(kind, path@)
        && ordinary(path@) && no_nul(path@) && (valid_utf8(written(path@)) ==> settled(path@, known))
}

/// What holds of every walk. It keeps the Markdown files only, comes to none twice, and finds
/// nothing beneath a file.
pub open spec fn sound(walk: WalkView) -> bool {
    &&& forall|i: int|
        0 <= i < walk.entries.len() ==> sound_step(#[trigger] walk.entries[i], walk.known)
    &&& forall|i: int, j: int|
        0 <= i < j < walk.entries.len() ==> steps_apart(
            #[trigger] walk.entries[i],
            #[trigger] walk.entries[j],
        )
}

/// Whether two steps came to two files, if they came to files.
pub open spec fn steps_apart(a: WalkEntry, b: WalkEntry) -> bool {
    entry_path(a) matches Some(p) ==> (entry_path(b) matches Some(q) ==> apart(p, q))
}

/// Whether a walk takes a step: it takes every failure, and every Markdown file that it did not
/// come to before and of which it knows the repository.
pub open spec fn takes(walk: WalkView, entry: WalkEntry) -> bool {
    sound_step(entry, walk.known) && forall|i: int|
        0 <= i < walk.entries.len() ==> steps_apart(#[trigger] walk.entries[i], entry)
}

/// A walk through a library: the Markdown files and the failures it came to, and what it knows of
/// the directories above the files.
pub struct Walk {
    entries: Vec<WalkEntry>,
    boundaries: Boundaries,
}

impl View for Walk {
    type V = WalkView;

    closed spec fn view(&self) -> WalkView {
        WalkView { entries: self.entries@, known: self.boundaries@ }
    }
}

impl Walk {
    /// What holds of every walk.
    #[verifier::type_invariant]
    pub open spec fn well_formed(&self) -> bool {
        sound(self@)
    }

    /// A walk that has not begun.
    #[must_use]
    pub fn new() -> (res: Walk)
        ensures
            res@.entries == Seq::<WalkEntry>::empty(),
            res@.known == Map::<Seq<Seq<u8>>, bool>::empty(),
    {
        Walk { entries: Vec::new(), boundaries: Boundaries::new() }
    }

    /// The steps of the walk.
    #[must_use]
    pub fn entries(&self) -> (res: &Vec<WalkEntry>)
        ensures
            res@ == self@.entries,
    {
        &self.entries
    }

    /// What the walk knows of directories.
    #[must_use]
    pub fn boundaries(&self) -> (res: &Boundaries)
        ensures
            res@ == self@.known,
    {
        &self.boundaries
    }

    /// The directory that has to be looked at before it is known which repository a document
    /// belongs to, if there is one.
    #[must_use]
    pub fn question(&self, document: &LibraryPath) -> (res: Option<LibraryPath>)
        ensures
            match repository_search(document@, self@.known) {
                RootSearchView::Unknown(directory) => res matches Some(asked) && asked@
                    == directory,
                _ => res is None,
            },
    {
        match nearest_repository_root(document, &self.boundaries) {
            RootSearch::Unknown(directory) => Some(directory),
            _ => None,
        }
    }

    /// The walk, with whether a directory is a repository. The first answer counts.
    #[must_use]
    pub fn with_finding(self, directory: LibraryPath, is_repository: bool) -> (res: Walk)
        ensures
            res@.entries == self@.entries,
            res@.known == (if self@.known.dom().contains(directory@) {
                self@.known
            } else {
                self@.known.insert(directory@, is_repository)
            }),
    {
        proof {
            use_type_invariant(&self);
        }
        if self.boundaries.get(&directory).is_some() {
            return self;
        }
        let ghost before = self@;
        let entries: Vec<WalkEntry> = self.entries;
        let mut boundaries: Boundaries = self.boundaries;
        proof {
            let known = before.known.insert(directory@, is_repository);
            assert forall|i: int| 0 <= i < before.entries.len() implies sound_step(
                #[trigger] before.entries[i],
                known,
            ) by {
                assert(sound_step(before.entries[i], before.known));
                if let Some(path) = entry_path(before.entries[i]) {
                    lemma_still_settled(path, before.known, directory@, is_repository);
                }
            }
        }
        boundaries.insert(directory, is_repository);
        Walk { entries, boundaries }
    }

    /// The walk, with one step more if it takes it.
    #[must_use]
    pub fn with_step(self, entry: WalkEntry) -> (res: Walk)
        ensures
            res@.known == self@.known,
            res@.entries == (if takes(self@, entry) {
                self@.entries.push(entry)
            } else {
                self@.entries
            }),
    {
        proof {
            use_type_invariant(&self);
        }
        if !self.can_take(&entry) {
            return self;
        }
        let ghost before = self@;
        let mut entries: Vec<WalkEntry> = self.entries;
        entries.push(entry);
        let boundaries: Boundaries = self.boundaries;
        proof {
            let all = entries@;
            assert forall|i: int| 0 <= i < all.len() implies sound_step(
                #[trigger] all[i],
                before.known,
            ) by {
                if i < before.entries.len() {
                    assert(all[i] == before.entries[i]);
                }
            }
            assert forall|i: int, j: int| 0 <= i < j < all.len() implies steps_apart(
                #[trigger] all[i],
                #[trigger] all[j],
            ) by {
                assert(all[i] == before.entries[i]);
                if j < before.entries.len() {
                    assert(all[j] == before.entries[j]);
                }
            }
        }
        Walk { entries, boundaries }
    }

    /// Whether the walk takes a step.
    fn can_take(&self, entry: &WalkEntry) -> (res: bool)
        ensures
            res == takes(self@, *entry),
    {
        match entry {
            WalkEntry::Failure { error: _, message: _ } => true,
            WalkEntry::Entry { kind, path, contents: _ } => {
                proof {
                    use_type_invariant(path);
                }
                if !is_markdown_entry(*kind, path) || path.holds_nul() || (path.is_utf8()
                    && self.question(path).is_some()) {
                    assert(!sound_step(*entry, self@.known));
                    return false;
                }
                let mut i: usize = 0;
                while i < self.entries.len()
                    invariant
                        i <= self.entries@.len(),
                        entry_path(*entry) == Some(path@),
                        forall|j: int|
                            0 <= j < i ==> steps_apart(#[trigger] self.entries@[j], *entry),
                    decreases self.entries@.len() - i,
                {
                    if let WalkEntry::Entry { kind: _, path: other, contents: _ } =
                        &self.entries[i] {
                        if path.starts_with(other) || other.starts_with(path) {
                            assert(!steps_apart(self.entries@[i as int], *entry));
                            assert(self@.entries[i as int] == self.entries@[i as int]);
                            return false;
                        }
                    }
                    i += 1;
                }
                true
            },
        }
    }
}

/// What is known of a document stays known when more is learned.
proof fn lemma_still_settled(
    path: Seq<Seq<u8>>,
    known: Map<Seq<Seq<u8>>, bool>,
    directory: Seq<Seq<u8>>,
    is_repository: bool,
)
    requires
        !known.dom().contains(directory),
    ensures
        settled(path, known) ==> settled(path, known.insert(directory, is_repository)),
{
    if path.len() > 0 {
        lemma_still_found(path.drop_last(), known, directory, is_repository);
    }
}

proof fn lemma_still_found(
    from: Seq<Seq<u8>>,
    known: Map<Seq<Seq<u8>>, bool>,
    directory: Seq<Seq<u8>>,
    is_repository: bool,
)
    requires
        !known.dom().contains(directory),
    ensures
        !(search_up(from, known) is Unknown) ==> search_up(
            from,
            known.insert(directory, is_repository),
        ) == search_up(from, known),
    decreases from.len(),
{
    if known.dom().contains(from) && !known[from] && from.len() > 0 {
        lemma_still_found(from.drop_last(), known, directory, is_repository);
    }
}

} // verus!
