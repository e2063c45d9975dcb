//! What a change in the file system means for a library: whether it is scanned again, what its
//! readers are told, and which directories are watched.

use vstd::prelude::*;
use vstd::utf8::{decode_utf8, encode_utf8, valid_utf8};
use crate::assembly::{insert_path, path_views, paths_ascend};
use crate::catalog::{
    document_views, repository_views, Catalog, CatalogView, Document, DocumentView, Repository,
};
use crate::discovery::{hard_excluded, is_hard_excluded, is_markdown_extension, markdown_path};
use crate::markdown::{kind_of, kind_of_extension};
use crate::order::text_before;
use crate::paths::{byte_views, lies_beneath, path_extension, LibraryPath};
use crate::places::{last_extension, rest_in, split_steps, steps, strip_directory};
use crate::text::{
    bytes_eq, bytes_precede, lemma_bytes_strict_total, lemma_encoding_is_injective, lemma_lex_total,
    lemma_lex_transitive, text_eq, text_from_utf8, text_views,
};

verus! {

broadcast use vstd::string::group_string_axioms;

// ---------------------------------------------------------------------------
// Sets of text
// ---------------------------------------------------------------------------

/// Whether a list of texts is sorted, and holds none twice.
pub open spec fn texts_ascend(texts: Seq<Seq<char>>) -> bool {
    forall|i: int, j: int|
        0 <= i < j < texts.len() ==> text_before(#[trigger] texts[i], #[trigger] texts[j])
}

/// A set of texts, in order.
#[derive(Debug)]
pub struct TextSet {
    items: Vec<String>,
}

impl View for TextSet {
    type V = Set<Seq<char>>;

    closed spec fn view(&self) -> Set<Seq<char>> {
        text_views(self.items@).to_set()
    }
}

impl TextSet {
    /// The texts are sorted, and none is there twice.
    #[verifier::type_invariant]
    pub closed spec fn well_formed(&self) -> bool {
        texts_ascend(text_views(self.items@))
    }

    /// The empty set.
    #[must_use]
    pub fn new() -> (res: TextSet)
        ensures
            res@ == Set::<Seq<char>>::empty(),
    {
        let res: TextSet = TextSet { items: Vec::new() };
        assert(res@ =~= Set::<Seq<char>>::empty());
        res
    }

    /// Whether nothing is in the set.
    #[must_use]
    pub fn is_empty(&self) -> (res: bool)
        ensures
            res == (self@ == Set::<Seq<char>>::empty()),
    {
        proof {
            let texts = text_views(self.items@);
            if texts.len() > 0 {
                assert(texts.contains(texts[0]));
                assert(self@.contains(texts[0]));
            } else {
                assert(self@ =~= Set::<Seq<char>>::empty());
            }
        }
        self.items.len() == 0
    }

    /// The texts of the set, in order.
    #[must_use]
    pub fn items(&self) -> (res: &[String])
        ensures
            texts_ascend(text_views(res@)),
            text_views(res@).to_set() == self@,
    {
        proof {
            use_type_invariant(self);
        }
        self.items.as_slice()
    }

    /// The texts of the set, in order.
    #[must_use]
    pub fn into_items(self) -> (res: Vec<String>)
        ensures
            texts_ascend(text_views(res@)),
            text_views(res@).to_set() == self@,
    {
        proof {
            use_type_invariant(&self);
        }
        self.items
    }

    /// The set with a text in it.
    #[must_use]
    pub fn with(self, text: String) -> (res: TextSet)
        ensures
            res@ == self@.insert(text@),
    {
        proof {
            use_type_invariant(&self);
        }
        let mut items: Vec<String> = self.items;
        let ghost before = text_views(items@);
        let mut at: usize = 0;
        while at < items.len() && bytes_precede(items[at].as_str().as_bytes(), text.as_str().as_bytes())
            invariant
                at <= items@.len(),
                before == text_views(items@),
                forall|j: int| 0 <= j < at ==> text_before(#[trigger] before[j], text@),
            decreases items@.len() - at,
        {
            assert(before[at as int] == items@[at as int]@);
            at += 1;
        }
        proof {
            if at < items@.len() {
                assert(before[at as int] == items@[at as int]@);
                assert(!text_before(before[at as int], text@));
            }
        }
        if at < items.len() && text_eq(items[at].as_str(), text.as_str()) {
            proof {
                assert(before[at as int] == text@);
                assert(before.contains(text@));
                assert(before.to_set() =~= before.to_set().insert(text@));
            }
            return TextSet { items };
        }
        let ghost value = text@;
        items.insert(at, text);
        proof {
            assert(text_views(items@) =~= before.insert(at as int, value));
            lemma_inserted(before, at as int, value);
        }
        TextSet { items }
    }

    /// The set with the texts of another in it.
    #[must_use]
    pub fn joined_with(self, other: &TextSet) -> (res: TextSet)
        ensures
            res@ == self@.union(other@),
    {
        let texts: &[String] = other.items();
        let ghost all = text_views(texts@);
        let ghost start = self@;
        let mut res: TextSet = self;
        let mut i: usize = 0;
        proof {
            assert(all.take(0).to_set() =~= Set::empty());
            assert(start.union(Set::empty()) =~= start);
        }
        while i < texts.len()
            invariant
                i <= texts.len(),
                all == text_views(texts@),
                res@ == start.union(all.take(i as int).to_set()),
            decreases texts.len() - i,
        {
            res = res.with(texts[i].as_str().to_owned());
            proof {
                lemma_take_set(all, i as int);
                assert(start.union(all.take(i as int).to_set()).insert(all[i as int])
                    =~= start.union(all.take(i + 1).to_set()));
            }
            i += 1;
        }
        assert(all.take(i as int) =~= all);
        res
    }
}

/// One text more is one member more.
proof fn lemma_take_set(all: Seq<Seq<char>>, i: int)
    requires
        0 <= i < all.len(),
    ensures
        all.take(i + 1).to_set() == all.take(i).to_set().insert(all[i]),
{
    let more = all.take(i + 1);
    let less = all.take(i);
    assert forall|t: Seq<char>| more.to_set().contains(t) <==> less.to_set().insert(
        all[i],
    ).contains(t) by {
        if more.contains(t) {
            let k = choose|k: int| 0 <= k < more.len() && more[k] == t;
            if k < i {
                assert(less[k] == t);
            }
        }
        if less.contains(t) {
            let k = choose|k: int| 0 <= k < less.len() && less[k] == t;
            assert(more[k] == t);
        }
        assert(more[i] == all[i]);
    }
    assert(more.to_set() =~= less.to_set().insert(all[i]));
}

/// A text put at its place keeps a list sorted.
proof fn lemma_inserted(before: Seq<Seq<char>>, at: int, text: Seq<char>)
    requires
        texts_ascend(before),
        0 <= at <= before.len(),
        forall|j: int| 0 <= j < at ==> text_before(#[trigger] before[j], text),
        at < before.len() ==> !text_before(before[at], text) && before[at] != text,
    ensures
        texts_ascend(before.insert(at, text)),
        before.insert(at, text).to_set() == before.to_set().insert(text),
{
    let after = before.insert(at, text);
    lemma_bytes_strict_total();
    assert forall|j: int| at <= j < before.len() implies text_before(text, #[trigger] before[j]) by {
        lemma_lex_total(encode_utf8(before[at]), encode_utf8(text), crate::text::byte_lt());
        lemma_encoding_is_injective(before[at], text);
        assert(text_before(text, before[at]));
        if j > at {
            assert(text_before(before[at], before[j]));
            lemma_lex_transitive(
                encode_utf8(text),
                encode_utf8(before[at]),
                encode_utf8(before[j]),
                crate::text::byte_lt(),
            );
        }
    }
    assert forall|i: int, j: int| 0 <= i < j < after.len() implies text_before(
        #[trigger] after[i],
        #[trigger] after[j],
    ) by {
        if i < at && j < at {
            assert(text_before(before[i], before[j]));
        } else if i < at && j > at {
            assert(text_before(before[i], before[j - 1]));
        } else if i > at {
            assert(text_before(before[i - 1], before[j - 1]));
        } else if i == at {
            assert(text_before(text, before[j - 1]));
        }
    }
    assert forall|t: Seq<char>| after.to_set().contains(t) <==> before.to_set().insert(
        text,
    ).contains(t) by {
        if after.contains(t) {
            let k = choose|k: int| 0 <= k < after.len() && after[k] == t;
            if k < at {
                assert(before[k] == t);
            } else if k > at {
                assert(before[k - 1] == t);
            }
        }
        if before.contains(t) {
            let k = choose|k: int| 0 <= k < before.len() && before[k] == t;
            if k < at {
                assert(after[k] == t);
            } else {
                assert(after[k + 1] == t);
            }
        }
        assert(after[at] == text);
    }
    assert(after.to_set() =~= before.to_set().insert(text));
}

// ---------------------------------------------------------------------------
// Events
// ---------------------------------------------------------------------------

/// What happened in the file system, as far as it matters.
#[derive(Clone, Copy, Debug, PartialEq, Eq, Structural)]
pub enum ChangeKind {
    /// Something was only looked at.
    Access,
    /// A directory was made or taken away.
    Folder,
    /// Something was renamed.
    Rename,
    /// Anything else.
    Other,
}

/// A path that changed, and whether a directory is there now.
#[derive(Debug)]
pub struct ChangedPath {
    pub path: Vec<u8>,
    pub is_directory: bool,
}

/// A change in the file system.
#[derive(Debug)]
pub struct WatchEvent {
    pub kind: ChangeKind,
    pub paths: Vec<ChangedPath>,
}

/// Whether a path is that of the private ignore rules of a repository.
pub open spec fn git_exclude(path: Seq<Seq<u8>>) -> bool {
    let n = path.len();
    &&& n >= 3
    &&& path[n - 3] == encode_utf8(".git"@)
    &&& path[n - 2] == encode_utf8("info"@)
    &&& path[n - 1] == encode_utf8("exclude"@)
}

/// Whether a path leads through a directory that is never entered.
pub open spec fn inside_hard_excluded(path: Seq<Seq<u8>>) -> bool {
    exists|i: int| 0 <= i < path.len() && hard_excluded(#[trigger] path[i])
}

/// Whether a path is that of a file with ignore rules.
pub open spec fn ignore_file(path: Seq<Seq<u8>>) -> bool {
    path.len() > 0 && (path.last() == encode_utf8(".gitignore"@) || path.last() == encode_utf8(
        ".ignore"@,
    ))
}

/// Whether a name is a word.
fn is_name(name: &[u8], word: &str) -> (res: bool)
    ensures
        res == (name@ == encode_utf8(word@)),
{
    bytes_eq(name, word.as_bytes())
}

/// Whether a path is that of the private ignore rules of a repository.
#[must_use]
pub fn is_git_exclude(path: &[u8]) -> (res: bool)
    ensures
        res == git_exclude(steps(path@)),
{
    let names: Vec<Vec<u8>> = split_steps(path);
    let n: usize = names.len();
    let ghost all = steps(path@);
    assert(n >= 3 ==> all[n - 3] == names@[n - 3]@ && all[n - 2] == names@[n - 2]@ && all[n - 1]
        == names@[n - 1]@);
    n >= 3 && is_name(names[n - 3].as_slice(), ".git") && is_name(names[n - 2].as_slice(), "info")
        && is_name(names[n - 1].as_slice(), "exclude")
}

/// Whether a path leads through a directory that is never entered.
#[must_use]
pub fn is_inside_hard_excluded(path: &[u8]) -> (res: bool)
    ensures
        res == inside_hard_excluded(steps(path@)),
{
    let names: Vec<Vec<u8>> = split_steps(path);
    let ghost all = steps(path@);
    let mut i: usize = 0;
    while i < names.len()
        invariant
            i <= names.len(),
            all == steps(path@),
            all == byte_views(names@),
            forall|j: int| 0 <= j < i ==> !hard_excluded(#[trigger] all[j]),
        decreases names.len() - i,
    {
        assert(all[i as int] == names@[i as int]@);
        if is_hard_excluded(names[i].as_slice()) {
            assert(hard_excluded(all[i as int]));
            return true;
        }
        i += 1;
    }
    false
}

/// Whether the last step of a path is a word.
fn ends_with_name(path: &[u8], word: &str) -> (res: bool)
    ensures
        res == (steps(path@).len() > 0 && steps(path@).last() == encode_utf8(word@)),
{
    let names: Vec<Vec<u8>> = split_steps(path);
    assert(names.len() > 0 ==> steps(path@).last() == names@[names@.len() - 1]@);
    names.len() > 0 && is_name(names[names.len() - 1].as_slice(), word)
}

/// Whether a path is that of a file with ignore rules.
#[must_use]
pub fn is_ignore_file(path: &[u8]) -> (res: bool)
    ensures
        res == ignore_file(steps(path@)),
{
    ends_with_name(path, ".gitignore") || ends_with_name(path, ".ignore")
}

/// Whether a path has one of the extensions of Markdown.
#[must_use]
pub fn is_markdown(path: &[u8]) -> (res: bool)
    ensures
        res == markdown_path(steps(path@)),
{
    match last_extension(path) {
        Some(extension) => is_markdown_extension(extension.as_slice()),
        None => false,
    }
}

/// Whether a path is that of an image or an attachment.
fn is_asset(path: &[u8]) -> (res: bool)
    ensures
        res == (kind_of(steps(path@)) is Some),
{
    match last_extension(path) {
        Some(extension) => kind_of_extension(extension.as_slice()).is_some(),
        None => false,
    }
}

/// Whether a change may have moved a whole directory.
pub open spec fn moves_directory(
    kind: ChangeKind,
    path: Seq<Seq<u8>>,
    is_directory: bool,
) -> bool {
    kind == ChangeKind::Folder || (kind == ChangeKind::Rename && (is_directory || path_extension(
        path,
    ) is None))
}

/// Whether a change at a path calls for a new scan: where documents, ignore rules, directories or
/// repositories may have changed. What happens in a directory that is never entered does not
/// count, but for the directory of a repository itself and its private ignore rules.
pub open spec fn calls_for_scan(
    kind: ChangeKind,
    path: Seq<Seq<u8>>,
    is_directory: bool,
) -> bool {
    if git_exclude(path) {
        true
    } else if inside_hard_excluded(path) {
        path.last() == encode_utf8(".git"@)
    } else {
        moves_directory(kind, path, is_directory) || ignore_file(path) || markdown_path(path)
    }
}

/// Whether a change at the rest of a path concerns a document.
pub open spec fn concerns_document(rest: Seq<u8>) -> bool {
    let path = steps(rest);
    !git_exclude(path) && !inside_hard_excluded(path) && !ignore_file(path) && markdown_path(path)
        && valid_utf8(rest)
}

/// Whether a change at the rest of a path concerns an image or an attachment.
pub open spec fn concerns_asset(rest: Seq<u8>) -> bool {
    let path = steps(rest);
    !git_exclude(path) && !inside_hard_excluded(path) && !ignore_file(path) && !markdown_path(path)
        && kind_of(path) is Some && valid_utf8(rest)
}

/// What has changed since the readers were last told.
#[derive(Debug)]
pub struct PendingChanges {
    pub rescan: bool,
    pub documents: TextSet,
    pub assets: TextSet,
}

/// What has changed.
pub struct ChangesView {
    pub rescan: bool,
    pub documents: Set<Seq<char>>,
    pub assets: Set<Seq<char>>,
}

impl View for PendingChanges {
    type V = ChangesView;

    open spec fn view(&self) -> ChangesView {
        ChangesView { rescan: self.rescan, documents: self.documents@, assets: self.assets@ }
    }
}

/// No change.
pub open spec fn no_changes() -> ChangesView {
    ChangesView { rescan: false, documents: Set::empty(), assets: Set::empty() }
}

/// What the first `n` paths of an event change. Readers are told of what leads from the root of the
/// library to a path, written as it is.
pub open spec fn event_changes(root: Seq<u8>, event: WatchEvent, n: int) -> ChangesView
    decreases n,
{
    if n <= 0 {
        no_changes()
    } else {
        let before = event_changes(root, event, n - 1);
        let changed = event.paths@[n - 1];
        match rest_in(root, changed.path@) {
            None => before,
            Some(rest) => ChangesView {
                rescan: before.rescan || calls_for_scan(
                    event.kind,
                    steps(rest),
                    changed.is_directory,
                ),
                documents: if concerns_document(rest) {
                    before.documents.insert(decode_utf8(rest))
                } else {
                    before.documents
                },
                assets: if concerns_asset(rest) {
                    before.assets.insert(decode_utf8(rest))
                } else {
                    before.assets
                },
            },
        }
    }
}

/// What an event changes in a library. That something was looked at changes nothing.
pub open spec fn changes_of(root: Seq<u8>, event: WatchEvent) -> ChangesView {
    if event.kind == ChangeKind::Access {
        no_changes()
    } else {
        event_changes(root, event, event.paths@.len() as int)
    }
}

/// Two lots of changes in one.
pub open spec fn changes_together(a: ChangesView, b: ChangesView) -> ChangesView {
    ChangesView {
        rescan: a.rescan || b.rescan,
        documents: a.documents.union(b.documents),
        assets: a.assets.union(b.assets),
    }
}

impl PendingChanges {
    /// No change.
    #[must_use]
    pub fn none() -> (res: PendingChanges)
        ensures
            res@ == no_changes(),
    {
        PendingChanges { rescan: false, documents: TextSet::new(), assets: TextSet::new() }
    }

    /// Whether nothing has changed.
    #[must_use]
    pub fn is_empty(&self) -> (res: bool)
        ensures
            res == (self@ == no_changes()),
    {
        !self.rescan && self.documents.is_empty() && self.assets.is_empty()
    }

    /// These changes and others.
    #[must_use]
    pub fn merged(self, changes: &PendingChanges) -> (res: PendingChanges)
        ensures
            res@ == changes_together(self@, changes@),
    {
        PendingChanges {
            rescan: self.rescan || changes.rescan,
            documents: self.documents.joined_with(&changes.documents),
            assets: self.assets.joined_with(&changes.assets),
        }
    }
}

/// What an event changes in a library.
#[must_use]
pub fn classify_event(root: &[u8], event: &WatchEvent) -> (res: PendingChanges)
    ensures
        res@ == changes_of(root@, *event),
{
    let mut rescan: bool = false;
    let mut documents: TextSet = TextSet::new();
    let mut assets: TextSet = TextSet::new();
    if let ChangeKind::Access = event.kind {
        return PendingChanges { rescan, documents, assets };
    }
    let mut i: usize = 0;
    while i < event.paths.len()
        invariant
            i <= event.paths.len(),
            event.kind != ChangeKind::Access,
            event_changes(root@, *event, i as int) == (ChangesView {
                rescan,
                documents: documents@,
                assets: assets@,
            }),
        decreases event.paths.len() - i,
    {
        let changed: &ChangedPath = &event.paths[i];
        i += 1;
        let rest: Vec<u8> = match strip_directory(root, changed.path.as_slice()) {
            Some(rest) => rest,
            None => {
                continue;
            },
        };
        let relative: &[u8] = rest.as_slice();
        if is_git_exclude(relative) {
            rescan = true;
            continue;
        }
        if is_inside_hard_excluded(relative) {
            if ends_with_name(relative, ".git") {
                rescan = true;
            }
            continue;
        }
        let directory: bool = match event.kind {
            ChangeKind::Folder => true,
            ChangeKind::Rename => changed.is_directory || last_extension(relative).is_none(),
            _ => false,
        };
        if directory || is_ignore_file(relative) || is_markdown(relative) {
            rescan = true;
        }
        if is_ignore_file(relative) {
            continue;
        }
        let text: Option<&str> = text_from_utf8(relative);
        if is_markdown(relative) {
            if let Some(text) = text {
                documents = documents.with(text.to_owned());
            }
        } else if is_asset(relative) {
            if let Some(text) = text {
                assets = assets.with(text.to_owned());
            }
        }
    }
    PendingChanges { rescan, documents, assets }
}

// ---------------------------------------------------------------------------
// Telling the readers
// ---------------------------------------------------------------------------

/// What came of a new scan.
#[derive(Clone, Copy, Debug, PartialEq, Eq, Structural)]
pub enum RescanOutcome {
    Failed,
    Unchanged,
    Changed,
}

/// What came of a new scan that did not fail: whether the documents or the repositories of the
/// library are others now.
pub open spec fn outcome_of(before: CatalogView, after: CatalogView) -> RescanOutcome {
    if before.documents == after.documents && before.repositories == after.repositories {
        RescanOutcome::Unchanged
    } else {
        RescanOutcome::Changed
    }
}

/// What came of a new scan that did not fail.
#[must_use]
pub fn rescan_outcome(before: &Catalog, after: &Catalog) -> (res: RescanOutcome)
    ensures
        res == outcome_of(before@, after@),
{
    if same_documents(before.documents(), after.documents()) && same_repositories(
        before.repositories(),
        after.repositories(),
    ) {
        RescanOutcome::Unchanged
    } else {
        RescanOutcome::Changed
    }
}

/// Whether two lists hold the same documents.
fn same_documents(a: &[Document], b: &[Document]) -> (res: bool)
    ensures
        res == (document_views(a@) == document_views(b@)),
{
    let ghost (x, y) = (document_views(a@), document_views(b@));
    if a.len() != b.len() {
        assert(x.len() != y.len());
        return false;
    }
    let mut i: usize = 0;
    while i < a.len()
        invariant
            i <= a.len(),
            a.len() == b.len(),
            x == document_views(a@),
            y == document_views(b@),
            forall|j: int| 0 <= j < i ==> x[j] == y[j],
        decreases a.len() - i,
    {
        if !a[i].equals(&b[i]) {
            assert(x[i as int] != y[i as int]);
            return false;
        }
        i += 1;
    }
    assert(x =~= y);
    true
}

/// Whether two lists hold the same repositories.
fn same_repositories(a: &[Repository], b: &[Repository]) -> (res: bool)
    ensures
        res == (repository_views(a@) == repository_views(b@)),
{
    let ghost (x, y) = (repository_views(a@), repository_views(b@));
    if a.len() != b.len() {
        assert(x.len() != y.len());
        return false;
    }
    let mut i: usize = 0;
    while i < a.len()
        invariant
            i <= a.len(),
            a.len() == b.len(),
            x == repository_views(a@),
            y == repository_views(b@),
            forall|j: int| 0 <= j < i ==> x[j] == y[j],
        decreases a.len() - i,
    {
        if !a[i].equals(&b[i]) {
            assert(x[i as int] != y[i as int]);
            return false;
        }
        i += 1;
    }
    assert(x =~= y);
    true
}

/// What the readers are told.
#[derive(Debug, PartialEq, Eq)]
pub enum ReloadEvent {
    Catalog,
    Documents(Vec<String>),
    Asset(Vec<String>),
}

/// Whether an event tells of exactly the texts of a set, in order.
pub open spec fn tells_of(texts: Seq<String>, set: Set<Seq<char>>) -> bool {
    texts_ascend(text_views(texts)) && text_views(texts).to_set() == set
}

/// Whether events tell the readers of documents and assets that changed: of each kind at once,
/// and of none that did not change.
pub open spec fn tells_of_changes(events: Seq<ReloadEvent>, changes: ChangesView) -> bool {
    let documents = changes.documents != Set::<Seq<char>>::empty();
    let assets = changes.assets != Set::<Seq<char>>::empty();
    let d: int = if documents {
        1
    } else {
        0
    };
    let a: int = if assets {
        1
    } else {
        0
    };
    &&& events.len() == d + a
    &&& documents ==> (events[0] matches ReloadEvent::Documents(texts) && tells_of(
        texts@,
        changes.documents,
    ))
    &&& assets ==> (events[d] matches ReloadEvent::Asset(texts) && tells_of(
        texts@,
        changes.assets,
    ))
}

/// Whether events are what the readers are told of changes, given what came of the scan where one
/// was called for: nothing where it failed, that the library changed where it did, and else which
/// documents and assets did.
pub open spec fn tells_readers(
    events: Seq<ReloadEvent>,
    changes: ChangesView,
    outcome: RescanOutcome,
) -> bool {
    if changes.rescan && outcome == RescanOutcome::Failed {
        events.len() == 0
    } else if changes.rescan && outcome == RescanOutcome::Changed {
        events == seq![ReloadEvent::Catalog]
    } else {
        tells_of_changes(events, changes)
    }
}

/// What the readers are told of changes.
#[must_use]
pub fn reload_events(changes: PendingChanges, outcome: RescanOutcome) -> (res: Vec<ReloadEvent>)
    ensures
        tells_readers(res@, changes@, outcome),
{
    let mut events: Vec<ReloadEvent> = Vec::new();
    if changes.rescan {
        match outcome {
            RescanOutcome::Failed => {
                return events;
            },
            RescanOutcome::Changed => {
                events.push(ReloadEvent::Catalog);
                assert(events@ =~= seq![ReloadEvent::Catalog]);
                return events;
            },
            RescanOutcome::Unchanged => {},
        }
    }
    if !changes.documents.is_empty() {
        events.push(ReloadEvent::Documents(changes.documents.into_items()));
    }
    if !changes.assets.is_empty() {
        events.push(ReloadEvent::Asset(changes.assets.into_items()));
    }
    events
}

// ---------------------------------------------------------------------------
// Watched directories
// ---------------------------------------------------------------------------

/// Whether a directory is on the way to a document.
pub open spec fn leads_to_document(documents: Seq<DocumentView>, directory: Seq<Seq<u8>>) -> bool {
    exists|i: int|
        #![trigger documents[i]]
        0 <= i < documents.len() && directory.len() < documents[i].path.len() && lies_beneath(
            documents[i].path,
            directory,
        )
}

impl Catalog {
    /// The directories to watch, in order and each once: the root of the library and every
    /// directory on the way to a document.
    #[must_use]
    pub fn watch_directories(&self) -> (res: Vec<LibraryPath>)
        ensures
            paths_ascend(path_views(res@)),
            forall|p: Seq<Seq<u8>>| #[trigger]
                path_views(res@).contains(p) <==> p.len() == 0 || leads_to_document(
                    self@.documents,
                    p,
                ),
    {
        let ghost all = self@.documents;
        let documents: &[Document] = self.documents();
        let mut res: Vec<LibraryPath> = vec![LibraryPath::empty()];
        proof {
            assert(path_views(res@)[0] =~= Seq::<Seq<u8>>::empty());
            assert forall|p: Seq<Seq<u8>>| #[trigger] path_views(res@).contains(p) <==> p.len()
                == 0 by {
                if p.len() == 0 {
                    assert(p =~= path_views(res@)[0]);
                }
            }
        }
        let mut i: usize = 0;
        while i < documents.len()
            invariant
                i <= documents.len(),
                all == self@.documents,
                all == document_views(documents@),
                paths_ascend(path_views(res@)),
                forall|p: Seq<Seq<u8>>| #[trigger]
                    path_views(res@).contains(p) <==> p.len() == 0 || leads_to_document(
                        all.take(i as int),
                        p,
                    ),
            decreases documents.len() - i,
        {
            let ghost path = documents@[i as int]@.path;
            let ghost before = path_views(res@);
            let mut at: LibraryPath = documents[i].relative_path.clone();
            proof {
                assert(all[i as int] == documents@[i as int]@);
                assert(path.take(path.len() as int) =~= path);
            }
            while !at.is_empty()
                invariant
                    at@.len() <= path.len(),
                    at@ == path.take(at@.len() as int),
                    paths_ascend(path_views(res@)),
                    forall|p: Seq<Seq<u8>>| #[trigger]
                        path_views(res@).contains(p) <==> before.contains(p) || (at@.len()
                            <= p.len() < path.len() && lies_beneath(path, p)),
                decreases at@.len(),
            {
                if let Some(directory) = at.parent() {
                    insert_path(&mut res, &directory);
                    proof {
                        let depth = directory@.len() as int;
                        assert(path.take(depth + 1).drop_last() =~= path.take(depth));
                    }
                    at = directory;
                }
            }
            proof {
                lemma_one_more_document(all, i as int);
            }
            i += 1;
        }
        assert(all.take(i as int) =~= all);
        res
    }
}

/// The directories on the way to the first documents, and to the next.
proof fn lemma_one_more_document(documents: Seq<DocumentView>, at: int)
    requires
        0 <= at < documents.len(),
    ensures
        forall|p: Seq<Seq<u8>>| #[trigger]
            leads_to_document(documents.take(at + 1), p) <==> leads_to_document(
                documents.take(at),
                p,
            ) || (p.len() < documents[at].path.len() && lies_beneath(documents[at].path, p)),
{
    let before = documents.take(at);
    let after = documents.take(at + 1);
    assert forall|p: Seq<Seq<u8>>| #[trigger]
        leads_to_document(after, p) <==> leads_to_document(before, p) || (p.len()
            < documents[at].path.len() && lies_beneath(documents[at].path, p)) by {
        assert(after[at] == documents[at]);
        if leads_to_document(before, p) {
            let k = choose|k: int|
                #![trigger before[k]]
                0 <= k < before.len() && p.len() < before[k].path.len() && lies_beneath(
                    before[k].path,
                    p,
                );
            assert(after[k] == before[k]);
        }
        if leads_to_document(after, p) {
            let k = choose|k: int|
                #![trigger after[k]]
                0 <= k < after.len() && p.len() < after[k].path.len() && lies_beneath(
                    after[k].path,
                    p,
                );
            if k < at {
                assert(before[k] == after[k]);
            }
        }
    }
}

/// What is to be done so that the right directories are watched.
#[derive(Debug)]
pub struct WatchPlan {
    pub kept: Vec<LibraryPath>,
    pub removed: Vec<LibraryPath>,
    pub added: Vec<LibraryPath>,
}

/// Whether a path is in a list.
fn holds_path(paths: &[LibraryPath], path: &LibraryPath) -> (res: bool)
    ensures
        res == path_views(paths@).contains(path@),
{
    let ghost views = path_views(paths@);
    let mut i: usize = 0;
    while i < paths.len()
        invariant
            i <= paths.len(),
            views == path_views(paths@),
            forall|j: int| 0 <= j < i ==> views[j] != path@,
        decreases paths.len() - i,
    {
        assert(views[i as int] == paths@[i as int]@);
        if paths[i].equals(path) {
            assert(views.contains(path@));
            return true;
        }
        i += 1;
    }
    false
}

/// The paths of one list that are, or are not, in another.
fn paths_in(paths: &[LibraryPath], others: &[LibraryPath], wanted: bool) -> (res: Vec<LibraryPath>)
    ensures
        path_views(res@) == path_views(paths@).filter(
            |path: Seq<Seq<u8>>| path_views(others@).contains(path) == wanted,
        ),
{
    let ghost views = path_views(paths@);
    let ghost chosen = |path: Seq<Seq<u8>>| path_views(others@).contains(path) == wanted;
    let mut res: Vec<LibraryPath> = Vec::new();
    let mut i: usize = 0;
    proof {
        reveal(Seq::filter);
        assert(path_views(res@) =~= views.take(0).filter(chosen));
    }
    while i < paths.len()
        invariant
            i <= paths.len(),
            views == path_views(paths@),
            chosen == (|path: Seq<Seq<u8>>| path_views(others@).contains(path) == wanted),
            path_views(res@) == views.take(i as int).filter(chosen),
        decreases paths.len() - i,
    {
        let ghost before = res@;
        proof {
            reveal(Seq::filter);
            assert(views.take(i + 1).drop_last() =~= views.take(i as int));
            assert(views.take(i + 1).last() == paths@[i as int]@);
        }
        if holds_path(others, &paths[i]) == wanted {
            res.push(paths[i].clone());
            assert(path_views(res@) =~= path_views(before).push(paths@[i as int]@));
        }
        i += 1;
    }
    assert(views.take(i as int) =~= views);
    res
}

/// The desired paths that are not watched yet, each once.
pub open spec fn new_paths(watched: Seq<Seq<Seq<u8>>>, desired: Seq<Seq<Seq<u8>>>) -> Seq<
    Seq<Seq<u8>>,
>
    decreases desired.len(),
{
    if desired.len() == 0 {
        Seq::empty()
    } else {
        let before = new_paths(watched, desired.drop_last());
        if watched.contains(desired.last()) || before.contains(desired.last()) {
            before
        } else {
            before.push(desired.last())
        }
    }
}

/// The desired paths that are not watched yet, each once.
fn paths_to_add(watched: &[LibraryPath], desired: &[LibraryPath]) -> (res: Vec<LibraryPath>)
    ensures
        path_views(res@) == new_paths(path_views(watched@), path_views(desired@)),
{
    let ghost views = path_views(desired@);
    let mut res: Vec<LibraryPath> = Vec::new();
    let mut i: usize = 0;
    assert(path_views(res@) =~= new_paths(path_views(watched@), views.take(0)));
    while i < desired.len()
        invariant
            i <= desired.len(),
            views == path_views(desired@),
            path_views(res@) == new_paths(path_views(watched@), views.take(i as int)),
        decreases desired.len() - i,
    {
        let ghost before = res@;
        proof {
            assert(views.take(i + 1).drop_last() =~= views.take(i as int));
            assert(views.take(i + 1).last() == desired@[i as int]@);
        }
        if !holds_path(watched, &desired[i]) && !holds_path(res.as_slice(), &desired[i]) {
            res.push(desired[i].clone());
            assert(path_views(res@) =~= path_views(before).push(desired@[i as int]@));
        }
        i += 1;
    }
    assert(views.take(i as int) =~= views);
    res
}

/// What is to be done so that exactly the desired directories are watched: those watched already
/// are kept, those no longer desired are removed, the others are added, each once.
#[must_use]
pub fn reconcile_watches(watched: &[LibraryPath], desired: &[LibraryPath]) -> (res: WatchPlan)
    ensures
        path_views(res.kept@) == path_views(watched@).filter(
            |path: Seq<Seq<u8>>| path_views(desired@).contains(path) == true,
        ),
        path_views(res.removed@) == path_views(watched@).filter(
            |path: Seq<Seq<u8>>| path_views(desired@).contains(path) == false,
        ),
        path_views(res.added@) == new_paths(path_views(watched@), path_views(desired@)),
{
    WatchPlan {
        kept: paths_in(watched, desired, true),
        removed: paths_in(watched, desired, false),
        added: paths_to_add(watched, desired),
    }
}

} // verus!
