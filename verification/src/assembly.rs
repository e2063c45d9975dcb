//! From the steps of a walk to the parts of a catalog.

use vstd::prelude::*;
use vstd::utf8::{decode_utf8, valid_utf8};
use crate::catalog::{
    grouped, collections, diagnostic_views, directory_text, document_views, is_collection,
    member_before, names_of, repository_name, repository_stands, repository_views, shares_name,
    text_view, CatalogDiagnostic, CatalogMode, CatalogView, DiagnosticView, Document, DocumentId,
    DocumentView, Repository, RepositoryId, RepositoryView,
};
use crate::discovery::{
    error_path, ignore_error_path, is_markdown_entry, markdown_entry, markdown_path,
    nearest_repository_root, repository_search, Boundaries, EntryKind, RootSearch, RootSearchView,
    WalkError,
};
use crate::order::{key_views, sorted_positions, stable_order, stands_before, SortKey, SortKeyView};
use crate::paths::{
    byte_views, components, lemma_path_order, path_before, split_components, written,
    LibraryPath,
};
use crate::reading::{
    choose_default_document, chosen_document, collection_keys, default_document_sort_key, path_key,
    path_sort_key,
};
use crate::text::{ascii_lowercase, lower_text, text_eq, text_from_utf8};
use crate::titles::{file_stem_title, read_title, stem_title, title_in};

verus! {

broadcast use vstd::string::group_string_axioms;

/// What was found at the place the library should be.
pub enum RootInspection {
    /// The path cannot be resolved, for the reason given.
    Unreadable(String),
    /// The canonical path: absolute, without links, `.` or `..`.
    Found { path: Vec<u8>, is_directory: bool },
}

/// One step of the walk through a library.
pub enum WalkEntry {
    /// The walk could not look at something.
    Failure { error: WalkError, message: String },
    /// The walk came to an entry. Its contents, as far as they are searched for a title, matter
    /// for Markdown files only.
    Entry { kind: EntryKind, path: LibraryPath, contents: Result<Vec<u8>, String> },
}

/// A document as the walk found it.
pub struct FoundView {
    pub path: Seq<Seq<u8>>,
    pub title: Seq<char>,
    pub root: Option<Seq<Seq<u8>>>,
}

/// The value of an optional path.
pub open spec fn path_view(path: Option<LibraryPath>) -> Option<Seq<Seq<u8>>> {
    match path {
        Some(path) => Some(path@),
        None => None,
    }
}

/// The title of a document: the one in its contents, or else the stem of its name.
pub open spec fn document_title(
    path: Seq<Seq<u8>>,
    contents: Result<Vec<u8>, String>,
) -> Seq<char> {
    match contents {
        Ok(bytes) => match title_in(bytes@) {
            Some(title) => title,
            None => stem_title(path),
        },
        Err(_) => stem_title(path),
    }
}

/// The root of the repository that a document belongs to. A directory of which nothing is known
/// counts as none that has one.
pub open spec fn repository_of(
    document: Seq<Seq<u8>>,
    known: Map<Seq<Seq<u8>>, bool>,
) -> Option<Seq<Seq<u8>>> {
    match repository_search(document, known) {
        RootSearchView::Repository(root) => Some(root),
        _ => None,
    }
}

/// The document that a step of the walk finds: a Markdown file whose path is UTF-8.
pub open spec fn found_document(
    entry: WalkEntry,
    known: Map<Seq<Seq<u8>>, bool>,
) -> Option<FoundView> {
    match entry {
        WalkEntry::Failure { error, message } => None,
        WalkEntry::Entry { kind, path, contents } => if markdown_entry(kind, path@) && valid_utf8(
            written(path@),
        ) {
            Some(
                FoundView {
                    path: path@,
                    title: document_title(path@, contents),
                    root: repository_of(path@, known),
                },
            )
        } else {
            None
        },
    }
}

/// The diagnostic of a step of the walk: for what it could not look at, for a Markdown file
/// whose path is not UTF-8, and for one that could not be read.
pub open spec fn found_diagnostic(entry: WalkEntry) -> Option<DiagnosticView> {
    match entry {
        WalkEntry::Failure { error, message } => Some(
            DiagnosticView { path: error_path(error), message: message@ },
        ),
        WalkEntry::Entry { kind, path, contents } => if !markdown_entry(
            kind,
            path@,
        ) {
            None
        } else if !valid_utf8(written(path@)) {
            Some(
                DiagnosticView {
                    path: Some(written(path@)),
                    message: "Markdown path is not valid UTF-8"@,
                },
            )
        } else {
            match contents {
                Ok(_) => None,
                Err(error) => Some(
                    DiagnosticView {
                        path: Some(written(path@)),
                        message: "reading the title failed: "@ + error@,
                    },
                ),
            }
        },
    }
}

/// The documents that a walk finds, in the order of the walk.
pub open spec fn found_documents(
    entries: Seq<WalkEntry>,
    known: Map<Seq<Seq<u8>>, bool>,
) -> Seq<FoundView>
    decreases entries.len(),
{
    if entries.len() == 0 {
        Seq::empty()
    } else {
        match found_document(entries.last(), known) {
            Some(found) => found_documents(entries.drop_last(), known).push(found),
            None => found_documents(entries.drop_last(), known),
        }
    }
}

/// The diagnostics of a walk, in the order of the walk.
pub open spec fn found_diagnostics(entries: Seq<WalkEntry>) -> Seq<DiagnosticView>
    decreases entries.len(),
{
    if entries.len() == 0 {
        Seq::empty()
    } else {
        match found_diagnostic(entries.last()) {
            Some(found) => found_diagnostics(entries.drop_last()).push(found),
            None => found_diagnostics(entries.drop_last()),
        }
    }
}

/// What the documents of a library are sorted by.
pub open spec fn path_keys(found: Seq<FoundView>) -> Seq<SortKeyView> {
    Seq::new(
        found.len(),
        |i: int| SortKeyView { priority: 0, depth: 0, text: path_key(found[i].path) },
    )
}

/// Whether a document of a catalog is the one that was found.
pub open spec fn stands_for(c: CatalogView, d: int, found: FoundView) -> bool {
    let document = c.documents[d];
    &&& document.path == found.path
    &&& document.title == found.title
    &&& document.repository is Some <==> found.root is Some
    &&& document.repository matches Some(r) ==> Some(c.repositories[r as int].root) == found.root
}

/// Whether a catalog is that of a walk, given which directories are repositories: grouped, with
/// the diagnostics of the walk, and with the documents that it found, sorted by path.
pub open spec fn is_catalog_of(
    c: CatalogView,
    root: Seq<u8>,
    entries: Seq<WalkEntry>,
    known: Map<Seq<Seq<u8>>, bool>,
) -> bool {
    let found = found_documents(entries, known);
    &&& grouped(c)
    &&& c.root == root
    &&& c.diagnostics == found_diagnostics(entries)
    &&& c.documents.len() == found.len()
    &&& exists|order: Seq<usize>| #[trigger]
        stable_order(path_keys(found), order) && forall|d: int|
            0 <= d < c.documents.len() ==> #[trigger] stands_for(c, d, found[order[d] as int])
}

/// A document as the walk found it.
pub struct PendingDocument {
    pub relative_path: LibraryPath,
    pub title: String,
    pub repository_root: Option<LibraryPath>,
}

impl View for PendingDocument {
    type V = FoundView;

    open spec fn view(&self) -> FoundView {
        FoundView {
            path: self.relative_path@,
            title: self.title@,
            root: path_view(self.repository_root),
        }
    }
}

pub open spec fn pending_views(pending: Seq<PendingDocument>) -> Seq<FoundView> {
    Seq::new(pending.len(), |i: int| pending[i]@)
}

/// The root of the repository that a document belongs to.
fn find_repository(document: &LibraryPath, boundaries: &Boundaries) -> (res: Option<LibraryPath>)
    ensures
        path_view(res) == repository_of(document@, boundaries@),
{
    match nearest_repository_root(document, boundaries) {
        RootSearch::Repository(root) => Some(root),
        _ => None,
    }
}

/// Sorts the steps of a walk into documents and diagnostics.
pub(crate) fn gather(entries: &Vec<WalkEntry>, boundaries: &Boundaries) -> (res: (
    Vec<PendingDocument>,
    Vec<CatalogDiagnostic>,
))
    ensures
        pending_views(res.0@) == found_documents(entries@, boundaries@),
        diagnostic_views(res.1@) == found_diagnostics(entries@),
        forall|i: int|
            0 <= i < res.0@.len() ==> markdown_path((#[trigger] res.0@[i])@.path) && valid_utf8(
                written(res.0@[i]@.path),
            ),
{
    let mut pending: Vec<PendingDocument> = Vec::new();
    let mut diagnostics: Vec<CatalogDiagnostic> = Vec::new();
    let mut i: usize = 0;
    assert(entries@.take(0) =~= Seq::<WalkEntry>::empty());
    assert(pending_views(pending@) =~= Seq::<FoundView>::empty());
    assert(diagnostic_views(diagnostics@) =~= Seq::<DiagnosticView>::empty());
    while i < entries.len()
        invariant
            i <= entries@.len(),
            pending_views(pending@) == found_documents(entries@.take(i as int), boundaries@),
            diagnostic_views(diagnostics@) == found_diagnostics(entries@.take(i as int)),
            forall|j: int|
                0 <= j < pending@.len() ==> markdown_path((#[trigger] pending@[j])@.path)
                    && valid_utf8(written(pending@[j]@.path)),
        decreases entries@.len() - i,
    {
        let ghost next = entries@.take(i + 1);
        let ghost found_before = pending_views(pending@);
        let ghost told_before = diagnostic_views(diagnostics@);
        assert(next.drop_last() =~= entries@.take(i as int));
        assert(next.last() == entries@[i as int]);
        match &entries[i] {
            WalkEntry::Failure { error, message } => {
                let told = CatalogDiagnostic {
                    path: ignore_error_path(error),
                    message: message.as_str().to_owned(),
                };
                assert(Some(told@) == found_diagnostic(entries@[i as int]));
                diagnostics.push(told);
                assert(diagnostic_views(diagnostics@) =~= told_before.push(told@));
            },
            WalkEntry::Entry { kind, path, contents } => {
                if !is_markdown_entry(*kind, path) {
                } else if !path.is_utf8() {
                    let told = CatalogDiagnostic {
                        path: Some(path.to_bytes()),
                        message: "Markdown path is not valid UTF-8".to_owned(),
                    };
                    assert(Some(told@) == found_diagnostic(entries@[i as int]));
                    diagnostics.push(told);
                    assert(diagnostic_views(diagnostics@) =~= told_before.push(told@));
                } else {
                    let title: String = match contents {
                        Ok(bytes) => match read_title(bytes.as_slice()) {
                            Some(title) => title,
                            None => file_stem_title(path),
                        },
                        Err(error) => {
                            let told = CatalogDiagnostic {
                                path: Some(path.to_bytes()),
                                message: "reading the title failed: ".to_owned().concat(
                                    error.as_str(),
                                ),
                            };
                            assert(Some(told@) == found_diagnostic(entries@[i as int]));
                            diagnostics.push(told);
                            assert(diagnostic_views(diagnostics@) =~= told_before.push(told@));
                            file_stem_title(path)
                        },
                    };
                    let found = PendingDocument {
                        relative_path: path.clone(),
                        title,
                        repository_root: find_repository(path, boundaries),
                    };
                    assert(Some(found@) == found_document(entries@[i as int], boundaries@));
                    pending.push(found);
                    assert(pending_views(pending@) =~= found_before.push(found@));
                }
            },
        }
        i += 1;
    }
    assert(entries@.take(i as int) =~= entries@);
    (pending, diagnostics)
}

/// The positions of the documents, sorted by path.
pub(crate) fn sort_pending(pending: &Vec<PendingDocument>) -> (res: Vec<usize>)
    ensures
        stable_order(path_keys(pending_views(pending@)), res@),
{
    let mut keys: Vec<SortKey> = Vec::new();
    let mut i: usize = 0;
    while i < pending.len()
        invariant
            i <= pending@.len(),
            keys@.len() == i,
            forall|j: int|
                0 <= j < i ==> (#[trigger] keys@[j])@ == path_keys(pending_views(pending@))[j],
        decreases pending@.len() - i,
    {
        keys.push(
            SortKey { priority: 0, depth: 0, text: path_sort_key(&pending[i].relative_path) },
        );
        i += 1;
    }
    assert(key_views(keys@) =~= path_keys(pending_views(pending@)));
    sorted_positions(&keys)
}

/// The values of a list of paths.
pub open spec fn path_views(paths: Seq<LibraryPath>) -> Seq<Seq<Seq<u8>>> {
    Seq::new(paths.len(), |i: int| paths[i]@)
}

/// Whether a list of paths is sorted, and holds none twice.
pub open spec fn paths_ascend(paths: Seq<Seq<Seq<u8>>>) -> bool {
    forall|i: int, j: int|
        0 <= i < j < paths.len() ==> path_before(#[trigger] paths[i], #[trigger] paths[j])
}

/// Puts a path into a sorted list, unless it is there already.
pub(crate) fn insert_path(paths: &mut Vec<LibraryPath>, path: &LibraryPath)
    requires
        paths_ascend(path_views(old(paths)@)),
    ensures
        paths_ascend(path_views(final(paths)@)),
        forall|p: Seq<Seq<u8>>| #[trigger]
            path_views(final(paths)@).contains(p) <==> path_views(old(paths)@).contains(p) || p
                == path@,
        final(paths)@.len() <= old(paths)@.len() + 1,
{
    let ghost before = path_views(paths@);
    let mut at: usize = 0;
    while at < paths.len() && paths[at].precedes(path)
        invariant
            at <= paths@.len(),
            before == path_views(paths@),
            forall|j: int| 0 <= j < at ==> path_before(#[trigger] before[j], path@),
        decreases paths@.len() - at,
    {
        assert(before[at as int] == paths@[at as int]@);
        at += 1;
    }
    if at < paths.len() && paths[at].equals(path) {
        assert(before[at as int] == path@);
        assert(before.contains(path@));
        return;
    }
    paths.insert(at, path.clone());
    proof {
        let after = path_views(paths@);
        assert(after =~= before.insert(at as int, path@));
        assert forall|j: int| at <= j < before.len() implies path_before(
            path@,
            #[trigger] before[j],
        ) by {
            lemma_path_order(before[at as int], path@, path@);
            lemma_path_order(path@, before[at as int], before[j]);
            if j > at {
                assert(path_before(before[at as int], before[j]));
            }
        }
        assert forall|i: int, j: int| 0 <= i < j < after.len() implies path_before(
            #[trigger] after[i],
            #[trigger] after[j],
        ) by {
            let x = if i < at {
                i
            } else {
                i - 1
            };
            let y = if j < at {
                j
            } else {
                j - 1
            };
            if i != at && j != at {
                assert(path_before(before[x], before[y]));
            } else if i == at {
                assert(after[j] == before[y]);
            } else {
                assert(after[i] == before[x]);
            }
        }
        assert forall|p: Seq<Seq<u8>>| #[trigger] after.contains(p) <==> before.contains(p) || p
            == path@ by {
            if before.contains(p) {
                let k = choose|k: int| 0 <= k < before.len() && before[k] == p;
                assert(after[if k < at { k } else { k + 1 }] == p);
            }
            if p == path@ {
                assert(after[at as int] == p);
            }
            if after.contains(p) {
                let k = choose|k: int| 0 <= k < after.len() && after[k] == p;
                if k < at {
                    assert(before[k] == p);
                } else if k > at {
                    assert(before[k - 1] == p);
                }
            }
        }
    }
}

/// Whether the list holds the repository roots of the documents, and no others.
pub open spec fn is_root_list(roots: Seq<Seq<Seq<u8>>>, found: Seq<FoundView>) -> bool {
    &&& paths_ascend(roots)
    &&& forall|p: Seq<Seq<u8>>| #[trigger]
        roots.contains(p) <==> exists|i: int|
            0 <= i < found.len() && (#[trigger] found[i]).root == Some(p)
}

/// Whether some document has no repository.
pub open spec fn any_loose(found: Seq<FoundView>) -> bool {
    exists|i: int| 0 <= i < found.len() && (#[trigger] found[i]).root is None
}

/// The repository roots of the documents, sorted.
pub(crate) fn collect_roots(pending: &Vec<PendingDocument>) -> (res: Vec<LibraryPath>)
    ensures
        is_root_list(path_views(res@), pending_views(pending@)),
        res@.len() + (if any_loose(pending_views(pending@)) {
            1nat
        } else {
            0nat
        }) <= pending@.len(),
{
    let ghost found = pending_views(pending@);
    let mut roots: Vec<LibraryPath> = Vec::new();
    let mut i: usize = 0;
    assert(path_views(roots@) =~= Seq::<Seq<Seq<u8>>>::empty());
    while i < pending.len()
        invariant
            i <= pending@.len(),
            found == pending_views(pending@),
            is_root_list(path_views(roots@), found.take(i as int)),
            roots@.len() + (if any_loose(found.take(i as int)) {
                1nat
            } else {
                0nat
            }) <= i,
        decreases pending@.len() - i,
    {
        let ghost now = found.take(i as int);
        let ghost next = found.take(i + 1);
        let ghost before = path_views(roots@);
        assert(found[i as int] == pending@[i as int]@);
        assert forall|j: int| 0 <= j < now.len() implies now[j] == next[j] by {}
        assert(next[i as int] == found[i as int]);
        match &pending[i].repository_root {
            Some(root) => {
                insert_path(&mut roots, root);
                proof {
                    let after = path_views(roots@);
                    assert forall|p: Seq<Seq<u8>>| #[trigger] after.contains(p) <==> exists|j: int|
                        0 <= j < next.len() && (#[trigger] next[j]).root == Some(p) by {
                        if before.contains(p) {
                            let j = choose|j: int|
                                0 <= j < now.len() && (#[trigger] now[j]).root == Some(p);
                            assert(next[j].root == Some(p));
                        }
                        if p == root@ {
                            assert(next[i as int].root == Some(p));
                        }
                        if exists|j: int| 0 <= j < next.len() && (#[trigger] next[j]).root == Some(
                            p,
                        ) {
                            let j = choose|j: int|
                                0 <= j < next.len() && (#[trigger] next[j]).root == Some(p);
                            if j < i {
                                assert(now[j].root == Some(p));
                            }
                        }
                    }
                    if any_loose(next) {
                        let j = choose|j: int| 0 <= j < next.len() && (#[trigger] next[j]).root is None;
                        assert(j < i);
                        assert(now[j].root is None);
                    }
                }
            },
            None => {
                proof {
                    assert forall|p: Seq<Seq<u8>>| #[trigger] before.contains(p) <==> exists|j: int|
                        0 <= j < next.len() && (#[trigger] next[j]).root == Some(p) by {
                        if before.contains(p) {
                            let j = choose|j: int|
                                0 <= j < now.len() && (#[trigger] now[j]).root == Some(p);
                            assert(next[j].root == Some(p));
                        }
                        if exists|j: int| 0 <= j < next.len() && (#[trigger] next[j]).root == Some(
                            p,
                        ) {
                            let j = choose|j: int|
                                0 <= j < next.len() && (#[trigger] next[j]).root == Some(p);
                            assert(now[j].root == Some(p));
                        }
                    }
                }
            },
        }
        i += 1;
    }
    assert(found.take(i as int) =~= found);
    roots
}

/// The position of a path in a list.
fn position_of(paths: &Vec<LibraryPath>, path: &LibraryPath) -> (res: Option<usize>)
    ensures
        res is Some <==> path_views(paths@).contains(path@),
        res matches Some(i) ==> i < paths@.len() && paths@[i as int]@ == path@,
{
    let mut i: usize = 0;
    while i < paths.len()
        invariant
            i <= paths@.len(),
            forall|j: int| 0 <= j < i ==> #[trigger] path_views(paths@)[j] != path@,
        decreases paths@.len() - i,
    {
        if paths[i].equals(path) {
            assert(path_views(paths@)[i as int] == path@);
            return Some(i);
        }
        assert(path_views(paths@)[i as int] == paths@[i as int]@);
        i += 1;
    }
    None
}

/// Whether a document is the one found at a position, with its repository as a position among
/// the roots.
pub open spec fn is_document(
    document: DocumentView,
    d: int,
    found: FoundView,
    roots: Seq<Seq<Seq<u8>>>,
) -> bool {
    &&& document.id == d
    &&& document.path == found.path
    &&& document.title == found.title
    &&& document.repository is Some <==> found.root is Some
    &&& document.repository matches Some(r) ==> r < roots.len() && Some(roots[r as int])
        == found.root
}

/// The documents in the given order.
pub(crate) fn arrange_documents(
    pending: &Vec<PendingDocument>,
    order: &Vec<usize>,
    roots: &Vec<LibraryPath>,
) -> (res: Vec<Document>)
    requires
        stable_order(path_keys(pending_views(pending@)), order@),
        is_root_list(path_views(roots@), pending_views(pending@)),
    ensures
        res@.len() == pending@.len(),
        forall|d: int|
            0 <= d < res@.len() ==> is_document(
                (#[trigger] res@[d])@,
                d,
                pending@[order@[d] as int]@,
                path_views(roots@),
            ),
{
    let mut documents: Vec<Document> = Vec::new();
    let mut i: usize = 0;
    while i < order.len()
        invariant
            i <= order@.len(),
            stable_order(path_keys(pending_views(pending@)), order@),
            is_root_list(path_views(roots@), pending_views(pending@)),
            documents@.len() == i,
            forall|d: int|
                0 <= d < i ==> is_document(
                    (#[trigger] documents@[d])@,
                    d,
                    pending@[order@[d] as int]@,
                    path_views(roots@),
                ),
        decreases order@.len() - i,
    {
        let found: &PendingDocument = &pending[order[i]];
        let repository: Option<RepositoryId> = match &found.repository_root {
            Some(root) => {
                proof {
                    let at = order@[i as int] as int;
                    assert(pending_views(pending@)[at].root == Some(root@));
                    assert(path_views(roots@).contains(root@));
                }
                position_of(roots, root)
            },
            None => None,
        };
        documents.push(
            Document {
                id: i,
                relative_path: found.relative_path.clone(),
                title: found.title.as_str().to_owned(),
                repository,
            },
        );
        i += 1;
    }
    documents
}

/// Whether two optional positions are equal.
fn same_position(a: Option<usize>, b: Option<usize>) -> (res: bool)
    ensures
        res == (a == b),
{
    match (a, b) {
        (Some(x), Some(y)) => x == y,
        (None, None) => true,
        _ => false,
    }
}

/// Whether a list holds exactly the documents of a collection, by position.
pub open spec fn lists_members(documents: Seq<DocumentView>, ids: Seq<usize>, repository: Option<usize>) -> bool {
    &&& forall|i: int|
        0 <= i < ids.len() ==> #[trigger] ids[i] < documents.len() && documents[ids[i] as int].repository
            == repository
    &&& forall|d: int|
        0 <= d < documents.len() && (#[trigger] documents[d]).repository == repository
            ==> ids.contains(d as usize)
    &&& forall|i: int, j: int| 0 <= i < j < ids.len() ==> #[trigger] ids[i] < #[trigger] ids[j]
}

/// The documents of a collection, by position.
pub(crate) fn collect_members(documents: &Vec<Document>, repository: Option<RepositoryId>) -> (res: Vec<
    DocumentId,
>)
    ensures
        lists_members(document_views(documents@), res@, repository),
{
    let ghost views = document_views(documents@);
    let mut ids: Vec<DocumentId> = Vec::new();
    let mut i: usize = 0;
    while i < documents.len()
        invariant
            i <= documents@.len(),
            views == document_views(documents@),
            forall|k: int|
                0 <= k < ids@.len() ==> #[trigger] ids@[k] < i && views[ids@[k] as int].repository
                    == repository,
            forall|d: int|
                0 <= d < i && (#[trigger] views[d]).repository == repository ==> ids@.contains(
                    d as usize,
                ),
            forall|k: int, l: int| 0 <= k < l < ids@.len() ==> #[trigger] ids@[k] < #[trigger] ids@[l],
        decreases documents@.len() - i,
    {
        let ghost before = ids@;
        assert(views[i as int] == documents@[i as int]@);
        if same_position(documents[i].repository, repository) {
            ids.push(i);
            assert forall|d: int|
                0 <= d < i + 1 && (#[trigger] views[d]).repository == repository implies ids@.contains(
                d as usize,
            ) by {
                if d < i {
                    assert(before.contains(d as usize));
                    let k = choose|k: int| 0 <= k < before.len() && before[k] == d as usize;
                    assert(ids@[k] == d as usize);
                } else {
                    assert(ids@[ids@.len() - 1] == d as usize);
                }
            }
        }
        i += 1;
    }
    ids
}

/// The documents of a collection in reading order.
pub(crate) fn sort_members(
    documents: &Vec<Document>,
    ids: &Vec<DocumentId>,
    repository: Ghost<Option<usize>>,
    root: &LibraryPath,
) -> (res: Vec<DocumentId>)
    requires
        lists_members(document_views(documents@), ids@, repository@),
    ensures
        is_collection(document_views(documents@), res@, repository@, root@),
{
    let ghost views = document_views(documents@);
    let ghost wanted = collection_keys(views, ids@, root@);
    let mut keys: Vec<SortKey> = Vec::new();
    let mut i: usize = 0;
    while i < ids.len()
        invariant
            i <= ids@.len(),
            views == document_views(documents@),
            wanted == collection_keys(views, ids@, root@),
            lists_members(views, ids@, repository@),
            keys@.len() == i,
            forall|j: int| 0 <= j < i ==> (#[trigger] keys@[j])@ == wanted[j],
        decreases ids@.len() - i,
    {
        assert(ids@[i as int] < documents@.len());
        assert(views[ids@[i as int] as int] == documents@[ids@[i as int] as int]@);
        keys.push(default_document_sort_key(&documents[ids[i]].relative_path.relative_to(root)));
        i += 1;
    }
    assert(key_views(keys@) =~= wanted);
    let order: Vec<usize> = sorted_positions(&keys);
    let mut sorted: Vec<DocumentId> = Vec::new();
    let mut k: usize = 0;
    while k < order.len()
        invariant
            k <= order@.len(),
            stable_order(wanted, order@),
            wanted.len() == ids@.len(),
            sorted@.len() == k,
            forall|j: int| 0 <= j < k ==> #[trigger] sorted@[j] == ids@[order@[j] as int],
        decreases order@.len() - k,
    {
        sorted.push(ids[order[k]]);
        k += 1;
    }
    proof {
        assert forall|d: int|
            0 <= d < views.len() && (#[trigger] views[d]).repository == repository@ implies sorted@.contains(
            d as usize,
        ) by {
            assert(ids@.contains(d as usize));
            let p = choose|p: int| 0 <= p < ids@.len() && ids@[p] == d as usize;
            crate::order::lemma_stable_order_is_onto(wanted, order@, p);
            let a = choose|a: int| 0 <= a < order@.len() && order@[a] == p;
            assert(sorted@[a] == d as usize);
        }
        assert forall|i: int, j: int| 0 <= i < j < sorted@.len() implies member_before(
            views,
            root@,
            #[trigger] sorted@[i],
            #[trigger] sorted@[j],
        ) by {
            let x = order@[i] as int;
            let y = order@[j] as int;
            assert(stands_before(wanted, x, y));
            if x < y {
                assert(ids@[x] < ids@[y]);
            }
        }
        assert forall|i: int| 0 <= i < sorted@.len() implies #[trigger] sorted@[i] < views.len()
            && views[sorted@[i] as int].repository == repository@ by {
            let x = order@[i] as int;
            assert(sorted@[i] == ids@[x]);
        }
    }
    sorted
}

/// A name as text, or a word that stands for any repository.
fn name_text(name: &[u8]) -> (res: String)
    ensures
        res@ == (if valid_utf8(name@) {
            decode_utf8(name@)
        } else {
            "Repository"@
        }),
{
    match text_from_utf8(name) {
        Some(text) => text.to_owned(),
        None => "Repository".to_owned(),
    }
}

/// The name of a repository.
fn name_repository(library: &[u8], root: &LibraryPath) -> (res: String)
    ensures
        res@ == repository_name(library@, root@),
{
    match root.file_name() {
        Some(name) => name_text(name),
        None => {
            let names: Vec<Vec<u8>> = split_components(library);
            assert(byte_views(names@) == components(library@));
            if names.len() == 0 {
                "Repository".to_owned()
            } else {
                assert(components(library@).last() == names@[names@.len() - 1]@);
                name_text(names[names.len() - 1].as_slice())
            }
        },
    }
}

/// The repositories with the given roots, not yet qualified.
pub(crate) fn build_repositories(
    library: &Vec<u8>,
    documents: &Vec<Document>,
    roots: Vec<LibraryPath>,
) -> (res: Vec<Repository>)
    ensures
        res@.len() == roots@.len(),
        forall|r: int|
            0 <= r < res@.len() ==> is_plain_repository(
                (#[trigger] res@[r])@,
                r,
                library@,
                document_views(documents@),
                roots@[r]@,
            ),
{
    let mut repositories: Vec<Repository> = Vec::new();
    let mut r: usize = 0;
    while r < roots.len()
        invariant
            r <= roots@.len(),
            repositories@.len() == r,
            forall|q: int|
                0 <= q < r ==> is_plain_repository(
                    (#[trigger] repositories@[q])@,
                    q,
                    library@,
                    document_views(documents@),
                    roots@[q]@,
                ),
        decreases roots@.len() - r,
    {
        let root: LibraryPath = roots[r].clone();
        let members: Vec<DocumentId> = collect_members(documents, Some(r));
        let ids: Vec<DocumentId> = sort_members(documents, &members, Ghost(Some(r)), &root);
        assert(forall|i: int| 0 <= i < ids@.len() ==> #[trigger] ids@[i] < documents@.len());
        let default_document: Option<DocumentId> = choose_default_document(
            documents.as_slice(),
            ids.as_slice(),
            &root,
        );
        let name: String = name_repository(library.as_slice(), &root);
        repositories.push(
            Repository {
                id: r,
                root_relative: root,
                name,
                qualifier: None,
                documents: ids,
                default_document,
            },
        );
        r += 1;
    }
    repositories
}

/// Whether a repository is as it should be, but for its qualifier.
pub open spec fn is_plain_repository(
    repository: RepositoryView,
    r: int,
    library: Seq<u8>,
    documents: Seq<DocumentView>,
    root: Seq<Seq<u8>>,
) -> bool {
    &&& repository.id == r
    &&& repository.root == root
    &&& repository.name == repository_name(library, root)
    &&& repository.qualifier is None
    &&& is_collection(documents, repository.documents, Some(r as usize), root)
    &&& repository.default_document == chosen_document(documents, repository.documents, root)
}

/// The repository with its qualifier: where it shares its name, the directory it is in.
pub open spec fn qualified(repositories: Seq<RepositoryView>, r: int) -> RepositoryView {
    if shares_name(names_of(repositories), r) {
        RepositoryView { qualifier: directory_text(repositories[r].root), ..repositories[r] }
    } else {
        repositories[r]
    }
}

/// Whether another repository has the same name, the case of ASCII letters aside.
fn has_namesake(repositories: &Vec<Repository>, r: usize) -> (res: bool)
    requires
        r < repositories@.len(),
    ensures
        res == shares_name(names_of(repository_views(repositories@)), r as int),
{
    let ghost names = names_of(repository_views(repositories@));
    let name: String = ascii_lowercase(repositories[r].name.as_str());
    let mut q: usize = 0;
    while q < repositories.len()
        invariant
            q <= repositories@.len(),
            r < repositories@.len(),
            names == names_of(repository_views(repositories@)),
            name@ == lower_text(names[r as int]),
            forall|p: int|
                0 <= p < q && p != r ==> lower_text(#[trigger] names[p]) != lower_text(
                    names[r as int],
                ),
        decreases repositories@.len() - q,
    {
        assert(names[q as int] == repositories@[q as int].name@);
        if q != r && text_eq(
            ascii_lowercase(repositories[q].name.as_str()).as_str(),
            name.as_str(),
        ) {
            assert(lower_text(names[q as int]) == lower_text(names[r as int]));
            return true;
        }
        q += 1;
    }
    false
}

/// The directory that a repository is in, as text, if that is not the library root.
fn directory_of(root: &LibraryPath) -> (res: Option<String>)
    ensures
        text_view(res) == directory_text(root@),
{
    match root.parent() {
        Some(parent) => if parent.is_empty() {
            None
        } else {
            Some(parent.to_text())
        },
        None => None,
    }
}

/// Gives every repository that shares its name with another the directory it is in as its
/// qualifier.
pub fn qualify_duplicate_repository_names(repositories: &mut Vec<Repository>)
    ensures
        final(repositories)@.len() == old(repositories)@.len(),
        forall|r: int|
            0 <= r < final(repositories)@.len() ==> (#[trigger] final(repositories)@[r])@
                == qualified(repository_views(old(repositories)@), r),
{
    let ghost views = repository_views(repositories@);
    let ghost names = names_of(views);
    let mut r: usize = 0;
    while r < repositories.len()
        invariant
            r <= repositories@.len(),
            repositories@.len() == views.len(),
            names == names_of(views),
            forall|q: int|
                0 <= q < r ==> (#[trigger] repositories@[q])@ == qualified(views, q),
            forall|q: int| r <= q < views.len() ==> (#[trigger] repositories@[q])@ == views[q],
        decreases repositories@.len() - r,
    {
        assert(names_of(repository_views(repositories@)) =~= names) by {
            assert forall|q: int| 0 <= q < names.len() implies repositories@[q].name@ == names[q] by {
                assert(repositories@[q]@.name == views[q].name);
            }
        }
        if has_namesake(repositories, r) {
            let qualifier: Option<String> = directory_of(&repositories[r].root_relative);
            let ghost before = repositories@;
            repositories[r].qualifier = qualifier;
            assert(before[r as int]@ == views[r as int]);
            assert(repositories@[r as int]@ == qualified(views, r as int));
        }
        r += 1;
    }
}


/// A catalog made of sorted documents and the repositories they belong to is grouped.
pub proof fn lemma_assembled(
    c: CatalogView,
    plain: Seq<RepositoryView>,
    found: Seq<FoundView>,
    order: Seq<usize>,
    roots: Seq<Seq<Seq<u8>>>,
)
    requires
        stable_order(path_keys(found), order),
        is_root_list(roots, found),
        roots.len() + (if any_loose(found) {
            1nat
        } else {
            0nat
        }) <= found.len(),
        c.documents.len() == found.len(),
        forall|d: int|
            0 <= d < c.documents.len() ==> is_document(
                #[trigger] c.documents[d],
                d,
                found[order[d] as int],
                roots,
            ),
        forall|i: int|
            0 <= i < found.len() ==> markdown_path((#[trigger] found[i]).path) && valid_utf8(
                written(found[i].path),
            ),
        plain.len() == roots.len(),
        forall|r: int|
            0 <= r < plain.len() ==> is_plain_repository(
                #[trigger] plain[r],
                r,
                c.root,
                c.documents,
                roots[r],
            ),
        c.repositories.len() == plain.len(),
        forall|r: int| 0 <= r < plain.len() ==> #[trigger] c.repositories[r] == qualified(plain, r),
        is_collection(c.documents, c.loose_documents, None, Seq::empty()),
        c.mode == (if collections(c) <= 1 {
            CatalogMode::SingleLibrary
        } else {
            CatalogMode::Shelf
        }),
        c.documents.len() <= usize::MAX,
    ensures
        grouped(c),
        forall|d: int|
            0 <= d < c.documents.len() ==> #[trigger] stands_for(c, d, found[order[d] as int]),
{
    let documents = c.documents;
    assert forall|r: int| 0 <= r < c.repositories.len() implies #[trigger] repository_stands(c, r) by {
        assert(is_plain_repository(plain[r], r, c.root, documents, roots[r]));
        assert(c.repositories[r] == qualified(plain, r));
        assert(names_of(plain) =~= names_of(c.repositories)) by {
            assert forall|q: int| 0 <= q < plain.len() implies plain[q].name
                == c.repositories[q].name by {
                assert(c.repositories[q] == qualified(plain, q));
            }
        }
        assert(roots.contains(roots[r]));
        let i = choose|i: int| 0 <= i < found.len() && (#[trigger] found[i]).root == Some(roots[r]);
        crate::order::lemma_stable_order_is_onto(path_keys(found), order, i);
        let d = choose|d: int| 0 <= d < order.len() && order[d] == i;
        assert(is_document(documents[d], d, found[order[d] as int], roots));
        let q = documents[d].repository->0 as int;
        assert(roots[q] == roots[r]);
        lemma_path_order(roots[q], roots[q], roots[q]);
        if q < r {
            assert(path_before(roots[q], roots[r]));
        }
        if r < q {
            assert(path_before(roots[r], roots[q]));
        }
        assert(documents[d].repository == Some(r as usize));
        assert(plain[r].documents.contains(d as usize));
    }
    assert forall|q: int, r: int| 0 <= q < r < c.repositories.len() implies path_before(
        (#[trigger] c.repositories[q]).root,
        (#[trigger] c.repositories[r]).root,
    ) by {
        assert(is_plain_repository(plain[q], q, c.root, documents, roots[q]));
        assert(is_plain_repository(plain[r], r, c.root, documents, roots[r]));
        assert(path_before(roots[q], roots[r]));
    }
    assert forall|d: int| 0 <= d < documents.len() implies #[trigger] stands_for(
        c,
        d,
        found[order[d] as int],
    ) by {
        assert(is_document(documents[d], d, found[order[d] as int], roots));
        if documents[d].repository is Some {
            let r = documents[d].repository->0 as int;
            assert(is_plain_repository(plain[r], r, c.root, documents, roots[r]));
            assert(c.repositories[r] == qualified(plain, r));
        }
    }
    assert forall|d: int| 0 <= d < documents.len() implies (#[trigger] documents[d]).id == d && (
    documents[d].repository matches Some(r) ==> r < c.repositories.len()) && markdown_path(
        documents[d].path,
    ) && valid_utf8(written(documents[d].path)) by {
        let at = order[d] as int;
        assert(is_document(documents[d], d, found[at], roots));
        assert(markdown_path(found[at].path));
    }
    if c.loose_documents.len() > 0 {
        let d = c.loose_documents[0] as int;
        assert(documents[d].repository is None);
        assert(is_document(documents[d], d, found[order[d] as int], roots));
        assert(found[order[d] as int].root is None);
        assert(any_loose(found));
    }
}

} // verus!
