//! The catalog: the documents of a library, grouped into repositories and loose documents.

use vstd::prelude::*;
use vstd::utf8::{decode_utf8, encode_utf8, valid_utf8};
use crate::assembly::{
    arrange_documents, build_repositories, collect_members, collect_roots, found_documents, gather,
    is_catalog_of, is_document, lemma_assembled, path_views, pending_views,
    qualify_duplicate_repository_names, sort_members, sort_pending, RootInspection,
};
use crate::discovery::markdown_path;
use crate::order::{key_before, text_before};
use crate::paths::{
    components, lies_beneath, no_nul, ordinary, path_before, show, shown, stem_of, written,
    LibraryPath,
};
use crate::reading::{
    choose_default_document, chosen_document, collection_key, lemma_chosen_is_listed, path_key,
};
use crate::text::{bytes_eq, copy_of, lower_text, text_eq};
use crate::walk::Walk;
use crate::walk_laws::law_scanned_catalogs_are_coherent;

verus! {

broadcast use vstd::string::group_string_axioms;

/// The position of a document in its catalog.
pub type DocumentId = usize;

/// The position of a repository in its catalog.
pub type RepositoryId = usize;

/// Whether a library opens as one collection or as a shelf of several.
#[derive(Clone, Copy, Debug, PartialEq, Eq, Structural)]
pub enum CatalogMode {
    SingleLibrary,
    Shelf,
}

/// Where a library opens.
#[derive(Clone, Copy, Debug, PartialEq, Eq, Structural)]
pub enum Landing {
    Shelf,
    Document(DocumentId),
}

/// A Markdown file of the library.
#[derive(Debug, PartialEq, Eq)]
pub struct Document {
    pub id: DocumentId,
    pub relative_path: LibraryPath,
    pub title: String,
    pub repository: Option<RepositoryId>,
}

/// The value of a document.
pub struct DocumentView {
    pub id: usize,
    pub path: Seq<Seq<u8>>,
    pub title: Seq<char>,
    pub repository: Option<usize>,
}

impl View for Document {
    type V = DocumentView;

    open spec fn view(&self) -> DocumentView {
        DocumentView {
            id: self.id,
            path: self.relative_path@,
            title: self.title@,
            repository: self.repository,
        }
    }
}

impl Clone for Document {
    fn clone(&self) -> (res: Document)
        ensures
            res@ == self@,
    {
        Document {
            id: self.id,
            relative_path: self.relative_path.clone(),
            title: self.title.as_str().to_owned(),
            repository: self.repository,
        }
    }
}

impl Document {
    /// Whether two documents have the same value.
    #[must_use]
    pub fn equals(&self, other: &Document) -> (res: bool)
        ensures
            res == (self@ == other@),
    {
        self.id == other.id && self.repository == other.repository && self.relative_path.equals(
            &other.relative_path,
        ) && text_eq(self.title.as_str(), other.title.as_str())
    }
}

/// The values of a list of documents.
pub open spec fn document_views(documents: Seq<Document>) -> Seq<DocumentView> {
    Seq::new(documents.len(), |i: int| documents[i]@)
}

/// The value of an optional text.
pub open spec fn text_view(text: Option<String>) -> Option<Seq<char>> {
    match text {
        Some(text) => Some(text@),
        None => None,
    }
}

/// A repository of the library, with its documents in reading order.
#[derive(Debug, PartialEq, Eq)]
pub struct Repository {
    pub id: RepositoryId,
    pub root_relative: LibraryPath,
    pub name: String,
    pub qualifier: Option<String>,
    pub documents: Vec<DocumentId>,
    pub default_document: Option<DocumentId>,
}

/// The value of a repository.
pub struct RepositoryView {
    pub id: usize,
    pub root: Seq<Seq<u8>>,
    pub name: Seq<char>,
    pub qualifier: Option<Seq<char>>,
    pub documents: Seq<usize>,
    pub default_document: Option<usize>,
}

impl View for Repository {
    type V = RepositoryView;

    open spec fn view(&self) -> RepositoryView {
        RepositoryView {
            id: self.id,
            root: self.root_relative@,
            name: self.name@,
            qualifier: text_view(self.qualifier),
            documents: self.documents@,
            default_document: self.default_document,
        }
    }
}

impl Clone for Repository {
    fn clone(&self) -> (res: Repository)
        ensures
            res@ == self@,
    {
        Repository {
            id: self.id,
            root_relative: self.root_relative.clone(),
            name: self.name.as_str().to_owned(),
            qualifier: match &self.qualifier {
                Some(qualifier) => Some(qualifier.as_str().to_owned()),
                None => None,
            },
            documents: copy_of(self.documents.as_slice()),
            default_document: self.default_document,
        }
    }
}

impl Repository {
    /// Whether two repositories have the same value.
    #[must_use]
    pub fn equals(&self, other: &Repository) -> (res: bool)
        ensures
            res == (self@ == other@),
    {
        let qualified_alike: bool = match (&self.qualifier, &other.qualifier) {
            (Some(a), Some(b)) => text_eq(a.as_str(), b.as_str()),
            (None, None) => true,
            _ => false,
        };
        if self.id != other.id || self.default_document != other.default_document
            || !qualified_alike || !self.root_relative.equals(&other.root_relative)
            || !text_eq(self.name.as_str(), other.name.as_str()) || self.documents.len()
            != other.documents.len() {
            return false;
        }
        let mut i: usize = 0;
        while i < self.documents.len()
            invariant
                i <= self.documents.len(),
                self.documents@.len() == other.documents@.len(),
                forall|j: int| 0 <= j < i ==> self.documents@[j] == other.documents@[j],
            decreases self.documents.len() - i,
        {
            if self.documents[i] != other.documents[i] {
                return false;
            }
            i += 1;
        }
        assert(self.documents@ =~= other.documents@);
        true
    }
}

/// The values of a list of repositories.
pub open spec fn repository_views(repositories: Seq<Repository>) -> Seq<RepositoryView> {
    Seq::new(repositories.len(), |i: int| repositories[i]@)
}

/// Something that went wrong during a scan, and the path it is about.
#[derive(Debug, PartialEq, Eq)]
pub struct CatalogDiagnostic {
    pub path: Option<Vec<u8>>,
    pub message: String,
}

/// The value of a diagnostic.
pub struct DiagnosticView {
    pub path: Option<Seq<u8>>,
    pub message: Seq<char>,
}

impl View for CatalogDiagnostic {
    type V = DiagnosticView;

    open spec fn view(&self) -> DiagnosticView {
        DiagnosticView {
            path: match self.path {
                Some(path) => Some(path@),
                None => None,
            },
            message: self.message@,
        }
    }
}

impl Clone for CatalogDiagnostic {
    fn clone(&self) -> (res: CatalogDiagnostic)
        ensures
            res@ == self@,
    {
        CatalogDiagnostic {
            path: match &self.path {
                Some(path) => Some(copy_of(path.as_slice())),
                None => None,
            },
            message: self.message.as_str().to_owned(),
        }
    }
}

/// The values of a list of diagnostics.
pub open spec fn diagnostic_views(diagnostics: Seq<CatalogDiagnostic>) -> Seq<DiagnosticView> {
    Seq::new(diagnostics.len(), |i: int| diagnostics[i]@)
}

/// The documents of a library, found by one scan.
#[derive(Debug)]
pub struct Catalog {
    root: Vec<u8>,
    mode: CatalogMode,
    repositories: Vec<Repository>,
    documents: Vec<Document>,
    loose_documents: Vec<DocumentId>,
    diagnostics: Vec<CatalogDiagnostic>,
}

/// The value of a catalog.
pub struct CatalogView {
    pub root: Seq<u8>,
    pub mode: CatalogMode,
    pub repositories: Seq<RepositoryView>,
    pub documents: Seq<DocumentView>,
    pub loose_documents: Seq<usize>,
    pub diagnostics: Seq<DiagnosticView>,
}

impl View for Catalog {
    type V = CatalogView;

    closed spec fn view(&self) -> CatalogView {
        CatalogView {
            root: self.root@,
            mode: self.mode,
            repositories: repository_views(self.repositories@),
            documents: document_views(self.documents@),
            loose_documents: self.loose_documents@,
            diagnostics: diagnostic_views(self.diagnostics@),
        }
    }
}

impl Clone for Catalog {
    fn clone(&self) -> (res: Catalog)
        ensures
            res@ == self@,
    {
        proof {
            use_type_invariant(self);
        }
        let repositories: Vec<Repository> = self.repositories.clone();
        let documents: Vec<Document> = self.documents.clone();
        let diagnostics: Vec<CatalogDiagnostic> = self.diagnostics.clone();
        proof {
            assert(repository_views(repositories@) =~= self@.repositories);
            assert(document_views(documents@) =~= self@.documents);
            assert(diagnostic_views(diagnostics@) =~= self@.diagnostics);
        }
        Catalog {
            root: copy_of(self.root.as_slice()),
            mode: self.mode,
            repositories,
            documents,
            loose_documents: copy_of(self.loose_documents.as_slice()),
            diagnostics,
        }
    }
}

/// Why a library cannot be scanned.
#[derive(Debug, PartialEq, Eq)]
pub enum ScanError {
    Inspect { path: Vec<u8>, source: String },
    NotDirectory(Vec<u8>),
}

/// The reason why a library cannot be scanned, in words.
pub open spec fn scan_reason(error: ScanError) -> Seq<char> {
    match error {
        ScanError::Inspect { path, source } => "cannot inspect "@ + shown(path@) + ": "@ + source@,
        ScanError::NotDirectory(path) => "scan root is not a directory: "@ + shown(path@),
    }
}

impl ScanError {
    /// The error in words.
    pub fn message(&self) -> (res: String)
        ensures
            res@ == scan_reason(*self),
    {
        match self {
            ScanError::Inspect { path, source } => "cannot inspect ".to_owned().concat(
                show(path.as_slice()).as_str(),
            ).concat(": ").concat(source.as_str()),
            ScanError::NotDirectory(path) => "scan root is not a directory: ".to_owned().concat(
                show(path.as_slice()).as_str(),
            ),
        }
    }
}

// ---------------------------------------------------------------------------
// Coherence
// ---------------------------------------------------------------------------

/// Whether one document of a collection stands before another: by key, and by position among
/// equal keys.
pub open spec fn member_before(
    documents: Seq<DocumentView>,
    root: Seq<Seq<u8>>,
    a: usize,
    b: usize,
) -> bool {
    let x = collection_key(documents[a as int], root);
    let y = collection_key(documents[b as int], root);
    key_before(x, y) || (x == y && a < b)
}

/// Whether a list holds exactly the documents of a collection, in reading order.
pub open spec fn is_collection(
    documents: Seq<DocumentView>,
    ids: Seq<usize>,
    repository: Option<usize>,
    root: Seq<Seq<u8>>,
) -> bool {
    &&& forall|i: int|
        0 <= i < ids.len() ==> #[trigger] ids[i] < documents.len() && documents[ids[i] as int].repository
            == repository
    &&& forall|d: int|
        0 <= d < documents.len() && (#[trigger] documents[d]).repository == repository
            ==> ids.contains(d as usize)
    &&& forall|i: int, j: int|
        0 <= i < j < ids.len() ==> member_before(documents, root, #[trigger] ids[i], #[trigger] ids[j])
}

/// The last name of the library root.
pub open spec fn root_name(root: Seq<u8>) -> Seq<char> {
    let names = components(root);
    if names.len() > 0 && valid_utf8(names.last()) {
        decode_utf8(names.last())
    } else {
        "Repository"@
    }
}

/// The name of a repository: the last name of its root, or of the library root where it is the
/// library itself.
pub open spec fn repository_name(library: Seq<u8>, root: Seq<Seq<u8>>) -> Seq<char> {
    if root.len() == 0 {
        root_name(library)
    } else if valid_utf8(root.last()) {
        decode_utf8(root.last())
    } else {
        "Repository"@
    }
}

/// Whether another repository has the same name, the case of ASCII letters aside.
pub open spec fn shares_name(names: Seq<Seq<char>>, r: int) -> bool {
    exists|q: int| 0 <= q < names.len() && q != r && lower_text(#[trigger] names[q]) == lower_text(names[r])
}

/// What tells a repository from others of its name: the directory it is in, if that is not the
/// library root.
pub open spec fn directory_text(root: Seq<Seq<u8>>) -> Option<Seq<char>> {
    if root.len() >= 2 {
        Some(shown(written(root.drop_last())))
    } else {
        None
    }
}

/// The names of a list of repositories.
pub open spec fn names_of(repositories: Seq<RepositoryView>) -> Seq<Seq<char>> {
    Seq::new(repositories.len(), |i: int| repositories[i].name)
}

/// Whether a repository stands in its catalog as it should.
pub open spec fn repository_stands(c: CatalogView, r: int) -> bool {
    let it = c.repositories[r];
    &&& it.id == r
    &&& it.name == repository_name(c.root, it.root)
    &&& it.qualifier == (if shares_name(names_of(c.repositories), r) {
        directory_text(it.root)
    } else {
        None
    })
    &&& it.documents.len() > 0
    &&& is_collection(c.documents, it.documents, Some(r as usize), it.root)
    &&& it.default_document == chosen_document(c.documents, it.documents, it.root)
}

/// The number of collections: the repositories, and the loose documents if there are any.
pub open spec fn collections(c: CatalogView) -> nat {
    c.repositories.len() + if c.loose_documents.len() > 0 {
        1nat
    } else {
        0nat
    }
}

/// Whether the documents of a catalog are grouped. Every document has its position as its id, and
/// belongs to one collection: a repository, or the loose documents. The repositories are sorted by
/// their roots, none is empty, and each has its name, its qualifier, its documents in reading order
/// and the first of them as its default.
pub open spec fn grouped(c: CatalogView) -> bool {
    &&& forall|d: int|
        0 <= d < c.documents.len() ==> (#[trigger] c.documents[d]).id == d && (
        c.documents[d].repository matches Some(r) ==> r < c.repositories.len())
            && markdown_path(c.documents[d].path) && valid_utf8(written(c.documents[d].path))
    &&& forall|r: int| 0 <= r < c.repositories.len() ==> #[trigger] repository_stands(c, r)
    &&& forall|q: int, r: int|
        0 <= q < r < c.repositories.len() ==> path_before(
            (#[trigger] c.repositories[q]).root,
            (#[trigger] c.repositories[r]).root,
        )
    &&& is_collection(c.documents, c.loose_documents, None, Seq::empty())
    &&& collections(c) <= c.documents.len()
    &&& c.mode == (if collections(c) <= 1 {
        CatalogMode::SingleLibrary
    } else {
        CatalogMode::Shelf
    })
}

/// Whether a document belongs to the nearest repository that it lies in, and to none only where it
/// lies in none.
pub open spec fn in_nearest_repository(c: CatalogView, d: int) -> bool {
    let path = c.documents[d].path;
    &&& c.documents[d].repository matches Some(r) ==> r < c.repositories.len() && lies_beneath(
        path,
        c.repositories[r as int].root,
    ) && c.repositories[r as int].root.len() < path.len()
    &&& forall|q: int|
        0 <= q < c.repositories.len() && lies_beneath(path, (#[trigger] c.repositories[q]).root)
            ==> (c.documents[d].repository matches Some(r) && c.repositories[q].root.len()
            <= c.repositories[r as int].root.len())
}

/// What holds of every catalog. Its documents are grouped, each with the nearest repository; they
/// have names as files have them; they are sorted by path, with the case of ASCII letters ignored;
/// and no two have the same path.
pub open spec fn coherent(c: CatalogView) -> bool {
    &&& grouped(c)
    &&& forall|d: int|
        0 <= d < c.documents.len() ==> ordinary((#[trigger] c.documents[d]).path) && no_nul(
            c.documents[d].path,
        )
    &&& forall|d: int| 0 <= d < c.documents.len() ==> #[trigger] in_nearest_repository(c, d)
    &&& forall|d: int, e: int|
        0 <= d < e < c.documents.len() ==> (#[trigger] c.documents[d]).path != (
        #[trigger] c.documents[e]).path && !text_before(
            path_key(c.documents[e].path),
            path_key(c.documents[d].path),
        )
}

// ---------------------------------------------------------------------------
// The catalog
// ---------------------------------------------------------------------------

/// The last document with the given path.
pub open spec fn document_at(documents: Seq<DocumentView>, path: Seq<Seq<u8>>) -> Option<int>
    decreases documents.len(),
{
    if documents.len() == 0 {
        None
    } else if documents.last().path == path {
        Some(documents.len() - 1)
    } else {
        document_at(documents.drop_last(), path)
    }
}

/// A path with `extension` behind its last name.
pub open spec fn extended(path: Seq<Seq<u8>>, extension: Seq<char>) -> Seq<Seq<u8>> {
    if path.len() == 0 {
        path
    } else {
        path.drop_last().push(path.last() + encode_utf8("."@) + encode_utf8(extension))
    }
}

/// Whether a document has the target as its path when its Markdown extension is left out.
pub open spec fn is_extensionless(document: DocumentView, target: Seq<Seq<u8>>) -> bool {
    &&& target.len() > 0
    &&& document.path.len() == target.len()
    &&& document.path.drop_last() == target.drop_last()
    &&& stem_of(document.path.last()) == target.last()
    &&& markdown_path(document.path)
}

/// The positions of the documents that satisfy `p`.
pub open spec fn positions_where(
    documents: Seq<DocumentView>,
    p: spec_fn(DocumentView) -> bool,
) -> Seq<usize>
    decreases documents.len(),
{
    if documents.len() == 0 {
        Seq::empty()
    } else {
        let before = positions_where(documents.drop_last(), p);
        if p(documents.last()) {
            before.push((documents.len() - 1) as usize)
        } else {
            before
        }
    }
}

/// The documents at or beneath a path.
pub open spec fn positions_beneath(documents: Seq<DocumentView>, target: Seq<Seq<u8>>) -> Seq<usize> {
    positions_where(documents, |d: DocumentView| lies_beneath(d.path, target))
}

/// The documents that have the target as their path when their extension is left out.
pub open spec fn positions_extensionless(
    documents: Seq<DocumentView>,
    target: Seq<Seq<u8>>,
) -> Seq<usize> {
    positions_where(documents, |d: DocumentView| is_extensionless(d, target))
}

/// The document that a link target stands for. A document with exactly that path comes first.
/// A target without an extension stands for the document with `.md` or `.markdown` behind it, or
/// else for the first document that has it as its path but for its extension. Any other target
/// is a directory, and stands for the first document beneath it in reading order.
pub open spec fn resolved_target(
    documents: Seq<DocumentView>,
    target: Seq<Seq<u8>>,
) -> Option<int> {
    let bare = crate::paths::path_extension(target) is None;
    if document_at(documents, target) is Some {
        document_at(documents, target)
    } else if bare && document_at(documents, extended(target, "md"@)) is Some {
        document_at(documents, extended(target, "md"@))
    } else if bare && document_at(documents, extended(target, "markdown"@)) is Some {
        document_at(documents, extended(target, "markdown"@))
    } else if bare && positions_extensionless(documents, target).len() > 0 {
        Some(positions_extensionless(documents, target)[0] as int)
    } else {
        match chosen_document(documents, positions_beneath(documents, target), target) {
            Some(id) => Some(id as int),
            None => None,
        }
    }
}

/// Where a library opens: on the shelf if it has several collections, else on the default
/// document of the one it has.
pub open spec fn landing_of(c: CatalogView) -> Landing {
    let opening = if c.repositories.len() > 0 {
        c.repositories[0].default_document
    } else {
        chosen_document(c.documents, c.loose_documents, Seq::empty())
    };
    match (c.mode, opening) {
        (CatalogMode::SingleLibrary, Some(id)) => Landing::Document(id),
        _ => Landing::Shelf,
    }
}

impl Catalog {
    /// What holds of every catalog.
    #[verifier::type_invariant]
    pub open spec fn well_formed(&self) -> bool {
        coherent(self@)
    }

    /// The catalog of a walk through a library: the Markdown files whose paths are UTF-8, sorted
    /// by path and grouped by repository. `requested` is the path the library was asked for by,
    /// and `inspection` what was found there.
    pub fn scan(
        requested: &[u8],
        inspection: RootInspection,
        walk: &Walk,
    ) -> (res: Result<Catalog, ScanError>)
        ensures
            match inspection {
                RootInspection::Unreadable(reason) => res matches Err(
                    ScanError::Inspect { path, source },
                ) && path@ == requested@ && source@ == reason@,
                RootInspection::Found { path: root, is_directory } => if is_directory {
                    res matches Ok(catalog) && is_catalog_of(
                        catalog@,
                        root@,
                        walk@.entries,
                        walk@.known,
                    ) && coherent(catalog@)
                } else {
                    res matches Err(ScanError::NotDirectory(path)) && path@ == root@
                },
            },
    {
        let root: Vec<u8> = match inspection {
            RootInspection::Unreadable(reason) => {
                return Err(ScanError::Inspect { path: copy_of(requested), source: reason });
            },
            RootInspection::Found { path, is_directory } => {
                if !is_directory {
                    return Err(ScanError::NotDirectory(path));
                }
                path
            },
        };
        proof {
            use_type_invariant(walk);
        }
        let (pending, diagnostics) = gather(walk.entries(), walk.boundaries());
        let ghost found = found_documents(walk@.entries, walk@.known);
        let order: Vec<usize> = sort_pending(&pending);
        let roots: Vec<LibraryPath> = collect_roots(&pending);
        let ghost root_views = path_views(roots@);
        let documents: Vec<Document> = arrange_documents(&pending, &order, &roots);
        let mut repositories: Vec<Repository> = build_repositories(&root, &documents, roots);
        let ghost plain = repository_views(repositories@);
        qualify_duplicate_repository_names(&mut repositories);
        let loose: Vec<DocumentId> = collect_members(&documents, None);
        let top: LibraryPath = LibraryPath::empty();
        let loose_documents: Vec<DocumentId> = sort_members(&documents, &loose, Ghost(None), &top);
        let mode: CatalogMode = if repositories.len() == 0 || (repositories.len() == 1
            && loose_documents.len() == 0) {
            CatalogMode::SingleLibrary
        } else {
            CatalogMode::Shelf
        };
        let pages: usize = documents.len();
        proof {
            assert(document_views(documents@).len() == pages);
            let c = CatalogView {
                root: root@,
                mode,
                repositories: repository_views(repositories@),
                documents: document_views(documents@),
                loose_documents: loose_documents@,
                diagnostics: diagnostic_views(diagnostics@),
            };
            assert(pending_views(pending@) == found);
            assert forall|d: int| 0 <= d < c.documents.len() implies is_document(
                #[trigger] c.documents[d],
                d,
                found[order@[d] as int],
                root_views,
            ) by {
                assert(is_document(
                    documents@[d]@,
                    d,
                    pending@[order@[d] as int]@,
                    root_views,
                ));
                assert(pending_views(pending@)[order@[d] as int] == pending@[order@[d] as int]@);
            }
            assert forall|i: int| 0 <= i < found.len() implies markdown_path(
                (#[trigger] found[i]).path,
            ) && valid_utf8(written(found[i].path)) by {
                assert(found[i] == pending@[i]@);
            }
            lemma_assembled(c, plain, found, order@, root_views);
            assert(is_catalog_of(c, root@, walk@.entries, walk@.known));
            law_scanned_catalogs_are_coherent(c, root@, walk@);
        }
        Ok(Catalog { root, mode, repositories, documents, loose_documents, diagnostics })
    }

    /// The canonical path of the library root.
    #[must_use]
    pub fn root(&self) -> (res: &[u8])
        ensures
            res@ == self@.root,
    {
        self.root.as_slice()
    }

    /// Whether the library opens as one collection or as a shelf.
    #[must_use]
    pub fn mode(&self) -> (res: CatalogMode)
        ensures
            res == self@.mode,
    {
        self.mode
    }

    /// The repositories, sorted by their roots.
    #[must_use]
    pub fn repositories(&self) -> (res: &[Repository])
        ensures
            repository_views(res@) == self@.repositories,
    {
        self.repositories.as_slice()
    }

    /// The documents, sorted by path.
    #[must_use]
    pub fn documents(&self) -> (res: &[Document])
        ensures
            document_views(res@) == self@.documents,
    {
        self.documents.as_slice()
    }

    /// The documents of no repository, in reading order.
    #[must_use]
    pub fn loose_documents(&self) -> (res: &[DocumentId])
        ensures
            res@ == self@.loose_documents,
    {
        self.loose_documents.as_slice()
    }

    /// The document that the loose documents open with.
    #[must_use]
    pub fn loose_default_document(&self) -> (res: Option<&Document>)
        ensures
            ({
                let id = chosen_document(
                    self@.documents,
                    self@.loose_documents,
                    Seq::empty(),
                );
                &&& res is Some <==> id is Some
                &&& res matches Some(document) ==> document@ == self@.documents[id->0 as int]
                    && document.id == id->0
            }),
    {
        proof {
            use_type_invariant(self);
        }
        let top: LibraryPath = LibraryPath::empty();
        match choose_default_document(
            self.documents.as_slice(),
            self.loose_documents.as_slice(),
            &top,
        ) {
            Some(id) => {
                proof {
                    lemma_chosen_is_listed(self@.documents, self@.loose_documents, Seq::empty());
                    assert(self@.documents[id as int].id == id);
                }
                Some(&self.documents[id])
            },
            None => None,
        }
    }

    /// What went wrong during the scan.
    #[must_use]
    pub fn diagnostics(&self) -> (res: &[CatalogDiagnostic])
        ensures
            diagnostic_views(res@) == self@.diagnostics,
    {
        self.diagnostics.as_slice()
    }

    /// The number of collections: the repositories, and the loose documents if there are any.
    #[must_use]
    pub fn collection_count(&self) -> (res: usize)
        ensures
            res == collections(self@),
    {
        proof {
            use_type_invariant(self);
        }
        let pages: usize = self.documents.len();
        assert(collections(self@) <= pages);
        if self.loose_documents.len() > 0 {
            self.repositories.len() + 1
        } else {
            self.repositories.len()
        }
    }

    /// The document with the given id.
    #[must_use]
    pub fn document(&self, id: DocumentId) -> (res: Option<&Document>)
        ensures
            res is Some <==> id < self@.documents.len(),
            res matches Some(document) ==> document@ == self@.documents[id as int] && document.id
                == id,
    {
        proof {
            use_type_invariant(self);
        }
        if id < self.documents.len() {
            assert(self@.documents[id as int].id == id);
            Some(&self.documents[id])
        } else {
            None
        }
    }

    /// The document with the given path.
    #[must_use]
    pub fn document_by_path(&self, relative_path: &LibraryPath) -> (res: Option<&Document>)
        ensures
            res is Some <==> document_at(self@.documents, relative_path@) is Some,
            res matches Some(document) ==> ({
                let d = document_at(self@.documents, relative_path@)->0;
                &&& 0 <= d < self@.documents.len()
                &&& document@ == self@.documents[d]
                &&& document.id == d
                &&& document@.path == relative_path@
            }),
    {
        proof {
            use_type_invariant(self);
        }
        let ghost views = self@.documents;
        let mut n: usize = self.documents.len();
        assert(views.take(n as int) =~= views);
        while n > 0
            invariant
                n <= views.len(),
                grouped(self@),
                views == self@.documents,
                views == document_views(self.documents@),
                document_at(views, relative_path@) == document_at(
                    views.take(n as int),
                    relative_path@,
                ),
            decreases n,
        {
            assert(views.take(n as int).drop_last() =~= views.take(n - 1));
            assert(views.take(n as int).last() == views[n - 1]);
            n -= 1;
            if self.documents[n].relative_path.equals(relative_path) {
                assert(views[n as int].id == n);
                return Some(&self.documents[n]);
            }
        }
        None
    }

    /// The document that a link target stands for.
    #[must_use]
    pub fn resolve_document_target(&self, target: &LibraryPath) -> (res: Option<&Document>)
        ensures
            res is Some <==> resolved_target(self@.documents, target@) is Some,
            res matches Some(document) ==> ({
                let d = resolved_target(self@.documents, target@)->0;
                &&& 0 <= d < self@.documents.len()
                &&& document@ == self@.documents[d]
                &&& document.id == d
            }),
    {
        proof {
            use_type_invariant(self);
        }
        let pages: usize = self.documents.len();
        assert(self@.documents.len() == pages);
        let exact: Option<&Document> = self.document_by_path(target);
        if exact.is_some() {
            return exact;
        }
        if target.extension().is_none() {
            let short: Option<&Document> = self.document_by_path(&with_extension(target, "md"));
            if short.is_some() {
                return short;
            }
            let long: Option<&Document> = self.document_by_path(&with_extension(target, "markdown"));
            if long.is_some() {
                return long;
            }
            let like: Vec<usize> = self.find_extensionless(target);
            if like.len() > 0 {
                proof {
                    lemma_positions_where(
                        self@.documents,
                        |d: DocumentView| is_extensionless(d, target@),
                        0,
                    );
                    assert(self@.documents[like@[0] as int].id == like@[0]);
                }
                return Some(&self.documents[like[0]]);
            }
        }
        let beneath: Vec<usize> = self.find_beneath(target);
        proof {
            assert forall|i: int| 0 <= i < beneath@.len() implies #[trigger] beneath@[i]
                < self.documents@.len() by {
                lemma_positions_where(
                    self@.documents,
                    |d: DocumentView| lies_beneath(d.path, target@),
                    i,
                );
            }
        }
        match choose_default_document(self.documents.as_slice(), beneath.as_slice(), target) {
            Some(id) => {
                proof {
                    lemma_chosen_is_listed(self@.documents, beneath@, target@);
                    assert(self@.documents[id as int].id == id);
                }
                Some(&self.documents[id])
            },
            None => None,
        }
    }

    /// The documents that have the target as their path when their extension is left out.
    fn find_extensionless(&self, target: &LibraryPath) -> (res: Vec<usize>)
        ensures
            res@ == positions_extensionless(self@.documents, target@),
    {
        let ghost views = self@.documents;
        let ghost p = |d: DocumentView| is_extensionless(d, target@);
        let mut found: Vec<usize> = Vec::new();
        let mut i: usize = 0;
        assert(views.take(0) =~= Seq::<DocumentView>::empty());
        while i < self.documents.len()
            invariant
                i <= views.len(),
                views == document_views(self.documents@),
                p == (|d: DocumentView| is_extensionless(d, target@)),
                found@ == positions_where(views.take(i as int), p),
            decreases views.len() - i,
        {
            assert(views.take(i + 1).drop_last() =~= views.take(i as int));
            assert(views.take(i + 1).last() == views[i as int]);
            let path: &LibraryPath = &self.documents[i].relative_path;
            if self.leaves_out_extension(path, target) {
                found.push(i);
            }
            i += 1;
        }
        assert(views.take(i as int) =~= views);
        found
    }

    /// Whether a path is the target when its Markdown extension is left out.
    fn leaves_out_extension(&self, path: &LibraryPath, target: &LibraryPath) -> (res: bool)
        ensures
            res == (target@.len() > 0 && path@.len() == target@.len() && path@.drop_last()
                == target@.drop_last() && stem_of(path@.last()) == target@.last() && markdown_path(
                path@,
            )),
    {
        if path.len() != target.len() {
            return false;
        }
        match (path.parent(), target.parent(), path.file_stem(), target.file_name()) {
            (Some(directory), Some(wanted), Some(stem), Some(name)) => directory.equals(&wanted)
                && bytes_eq(stem, name) && crate::discovery::is_markdown_path(path),
            _ => false,
        }
    }

    /// The documents at or beneath a path.
    fn find_beneath(&self, target: &LibraryPath) -> (res: Vec<usize>)
        ensures
            res@ == positions_beneath(self@.documents, target@),
    {
        let ghost views = self@.documents;
        let ghost p = |d: DocumentView| lies_beneath(d.path, target@);
        let mut found: Vec<usize> = Vec::new();
        let mut i: usize = 0;
        assert(views.take(0) =~= Seq::<DocumentView>::empty());
        while i < self.documents.len()
            invariant
                i <= views.len(),
                views == document_views(self.documents@),
                p == (|d: DocumentView| lies_beneath(d.path, target@)),
                found@ == positions_where(views.take(i as int), p),
            decreases views.len() - i,
        {
            assert(views.take(i + 1).drop_last() =~= views.take(i as int));
            assert(views.take(i + 1).last() == views[i as int]);
            if self.documents[i].relative_path.starts_with(target) {
                found.push(i);
            }
            i += 1;
        }
        assert(views.take(i as int) =~= views);
        found
    }

    /// Where the library opens.
    #[must_use]
    pub fn landing(&self) -> (res: Landing)
        ensures
            res == landing_of(self@),
    {
        match self.mode {
            CatalogMode::Shelf => {
                return Landing::Shelf;
            },
            CatalogMode::SingleLibrary => {},
        }
        if self.repositories.len() > 0 {
            return match self.repositories[0].default_document {
                Some(id) => Landing::Document(id),
                None => Landing::Shelf,
            };
        }
        match self.loose_default_document() {
            Some(document) => Landing::Document(document.id),
            None => Landing::Shelf,
        }
    }
}

/// A path with an extension behind its last name.
fn with_extension(path: &LibraryPath, extension: &str) -> (res: LibraryPath)
    requires
        extension@ == "md"@ || extension@ == "markdown"@,
    ensures
        res@ == extended(path@, extension@),
{
    match (path.parent(), path.file_name()) {
        (Some(directory), Some(last)) => {
            let mut name: Vec<u8> = copy_of(last);
            let ghost before = name@;
            let more: &[u8] = extension.as_bytes();
            name.push(46);
            let mut i: usize = 0;
            while i < more.len()
                invariant
                    i <= more@.len(),
                    name@ == before.push(46) + more@.take(i as int),
                decreases more@.len() - i,
            {
                name.push(more[i]);
                i += 1;
                assert(more@.take(i as int) =~= more@.take(i - 1).push(more@[i - 1]));
            }
            proof {
                assert(more@.take(i as int) =~= more@);
                use_type_invariant(path);
                assert(crate::paths::ordinary_name(path@[path@.len() - 1]));
                lemma_extended_name(before, extension@);
                assert(name@ =~= before + encode_utf8("."@) + encode_utf8(extension@));
            }
            directory.child(name.as_slice())
        },
        _ => path.clone(),
    }
}

/// A name with a Markdown extension behind it is ordinary.
proof fn lemma_extended_name(name: Seq<u8>, extension: Seq<char>)
    requires
        crate::paths::ordinary_name(name),
        extension == "md"@ || extension == "markdown"@,
    ensures
        encode_utf8("."@) == seq![46u8],
        crate::paths::ordinary_name(name + encode_utf8("."@) + encode_utf8(extension)),
{
    reveal_strlit(".");
    reveal_strlit("md");
    reveal_strlit("markdown");
    vstd::utf8::is_ascii_chars_encode_utf8("."@);
    vstd::utf8::is_ascii_chars_encode_utf8(extension);
    assert(encode_utf8("."@) =~= seq![46u8]);
    let all = name + encode_utf8("."@) + encode_utf8(extension);
    let e = encode_utf8(extension);
    assert(all.len() >= 4);
    assert forall|i: int| 0 <= i < all.len() implies all[i] != crate::paths::slash() by {
        if i < name.len() {
            assert(all[i] == name[i]);
            if name[i] == crate::paths::slash() {
                assert(name.contains(crate::paths::slash()));
            }
        } else if i > name.len() {
            let j = i - name.len() - 1;
            assert(all[i] == e[j]);
            assert(extension[j] as u8 == e[j]);
        }
    }
}

/// Every position found is that of a document that satisfies the predicate.
pub proof fn lemma_positions_where(
    documents: Seq<DocumentView>,
    p: spec_fn(DocumentView) -> bool,
    i: int,
)
    requires
        documents.len() <= usize::MAX,
        0 <= i < positions_where(documents, p).len(),
    ensures
        positions_where(documents, p)[i] < documents.len(),
        p(documents[positions_where(documents, p)[i] as int]),
    decreases documents.len(),
{
    let before = positions_where(documents.drop_last(), p);
    if i < before.len() {
        lemma_positions_where(documents.drop_last(), p, i);
        assert(positions_where(documents, p)[i] == before[i]);
        assert(documents.drop_last()[before[i] as int] == documents[before[i] as int]);
    }
}

} // verus!
