//! What the pages of the reader show: the shelf, the navigation beside a document, the document
//! itself, and errors.

use vstd::prelude::*;
use crate::catalog::{
    grouped, collections, is_collection, landing_of, repository_stands, repository_views, Catalog,
    CatalogView, Document, DocumentId, DocumentView, Landing, Repository, RepositoryView,
};
use crate::reading::{chosen_document, lemma_chosen_is_listed};
use crate::catalog_laws::law_one_collection_opens_directly;
use crate::pathing::{document_address, document_url};
use crate::paths::{show, shown, written};
use crate::text::{ascii_lowercase, lower_text};

verus! {

broadcast use vstd::string::group_string_axioms;

/// What the filter of a list looks through: two pieces of text in lower case.
pub open spec fn filter_text(a: Seq<char>, b: Seq<char>) -> Seq<char> {
    lower_text(a) + " "@ + lower_text(b)
}

/// What the filter of a list looks through.
fn filter_value_of(a: &str, b: &str) -> (res: String)
    ensures
        res@ == filter_text(a@, b@),
{
    ascii_lowercase(a).concat(" ").concat(ascii_lowercase(b).as_str())
}

// ---------------------------------------------------------------------------
// Status
// ---------------------------------------------------------------------------

/// The status of a reply that is an error.
#[derive(Clone, Copy, Debug, PartialEq, Eq, Structural)]
pub enum Status {
    NotFound,
    PayloadTooLarge,
    UnprocessableEntity,
    InternalServerError,
    ServiceUnavailable,
}

/// The number of a status.
pub open spec fn status_code(status: Status) -> u16 {
    match status {
        Status::NotFound => 404,
        Status::PayloadTooLarge => 413,
        Status::UnprocessableEntity => 422,
        Status::InternalServerError => 500,
        Status::ServiceUnavailable => 503,
    }
}

/// The digits of a status.
pub open spec fn status_text(status: Status) -> Seq<char> {
    match status {
        Status::NotFound => "404"@,
        Status::PayloadTooLarge => "413"@,
        Status::UnprocessableEntity => "422"@,
        Status::InternalServerError => "500"@,
        Status::ServiceUnavailable => "503"@,
    }
}

impl Status {
    /// The number of the status.
    #[must_use]
    pub fn code(self) -> (res: u16)
        ensures
            res == status_code(self),
    {
        match self {
                Status::NotFound => 404,
            Status::PayloadTooLarge => 413,
            Status::UnprocessableEntity => 422,
            Status::InternalServerError => 500,
            Status::ServiceUnavailable => 503,
        }
    }

    /// The digits of the status.
    #[must_use]
    pub fn as_str(self) -> (res: &'static str)
        ensures
            res@ == status_text(self),
    {
        match self {
            Status::NotFound => "404",
            Status::PayloadTooLarge => "413",
            Status::UnprocessableEntity => "422",
            Status::InternalServerError => "500",
            Status::ServiceUnavailable => "503",
        }
    }
}

// ---------------------------------------------------------------------------
// Errors
// ---------------------------------------------------------------------------

/// A page that says what went wrong.
#[derive(Debug)]
pub struct ErrorView {
    pub code: Status,
    pub page_title: String,
    pub body_class: &'static str,
    pub status: String,
    pub heading: String,
    pub message: String,
}

/// What a page that says what went wrong holds.
pub struct ErrorContent {
    pub code: Status,
    pub page_title: Seq<char>,
    pub body_class: Seq<char>,
    pub status: Seq<char>,
    pub heading: Seq<char>,
    pub message: Seq<char>,
}

impl View for ErrorView {
    type V = ErrorContent;

    open spec fn view(&self) -> ErrorContent {
        ErrorContent {
            code: self.code,
            page_title: self.page_title@,
            body_class: self.body_class@,
            status: self.status@,
            heading: self.heading@,
            message: self.message@,
        }
    }
}

/// The page for an error.
pub open spec fn error_content(
    status: Status,
    heading: Seq<char>,
    message: Seq<char>,
) -> ErrorContent {
    ErrorContent {
        code: status,
        page_title: heading + " — mdfolio"@,
        body_class: "error-page"@,
        status: status_text(status),
        heading,
        message,
    }
}

/// The page for an error.
#[must_use]
pub fn error_view(status: Status, heading: &str, message: &str) -> (res: ErrorView)
    ensures
        res@ == error_content(status, heading@, message@),
{
    ErrorView {
        code: status,
        page_title: heading.to_owned().concat(" — mdfolio"),
        body_class: "error-page",
        status: status.as_str().to_owned(),
        heading: heading.to_owned(),
        message: message.to_owned(),
    }
}

// ---------------------------------------------------------------------------
// The shelf
// ---------------------------------------------------------------------------

/// A collection on the shelf.
#[derive(Debug)]
pub struct CollectionView {
    pub name: String,
    pub qualifier: String,
    pub has_qualifier: bool,
    pub href: String,
    pub filter_value: String,
}

/// What a collection on the shelf shows.
pub struct CollectionEntry {
    pub name: Seq<char>,
    pub qualifier: Seq<char>,
    pub has_qualifier: bool,
    pub href: Seq<char>,
    pub filter_value: Seq<char>,
}

impl View for CollectionView {
    type V = CollectionEntry;

    open spec fn view(&self) -> CollectionEntry {
        CollectionEntry {
            name: self.name@,
            qualifier: self.qualifier@,
            has_qualifier: self.has_qualifier,
            href: self.href@,
            filter_value: self.filter_value@,
        }
    }
}

/// What collections on the shelf show.
pub open spec fn collection_entries(views: Seq<CollectionView>) -> Seq<CollectionEntry> {
    views.map_values(|view: CollectionView| view@)
}

/// A repository on the shelf, with the document that it opens with.
pub open spec fn repository_entry(
    repository: RepositoryView,
    document: DocumentView,
) -> CollectionEntry {
    let qualifier = match repository.qualifier {
        Some(qualifier) => qualifier,
        None => Seq::empty(),
    };
    CollectionEntry {
        name: repository.name,
        qualifier,
        has_qualifier: qualifier.len() > 0,
        href: document_address(document.path),
        filter_value: filter_text(repository.name, shown(written(repository.root))),
    }
}

/// The loose documents on the shelf, with the document that they open with.
pub open spec fn loose_entry(document: DocumentView) -> CollectionEntry {
    CollectionEntry {
        name: "Loose folios"@,
        qualifier: Seq::empty(),
        has_qualifier: false,
        href: document_address(document.path),
        filter_value: "loose folios"@,
    }
}

/// The repositories of a library on the shelf.
pub open spec fn repository_entries(c: CatalogView) -> Seq<CollectionEntry> {
    Seq::new(
        c.repositories.len(),
        |r: int|
            repository_entry(
                c.repositories[r],
                c.documents[c.repositories[r].default_document->0 as int],
            ),
    )
}

/// The collections on the shelf: the repositories, and behind them the loose documents if there
/// are any.
pub open spec fn shelf_entries(c: CatalogView) -> Seq<CollectionEntry> {
    match chosen_document(c.documents, c.loose_documents, Seq::empty()) {
        Some(id) => repository_entries(c).push(loose_entry(c.documents[id as int])),
        None => repository_entries(c),
    }
}

/// The shelf.
#[derive(Debug)]
pub struct ShelfView {
    pub page_title: String,
    pub body_class: &'static str,
    pub root_path: String,
    pub collections: Vec<CollectionView>,
    pub show_filter: bool,
    pub empty: bool,
    pub has_diagnostics: bool,
}

/// What the shelf shows.
pub struct ShelfContent {
    pub page_title: Seq<char>,
    pub body_class: Seq<char>,
    pub root_path: Seq<char>,
    pub collections: Seq<CollectionEntry>,
    pub show_filter: bool,
    pub empty: bool,
    pub has_diagnostics: bool,
}

impl View for ShelfView {
    type V = ShelfContent;

    open spec fn view(&self) -> ShelfContent {
        ShelfContent {
            page_title: self.page_title@,
            body_class: self.body_class@,
            root_path: self.root_path@,
            collections: collection_entries(self.collections@),
            show_filter: self.show_filter,
            empty: self.empty,
            has_diagnostics: self.has_diagnostics,
        }
    }
}

/// The shelf of a library: its collections, with a filter where there are more than four.
pub open spec fn shelf_content(c: CatalogView) -> ShelfContent {
    ShelfContent {
        page_title: "mdfolio — repository shelf"@,
        body_class: "shelf-page"@,
        root_path: shown(c.root),
        collections: shelf_entries(c),
        show_filter: shelf_entries(c).len() > 4,
        empty: shelf_entries(c).len() == 0,
        has_diagnostics: c.diagnostics.len() > 0,
    }
}

/// Every repository opens with a document of its own.
proof fn lemma_repository_opens(c: CatalogView, r: int)
    requires
        grouped(c),
        0 <= r < c.repositories.len(),
    ensures
        c.repositories[r].default_document matches Some(id) && id < c.documents.len(),
{
    assert(repository_stands(c, r));
    let it = c.repositories[r];
    lemma_chosen_is_listed(c.documents, it.documents, it.root);
    let id = chosen_document(c.documents, it.documents, it.root)->0;
    let i = choose|i: int| 0 <= i < it.documents.len() && it.documents[i] == id;
    assert(it.documents[i] < c.documents.len());
}

/// A repository on the shelf.
fn repository_view(repository: &Repository, document: &Document) -> (res: CollectionView)
    ensures
        res@ == repository_entry(repository@, document@),
{
    let qualifier: String = match &repository.qualifier {
        Some(qualifier) => qualifier.as_str().to_owned(),
        None => String::new(),
    };
    let has_qualifier: bool = qualifier.as_str().as_bytes().len() > 0;
    assert(qualifier@.len() == 0 ==> !has_qualifier);
    let root: String = repository.root_relative.to_text();
    CollectionView {
        name: repository.name.as_str().to_owned(),
        qualifier,
        has_qualifier,
        href: document_url(&document.relative_path),
        filter_value: filter_value_of(repository.name.as_str(), root.as_str()),
    }
}

/// The shelf of a library.
#[must_use]
pub fn shelf_view(catalog: &Catalog) -> (res: ShelfView)
    ensures
        res@ == shelf_content(catalog@),
{
    proof {
        use_type_invariant(catalog);
    }
    let ghost c = catalog@;
    let mut collections: Vec<CollectionView> = Vec::new();
    let repositories: &[Repository] = catalog.repositories();
    let mut r: usize = 0;
    while r < repositories.len()
        invariant
            r <= repositories.len(),
            c == catalog@,
            grouped(c),
            repository_views(repositories@) == c.repositories,
            collection_entries(collections@) =~= repository_entries(c).take(r as int),
        decreases repositories.len() - r,
    {
        let repository: &Repository = &repositories[r];
        proof {
            lemma_repository_opens(c, r as int);
            assert(repository_views(repositories@)[r as int] == repository@);
        }
        if let Some(id) = repository.default_document {
            if let Some(document) = catalog.document(id) {
                collections.push(repository_view(repository, document));
                assert(collection_entries(collections@) =~= collection_entries(
                    collections@.drop_last(),
                ).push(collections@.last()@));
                assert(repository_entries(c).take(r + 1) =~= repository_entries(c).take(
                    r as int,
                ).push(repository_entries(c)[r as int]));
            }
        }
        r += 1;
    }
    assert(repository_entries(c).take(r as int) =~= repository_entries(c));
    if let Some(document) = catalog.loose_default_document() {
        let ghost before = collections@;
        let loose: CollectionView = CollectionView {
            name: "Loose folios".to_owned(),
            qualifier: String::new(),
            has_qualifier: false,
            href: document_url(&document.relative_path),
            filter_value: "loose folios".to_owned(),
        };
        assert(loose@ == loose_entry(document@)) by {
            assert(loose@.qualifier =~= Seq::empty());
        }
        collections.push(loose);
        assert(collection_entries(collections@) =~= collection_entries(before).push(loose@));
    }
    assert(collection_entries(collections@) == shelf_entries(c));
    ShelfView {
        page_title: "mdfolio — repository shelf".to_owned(),
        body_class: "shelf-page",
        root_path: show(catalog.root()),
        show_filter: collections.len() > 4,
        empty: collections.len() == 0,
        collections,
        has_diagnostics: catalog.diagnostics().len() > 0,
    }
}

/// Where a library opens.
#[derive(Debug)]
pub enum LandingReply {
    Redirect(String),
    Shelf(ShelfView),
}

/// Whether a reply is that to a request for the library: the shelf, or a redirect to the one
/// document that it opens with.
pub open spec fn answers_landing(reply: LandingReply, c: CatalogView) -> bool {
    match landing_of(c) {
        Landing::Shelf => reply matches LandingReply::Shelf(shelf) && shelf@ == shelf_content(c),
        Landing::Document(id) => reply matches LandingReply::Redirect(location) && id
            < c.documents.len() && location@ == document_address(c.documents[id as int].path),
    }
}

/// The reply to a request for the library.
#[must_use]
pub fn landing_reply(catalog: &Catalog) -> (res: LandingReply)
    ensures
        answers_landing(res, catalog@),
{
    proof {
        use_type_invariant(catalog);
        law_one_collection_opens_directly(catalog@);
    }
    if let Landing::Document(id) = catalog.landing() {
        if let Some(document) = catalog.document(id) {
            return LandingReply::Redirect(document_url(&document.relative_path));
        }
    }
    LandingReply::Shelf(shelf_view(catalog))
}

// ---------------------------------------------------------------------------
// Navigation
// ---------------------------------------------------------------------------

/// A document in the navigation.
#[derive(Debug)]
pub struct NavigationView {
    pub title: String,
    pub path: String,
    pub href: String,
    pub filter_value: String,
    pub current: bool,
}

/// What a document in the navigation shows.
pub struct NavigationEntry {
    pub title: Seq<char>,
    pub path: Seq<char>,
    pub href: Seq<char>,
    pub filter_value: Seq<char>,
    pub current: bool,
}

impl View for NavigationView {
    type V = NavigationEntry;

    open spec fn view(&self) -> NavigationEntry {
        NavigationEntry {
            title: self.title@,
            path: self.path@,
            href: self.href@,
            filter_value: self.filter_value@,
            current: self.current,
        }
    }
}

/// What documents in the navigation show.
pub open spec fn navigation_entries(views: Seq<NavigationView>) -> Seq<NavigationEntry> {
    views.map_values(|view: NavigationView| view@)
}

/// A document in the navigation beside the document `current`.
pub open spec fn navigation_entry(document: DocumentView, current: int) -> NavigationEntry {
    NavigationEntry {
        title: document.title,
        path: shown(written(document.path)),
        href: document_address(document.path),
        filter_value: filter_text(document.title, shown(written(document.path))),
        current: document.id == current,
    }
}

/// The collection of a document: the documents of its repository, or the loose ones.
pub open spec fn collection_of(c: CatalogView, document: int) -> Seq<usize> {
    match c.documents[document].repository {
        Some(r) => c.repositories[r as int].documents,
        None => c.loose_documents,
    }
}

/// The navigation beside a document: the documents of its collection, in reading order.
pub open spec fn navigation_beside(c: CatalogView, current: int) -> Seq<NavigationEntry> {
    if current < c.documents.len() {
        let ids = collection_of(c, current);
        Seq::new(
            ids.len(),
            |i: int| navigation_entry(c.documents[ids[i] as int], current),
        )
    } else {
        Seq::empty()
    }
}

/// The ids of a collection are those of documents.
pub proof fn lemma_collection_of(c: CatalogView, current: int)
    requires
        grouped(c),
        0 <= current < c.documents.len(),
    ensures
        is_collection(
            c.documents,
            collection_of(c, current),
            c.documents[current].repository,
            match c.documents[current].repository {
                Some(r) => c.repositories[r as int].root,
                None => Seq::empty(),
            },
        ),
{
    assert(c.documents[current].id == current);
    if let Some(r) = c.documents[current].repository {
        assert(repository_stands(c, r as int));
    }
}

/// The navigation beside a document.
#[must_use]
pub fn navigation_for(catalog: &Catalog, current: DocumentId) -> (res: Vec<NavigationView>)
    ensures
        navigation_entries(res@) == navigation_beside(catalog@, current as int),
{
    proof {
        use_type_invariant(catalog);
    }
    let ghost c = catalog@;
    let mut views: Vec<NavigationView> = Vec::new();
    let ids: &[DocumentId] = match catalog.document(current) {
        Some(document) => match document.repository {
            Some(repository) => {
                assert(c.documents[current as int].repository == Some(repository));
                let repositories: &[Repository] = catalog.repositories();
                assert(repository_views(repositories@)[repository as int]
                    == repositories@[repository as int]@);
                repositories[repository].documents.as_slice()
            },
            None => catalog.loose_documents(),
        },
        None => {
            return views;
        },
    };
    assert(ids@ == collection_of(c, current as int));
    proof {
        lemma_collection_of(c, current as int);
    }
    let mut i: usize = 0;
    while i < ids.len()
        invariant
            i <= ids.len(),
            c == catalog@,
            current < c.documents.len(),
            forall|j: int| 0 <= j < ids@.len() ==> #[trigger] ids@[j] < c.documents.len(),
            ids@ == collection_of(c, current as int),
            navigation_entries(views@) =~= navigation_beside(c, current as int).take(i as int),
        decreases ids.len() - i,
    {
        if let Some(document) = catalog.document(ids[i]) {
            let ghost before = views@;
            let path: String = document.relative_path.to_text();
            let view: NavigationView = NavigationView {
                title: document.title.as_str().to_owned(),
                href: document_url(&document.relative_path),
                filter_value: filter_value_of(document.title.as_str(), path.as_str()),
                current: document.id == current,
                path,
            };
            views.push(view);
            assert(navigation_entries(views@) =~= navigation_entries(before).push(view@));
            assert(navigation_beside(c, current as int).take(i + 1) =~= navigation_beside(
                c,
                current as int,
            ).take(i as int).push(navigation_beside(c, current as int)[i as int]));
        }
        i += 1;
    }
    assert(navigation_beside(c, current as int).take(i as int) =~= navigation_beside(
        c,
        current as int,
    ));
    views
}

// ---------------------------------------------------------------------------
// A document
// ---------------------------------------------------------------------------

/// A page that shows a document.
#[derive(Debug)]
pub struct ReaderView {
    pub page_title: String,
    pub body_class: &'static str,
    pub library_name: String,
    pub show_shelf_link: bool,
    pub navigation: Vec<NavigationView>,
    pub document_path: String,
    pub article_html: String,
}

/// What a page that shows a document holds.
pub struct ReaderContent {
    pub page_title: Seq<char>,
    pub body_class: Seq<char>,
    pub library_name: Seq<char>,
    pub show_shelf_link: bool,
    pub navigation: Seq<NavigationEntry>,
    pub document_path: Seq<char>,
    pub article_html: Seq<char>,
}

impl View for ReaderView {
    type V = ReaderContent;

    open spec fn view(&self) -> ReaderContent {
        ReaderContent {
            page_title: self.page_title@,
            body_class: self.body_class@,
            library_name: self.library_name@,
            show_shelf_link: self.show_shelf_link,
            navigation: navigation_entries(self.navigation@),
            document_path: self.document_path@,
            article_html: self.article_html@,
        }
    }
}

/// The name of the collection of a document.
pub open spec fn collection_name(c: CatalogView, document: int) -> Seq<char> {
    match c.documents[document].repository {
        Some(r) => c.repositories[r as int].name,
        None => "Loose folios"@,
    }
}

/// The page that shows a document.
pub open spec fn reader_content(
    c: CatalogView,
    document: int,
    article_html: Seq<char>,
) -> ReaderContent {
    ReaderContent {
        page_title: c.documents[document].title + " — mdfolio"@,
        body_class: "reader-page"@,
        library_name: collection_name(c, document),
        show_shelf_link: collections(c) > 1,
        navigation: navigation_beside(c, document),
        document_path: shown(written(c.documents[document].path)),
        article_html,
    }
}

/// The page that shows a document.
#[must_use]
pub fn reader_view(catalog: &Catalog, document: &Document, article_html: String) -> (res:
    ReaderView)
    requires
        document.id < catalog@.documents.len(),
        document@ == catalog@.documents[document.id as int],
    ensures
        res@ == reader_content(catalog@, document.id as int, article_html@),
{
    proof {
        use_type_invariant(catalog);
    }
    let library_name: String = match document.repository {
        Some(repository) => {
            assert(document@.repository == Some(repository));
            let repositories: &[Repository] = catalog.repositories();
            assert(repository_views(repositories@)[repository as int]
                == repositories@[repository as int]@);
            repositories[repository].name.as_str().to_owned()
        },
        None => "Loose folios".to_owned(),
    };
    ReaderView {
        page_title: document.title.as_str().to_owned().concat(" — mdfolio"),
        body_class: "reader-page",
        library_name,
        show_shelf_link: catalog.collection_count() > 1,
        navigation: navigation_for(catalog, document.id),
        document_path: document.relative_path.to_text(),
        article_html,
    }
}

} // verus!
