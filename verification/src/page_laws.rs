//! What holds of the pages of every library: what they show, and where they lead.

use vstd::prelude::*;
use vstd::utf8::{decode_utf8, valid_utf8};
use crate::assembly::qualified;
use crate::catalog::{
    coherent, is_collection, names_of, repository_stands, shares_name, CatalogView, RepositoryView,
};
use crate::link_laws::law_addresses_begin_with_their_route;
use crate::pages::{
    collection_of, error_content, lemma_collection_of, navigation_beside, reader_content,
    repository_entries, shelf_content, shelf_entries, status_code, Status,
};
use crate::pathing::{document_address, encoded_path};
use crate::paths::{components, is_slash, slash, written};
use crate::reading::chosen_document;
use crate::reading_laws::{
    collection_root, law_collections_are_read_in_order,
    law_loose_documents_open_with_what_is_read_first,
    law_repositories_open_with_what_is_read_first, read_no_later,
};
use crate::server::{asked_path, opened_document, Route};
use crate::server_laws::law_addresses_open_their_documents;
use crate::text::{lemma_field_alone, lemma_fields_at_separator, lower_text};

verus! {

/// Whether an address is that of a document: it is `/_mdfolio/doc/` and the path of the document,
/// and the document is what is opened there.
pub open spec fn leads_to(c: CatalogView, href: Seq<char>, d: int) -> bool {
    &&& 0 <= d < c.documents.len()
    &&& href == "/_mdfolio/doc/"@ + encoded_path(c.documents[d].path)
    &&& asked_path(href, Route::Document) matches Some(asked) && opened_document(c, asked) == Some(d)
}

pub proof fn lemma_leads_to(c: CatalogView, d: int)
    requires
        coherent(c),
        0 <= d < c.documents.len(),
    ensures
        leads_to(c, document_address(c.documents[d].path), d),
        valid_utf8(written(c.documents[d].path)),
{
    assert(c.documents[d].id == d);
    law_addresses_open_their_documents(c, d);
    law_addresses_begin_with_their_route(c.documents[d].path);
}

/// What stands behind the prefix of a route is the path that is asked for.
pub proof fn law_routes_ask_for_what_follows_their_prefix(path: Seq<char>)
    ensures
        asked_path("/_mdfolio/doc/"@ + path, Route::Document) == Some(path),
        asked_path("/_mdfolio/asset/"@ + path, Route::Asset) == Some(path),
        asked_path("/_mdfolio/missing/"@ + path, Route::Missing) == Some(path),
{
    reveal_strlit("/_mdfolio");
    reveal_strlit("/doc/");
    reveal_strlit("/asset/");
    reveal_strlit("/missing/");
    reveal_strlit("/_mdfolio/doc/");
    reveal_strlit("/_mdfolio/asset/");
    reveal_strlit("/_mdfolio/missing/");
    let a = "/_mdfolio/doc/"@;
    let b = "/_mdfolio/asset/"@;
    let c = "/_mdfolio/missing/"@;
    assert("/_mdfolio"@ + "/doc/"@ =~= a);
    assert("/_mdfolio"@ + "/asset/"@ =~= b);
    assert("/_mdfolio"@ + "/missing/"@ =~= c);
    assert((a + path).take(a.len() as int) =~= a);
    assert((b + path).take(b.len() as int) =~= b);
    assert((c + path).take(c.len() as int) =~= c);
    assert((a + path).skip(a.len() as int) =~= path);
    assert((b + path).skip(b.len() as int) =~= path);
    assert((c + path).skip(c.len() as int) =~= path);
}

// ---------------------------------------------------------------------------
// Navigation
// ---------------------------------------------------------------------------

proof fn lemma_navigation(c: CatalogView, current: int, i: int)
    requires
        coherent(c),
        0 <= current < c.documents.len(),
        0 <= i < navigation_beside(c, current).len(),
    ensures
        navigation_beside(c, current).len() == collection_of(c, current).len(),
        ({
            let d = collection_of(c, current)[i] as int;
            let entry = navigation_beside(c, current)[i];
            &&& leads_to(c, entry.href, d)
            &&& entry.title == c.documents[d].title
            &&& entry.path == decode_utf8(written(c.documents[d].path))
            &&& entry.filter_value == lower_text(entry.title) + seq![' '] + lower_text(entry.path)
            &&& c.documents[d].repository == c.documents[current].repository
            &&& entry.current == (d == current)
        }),
{
    lemma_collection_of(c, current);
    let ids = collection_of(c, current);
    let d = ids[i] as int;
    assert(ids[i] < c.documents.len());
    assert(c.documents[d].id == d);
    lemma_leads_to(c, d);
    reveal_strlit(" ");
    assert(" "@ =~= seq![' ']);
}

/// Every entry of the navigation leads to the document whose title and path it shows, and that
/// document is in the same collection as the one beside which it stands. The entry of that one is
/// marked, and no other is. What the filter looks through is the title and the path in lower case.
pub proof fn law_navigation_leads_to_what_it_shows(c: CatalogView, current: int, i: int)
    requires
        coherent(c),
        0 <= current < c.documents.len(),
        0 <= i < navigation_beside(c, current).len(),
    ensures
        ({
            let entry = navigation_beside(c, current)[i];
            exists|d: int| #[trigger]
                leads_to(c, entry.href, d) && entry.title == c.documents[d].title && entry.path
                    == decode_utf8(written(c.documents[d].path)) && c.documents[d].repository
                    == c.documents[current].repository && entry.current == (d == current)
                    && entry.filter_value == lower_text(entry.title) + seq![' '] + lower_text(
                    entry.path,
                )
        }),
{
    lemma_navigation(c, current, i);
    let d = collection_of(c, current)[i] as int;
    assert(leads_to(c, navigation_beside(c, current)[i].href, d));
}

/// Every document of the collection is in the navigation.
pub proof fn law_navigation_leads_to_the_whole_collection(c: CatalogView, current: int, d: int)
    requires
        coherent(c),
        0 <= current < c.documents.len() <= usize::MAX,
        0 <= d < c.documents.len(),
        c.documents[d].repository == c.documents[current].repository,
    ensures
        exists|i: int|
            0 <= i < navigation_beside(c, current).len() && leads_to(
                c,
                (#[trigger] navigation_beside(c, current)[i]).href,
                d,
            ),
{
    lemma_collection_of(c, current);
    let ids = collection_of(c, current);
    assert(ids.contains(d as usize));
    let i = choose|i: int| 0 <= i < ids.len() && ids[i] == d as usize;
    assert(navigation_beside(c, current).len() == ids.len());
    lemma_navigation(c, current, i);
    assert(leads_to(c, navigation_beside(c, current)[i].href, d));
}

/// The navigation is in reading order, and leads nowhere twice.
pub proof fn law_navigation_is_in_reading_order(c: CatalogView, current: int, i: int, j: int)
    requires
        coherent(c),
        0 <= current < c.documents.len(),
        0 <= i < j < navigation_beside(c, current).len(),
    ensures
        exists|a: int, b: int| #[trigger]
            leads_to(c, navigation_beside(c, current)[i].href, a) && #[trigger] leads_to(
                c,
                navigation_beside(c, current)[j].href,
                b,
            ) && a != b && read_no_later(
                collection_root(c, current),
                c.documents[a].path,
                c.documents[b].path,
            ),
{
    lemma_navigation(c, current, i);
    lemma_navigation(c, current, j);
    lemma_collection_of(c, current);
    let ids = collection_of(c, current);
    let a = ids[i] as int;
    let b = ids[j] as int;
    assert(c.documents[current].id == current);
    let r = match c.documents[current].repository {
        Some(r) => r as int,
        None => 0,
    };
    law_collections_are_read_in_order(c, ids, r, i, j);
    assert(collection_root(c, a) == collection_root(c, current));
    assert(a != b) by {
        let root = collection_root(c, current);
        assert(crate::catalog::member_before(c.documents, root, ids[i], ids[j]));
        let key = crate::reading::collection_key(c.documents[a], root);
        crate::order::lemma_key_order(key, key, key);
    }
    assert(leads_to(c, navigation_beside(c, current)[i].href, a));
    assert(leads_to(c, navigation_beside(c, current)[j].href, b));
}

// ---------------------------------------------------------------------------
// The page of a document
// ---------------------------------------------------------------------------

/// The page of a document shows its title, its path, its collection and its HTML, and has a link to
/// the shelf exactly where some document belongs to another collection.
pub proof fn law_pages_show_their_document(c: CatalogView, d: int, e: int, html: Seq<char>)
    requires
        coherent(c),
        0 <= d < c.documents.len() <= usize::MAX,
        0 <= e < c.documents.len(),
    ensures
        ({
            let page = reader_content(c, d, html);
            &&& page.page_title == c.documents[d].title + " — mdfolio"@
            &&& page.body_class == "reader-page"@
            &&& page.document_path == decode_utf8(written(c.documents[d].path))
            &&& page.article_html == html
            &&& page.library_name == (match c.documents[d].repository {
                Some(r) => c.repositories[r as int].name,
                None => "Loose folios"@,
            })
            &&& c.documents[d].repository != c.documents[e].repository ==> page.show_shelf_link
            &&& (forall|f: int|
                0 <= f < c.documents.len() ==> (#[trigger] c.documents[f]).repository
                    == c.documents[d].repository) ==> !page.show_shelf_link
            &&& page.navigation == navigation_beside(c, d)
        }),
{
    assert(c.documents[d].id == d);
    assert(c.documents[e].id == e);
    lemma_is_listed(c, d);
    lemma_is_listed(c, e);
    if forall|f: int|
        0 <= f < c.documents.len() ==> (#[trigger] c.documents[f]).repository
            == c.documents[d].repository {
        if c.loose_documents.len() > 0 {
            assert(c.documents[c.loose_documents[0] as int].repository is None);
        }
        if c.repositories.len() > 0 {
            lemma_opens(c, 0);
        }
        if c.repositories.len() > 1 {
            lemma_opens(c, 1);
        }
    }
}

proof fn lemma_is_listed(c: CatalogView, d: int)
    requires
        coherent(c),
        0 <= d < c.documents.len() <= usize::MAX,
    ensures
        c.documents[d].repository is None ==> c.loose_documents.len() > 0,
        c.documents[d].repository matches Some(r) ==> r < c.repositories.len(),
{
    assert(c.documents[d].id == d);
    if c.documents[d].repository is None {
        assert(c.loose_documents.contains(d as usize));
    }
}

/// A repository has a document.
proof fn lemma_opens(c: CatalogView, r: int)
    requires
        coherent(c),
        0 <= r < c.repositories.len() <= usize::MAX,
    ensures
        ({
            let f = c.repositories[r].documents[0] as int;
            0 <= f < c.documents.len() && c.documents[f].repository == Some(r as usize)
        }),
{
    assert(repository_stands(c, r));
    let ids = c.repositories[r].documents;
    assert(is_collection(c.documents, ids, Some(r as usize), c.repositories[r].root));
    assert(ids[0] < c.documents.len());
}

// ---------------------------------------------------------------------------
// The shelf
// ---------------------------------------------------------------------------

/// The shelf shows the repositories in their order, each with its name and its qualifier, and each
/// leads to a document of the repository that is read no later than any other of its documents.
/// What the filter looks through is the name and the path in lower case.
pub proof fn law_shelf_leads_to_repositories(c: CatalogView, r: int, d: int)
    requires
        coherent(c),
        0 <= r < c.repositories.len() <= usize::MAX,
        0 <= d < c.documents.len() <= usize::MAX,
        c.documents[d].repository == Some(r as usize),
    ensures
        r < shelf_content(c).collections.len(),
        ({
            let entry = shelf_content(c).collections[r];
            let it = c.repositories[r];
            &&& entry.name == it.name
            &&& entry.has_qualifier == (it.qualifier matches Some(q) && q.len() > 0)
            &&& it.qualifier matches Some(q) ==> entry.qualifier == q
            &&& valid_utf8(written(it.root)) ==> entry.filter_value == lower_text(it.name) + seq![
                ' ',
            ] + lower_text(decode_utf8(written(it.root)))
            &&& exists|f: int| #[trigger]
                leads_to(c, entry.href, f) && c.documents[f].repository == Some(r as usize)
                    && read_no_later(it.root, c.documents[f].path, c.documents[d].path)
        }),
{
    law_repositories_open_with_what_is_read_first(c, r, d);
    let f = c.repositories[r].default_document->0 as int;
    lemma_leads_to(c, f);
    reveal_strlit(" ");
    assert(" "@ =~= seq![' ']);
    assert(shelf_entries(c)[r] == repository_entries(c)[r]);
    assert(leads_to(c, shelf_content(c).collections[r].href, f));
}

/// The loose documents stand last on the shelf, under one name, and lead to the one that is read no
/// later than any other.
pub proof fn law_shelf_leads_to_loose_documents(c: CatalogView, d: int)
    requires
        coherent(c),
        0 <= d < c.documents.len() <= usize::MAX,
        c.documents[d].repository is None,
    ensures
        shelf_content(c).collections.len() == c.repositories.len() + 1,
        ({
            let entry = shelf_content(c).collections[c.repositories.len() as int];
            &&& entry.name == "Loose folios"@
            &&& entry.filter_value == "loose folios"@
            &&& !entry.has_qualifier
            &&& exists|f: int| #[trigger]
                leads_to(c, entry.href, f) && c.documents[f].repository is None && read_no_later(
                    Seq::empty(),
                    c.documents[f].path,
                    c.documents[d].path,
                )
        }),
{
    law_loose_documents_open_with_what_is_read_first(c, d);
    let f = chosen_document(c.documents, c.loose_documents, Seq::empty())->0 as int;
    lemma_leads_to(c, f);
    assert(repository_entries(c).len() == c.repositories.len());
    assert(leads_to(
        c,
        shelf_content(c).collections[c.repositories.len() as int].href,
        f,
    ));
}

/// The shelf has a filter from five collections on, is empty exactly where there is no document, and
/// tells whether anything went wrong.
pub proof fn law_shelf_tells_what_there_is(c: CatalogView)
    requires
        coherent(c),
        c.documents.len() <= usize::MAX,
    ensures
        shelf_content(c).show_filter <==> shelf_content(c).collections.len() >= 5,
        shelf_content(c).empty <==> c.documents.len() == 0,
        shelf_content(c).has_diagnostics <==> c.diagnostics.len() > 0,
        shelf_content(c).collections.len() == c.repositories.len() || shelf_content(
            c,
        ).collections.len() == c.repositories.len() + 1,
        shelf_content(c).collections.len() == c.repositories.len() + 1 <==> exists|d: int|
            0 <= d < c.documents.len() && (#[trigger] c.documents[d]).repository is None,
        valid_utf8(c.root) ==> shelf_content(c).root_path == decode_utf8(c.root),
        shelf_content(c).page_title == "mdfolio — repository shelf"@,
        shelf_content(c).body_class == "shelf-page"@,
{
    assert(repository_entries(c).len() == c.repositories.len());
    crate::reading::lemma_chosen_is_listed(c.documents, c.loose_documents, Seq::empty());
    assert(is_collection(c.documents, c.loose_documents, None, Seq::empty()));
    if c.loose_documents.len() > 0 {
        let f = c.loose_documents[0] as int;
        assert(c.documents[f].repository is None);
    }
    if exists|d: int| 0 <= d < c.documents.len() && (#[trigger] c.documents[d]).repository is None {
        let d = choose|d: int|
            0 <= d < c.documents.len() && (#[trigger] c.documents[d]).repository is None;
        lemma_is_listed(c, d);
    }
    if c.documents.len() > 0 {
        lemma_is_listed(c, 0);
    }
}

// ---------------------------------------------------------------------------
// Names of repositories
// ---------------------------------------------------------------------------

/// A repository has the last name of its root; the library itself, where it is one repository, has
/// the last name of the path that it lies at.
pub proof fn law_repositories_have_the_name_of_their_directory(
    c: CatalogView,
    r: int,
    directory: Seq<Seq<u8>>,
    place: Seq<u8>,
    name: Seq<u8>,
)
    requires
        coherent(c),
        0 <= r < c.repositories.len(),
        valid_utf8(name),
        name.len() > 0,
        forall|i: int| 0 <= i < name.len() ==> #[trigger] name[i] != 47,
    ensures
        c.repositories[r].root == directory.push(name) ==> c.repositories[r].name == decode_utf8(
            name,
        ),
        c.repositories[r].root.len() == 0 && c.root == place + seq![47u8] + name
            ==> c.repositories[r].name == decode_utf8(name),
{
    assert(repository_stands(c, r));
    assert(directory.push(name).last() == name);
    lemma_fields_at_separator(place, slash(), name, is_slash());
    assert forall|i: int| 0 <= i < name.len() implies !is_slash()(#[trigger] name[i]) by {}
    lemma_field_alone(name, is_slash());
    assert((components(place) + seq![name]).last() == name);
}

/// A repository whose directory has a name that is not UTF-8 has a name of its own, and so has the
/// library where it lies at the root of the file system.
pub proof fn law_repositories_may_have_no_name_of_their_own(c: CatalogView, r: int)
    requires
        coherent(c),
        0 <= r < c.repositories.len(),
    ensures
        c.repositories[r].root.len() > 0 && !valid_utf8(c.repositories[r].root.last())
            ==> c.repositories[r].name == "Repository"@,
        c.repositories[r].root.len() == 0 && components(c.root).len() == 0 ==> c.repositories[r].name
            == "Repository"@,
        c.repositories[r].root.len() == 0 && components(c.root).len() > 0 && !valid_utf8(
            components(c.root).last(),
        ) ==> c.repositories[r].name == "Repository"@,
{
    assert(repository_stands(c, r));
}

/// A repository that shares its name with another, in any case, is told apart by the directory it
/// lies in, if that is not the library itself.
pub proof fn law_repositories_of_one_name_are_told_apart(
    c: CatalogView,
    r: int,
    q: int,
)
    requires
        coherent(c),
        0 <= r < c.repositories.len(),
        0 <= q < c.repositories.len(),
        q != r,
        lower_text(c.repositories[q].name) == lower_text(c.repositories[r].name),
    ensures
        ({
            let root = c.repositories[r].root;
            &&& root.len() < 2 ==> c.repositories[r].qualifier is None
            &&& root.len() >= 2 && valid_utf8(written(root.drop_last()))
                ==> c.repositories[r].qualifier == Some(decode_utf8(written(root.drop_last())))
        }),
{
    assert(repository_stands(c, r));
    let names = names_of(c.repositories);
    assert(names[q] == c.repositories[q].name);
    assert(shares_name(names, r));
}

/// A repository whose name no other has, in any case, has no qualifier.
pub proof fn law_other_repositories_have_no_qualifier(c: CatalogView, r: int)
    requires
        coherent(c),
        0 <= r < c.repositories.len(),
        forall|q: int|
            0 <= q < c.repositories.len() && q != r ==> lower_text(
                (#[trigger] c.repositories[q]).name,
            ) != lower_text(c.repositories[r].name),
    ensures
        c.repositories[r].qualifier is None,
{
    assert(repository_stands(c, r));
    let names = names_of(c.repositories);
    if shares_name(names, r) {
        let q = choose|q: int|
            0 <= q < names.len() && q != r && lower_text(#[trigger] names[q]) == lower_text(names[r]);
        assert(names[q] == c.repositories[q].name);
    }
}

/// Repositories are qualified where they share their name with another, in any case, and lie
/// deeper than in the library itself: by the directory they lie in. Nothing else of them changes.
pub proof fn law_duplicates_are_qualified(repositories: Seq<RepositoryView>, r: int, q: int)
    requires
        0 <= r < repositories.len(),
        0 <= q < repositories.len(),
        q != r,
    ensures
        qualified(repositories, r).name == repositories[r].name,
        qualified(repositories, r).root == repositories[r].root,
        qualified(repositories, r).documents == repositories[r].documents,
        qualified(repositories, r).default_document == repositories[r].default_document,
        qualified(repositories, r).id == repositories[r].id,
        ({
            let root = repositories[r].root;
            let shared = lower_text(repositories[q].name) == lower_text(repositories[r].name);
            &&& shared && root.len() >= 2 && valid_utf8(written(root.drop_last())) ==> qualified(
                repositories,
                r,
            ).qualifier == Some(decode_utf8(written(root.drop_last())))
            &&& shared && root.len() < 2 ==> qualified(repositories, r).qualifier is None
        }),
        (forall|p: int|
            0 <= p < repositories.len() && p != r ==> lower_text((#[trigger] repositories[p]).name)
                != lower_text(repositories[r].name)) ==> qualified(repositories, r)
            == repositories[r],
{
    let names = names_of(repositories);
    assert(names[q] == repositories[q].name);
    if shares_name(names, r) {
        let p = choose|p: int|
            0 <= p < names.len() && p != r && lower_text(#[trigger] names[p]) == lower_text(names[r]);
        assert(names[p] == repositories[p].name);
    }
}

// ---------------------------------------------------------------------------
// Errors
// ---------------------------------------------------------------------------

/// The page for an error shows its heading and its message, and the number of its status.
pub proof fn law_error_pages_show_their_error(
    status: Status,
    heading: Seq<char>,
    message: Seq<char>,
)
    ensures
        ({
            let page = error_content(status, heading, message);
            &&& page.code == status
            &&& page.heading == heading
            &&& page.message == message
            &&& page.page_title == heading + " — mdfolio"@
            &&& page.body_class == "error-page"@
            &&& page.status.len() == 3
            &&& page.status[0] as int - 48 == status_code(status) as int / 100
            &&& page.status[1] as int - 48 == status_code(status) as int / 10 % 10
            &&& page.status[2] as int - 48 == status_code(status) as int % 10
        }),
        status_code(Status::NotFound) == 404,
        status_code(Status::PayloadTooLarge) == 413,
        status_code(Status::UnprocessableEntity) == 422,
        status_code(Status::InternalServerError) == 500,
        status_code(Status::ServiceUnavailable) == 503,
{
    reveal_strlit("404");
    reveal_strlit("413");
    reveal_strlit("422");
    reveal_strlit("500");
    reveal_strlit("503");
}

} // verus!
