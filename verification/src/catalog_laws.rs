//! What holds of catalogs as a whole.

use vstd::prelude::*;
use vstd::utf8::encode_utf8;
use crate::assembly::{
    document_title, found_diagnostic, found_diagnostics, found_document, found_documents,
    is_catalog_of, path_keys, repository_of, stands_for, FoundView, WalkEntry,
};
use crate::catalog::{
    grouped, collections, document_at, is_collection, landing_of, member_before, names_of,
    repository_stands, resolved_target, CatalogView, DocumentView, Landing,
};
use crate::discovery::markdown_entry;
use crate::order::{key_before, lemma_key_order, stable_order, stands_before, text_before};
use crate::paths::{lemma_path_order, path_before, relative_to};
use crate::reading::{
    chosen_document, collection_key, collection_keys, first_least, is_first_least,
    lemma_chosen_is_listed, lemma_first_least_is, path_key, reading_priority,
};

verus! {

/// One document of a collection stands before another, or is it, or stands after it.
proof fn lemma_member_order(
    documents: Seq<DocumentView>,
    root: Seq<Seq<u8>>,
    a: usize,
    b: usize,
    c: usize,
)
    ensures
        !member_before(documents, root, a, a),
        member_before(documents, root, a, b) || member_before(documents, root, b, a) || a == b,
        !(member_before(documents, root, a, b) && member_before(documents, root, b, a)),
        member_before(documents, root, a, b) && member_before(documents, root, b, c)
            ==> member_before(documents, root, a, c),
{
    let x = collection_key(documents[a as int], root);
    let y = collection_key(documents[b as int], root);
    let z = collection_key(documents[c as int], root);
    lemma_key_order(x, y, z);
    lemma_key_order(y, x, z);
    lemma_key_order(y, z, x);
    lemma_key_order(x, z, y);
}

/// Every document belongs to exactly one collection: to the repository it names, or, where it
/// names none, to the loose documents.
pub proof fn law_every_document_is_in_one_collection(c: CatalogView, d: usize, r: int)
    requires
        grouped(c),
        d < c.documents.len(),
        0 <= r < c.repositories.len(),
    ensures
        c.loose_documents.contains(d) <==> c.documents[d as int].repository is None,
        c.repositories[r].documents.contains(d) <==> c.documents[d as int].repository == Some(
            r as usize,
        ),
{
    assert(repository_stands(c, r));
    let own = c.documents[d as int].repository;
    if c.loose_documents.contains(d) {
        let i = choose|i: int| 0 <= i < c.loose_documents.len() && c.loose_documents[i] == d;
        assert(c.documents[c.loose_documents[i] as int].repository is None);
    }
    let ids = c.repositories[r].documents;
    if ids.contains(d) {
        let i = choose|i: int| 0 <= i < ids.len() && ids[i] == d;
        assert(c.documents[ids[i] as int].repository == Some(r as usize));
    }
    assert(own is None ==> c.loose_documents.contains(d as int as usize));
    assert(own == Some(r as usize) ==> ids.contains(d as int as usize));
}

/// The least member of a sorted collection is its first.
proof fn lemma_chosen_is_first(
    documents: Seq<DocumentView>,
    ids: Seq<usize>,
    repository: Option<usize>,
    root: Seq<Seq<u8>>,
)
    requires
        is_collection(documents, ids, repository, root),
        ids.len() > 0,
    ensures
        chosen_document(documents, ids, root) == Some(ids[0]),
{
    let keys = collection_keys(documents, ids, root);
    assert forall|j: int| 0 <= j < keys.len() implies !key_before(#[trigger] keys[j], keys[0]) by {
        lemma_key_order(keys[0], keys[j], keys[0]);
        if j > 0 {
            assert(member_before(documents, root, ids[0], ids[j]));
        }
    }
    assert(is_first_least(keys, 0));
    lemma_first_least_is(keys, 0);
}

/// A collection opens with the first document of its reading order.
pub proof fn law_collections_open_with_their_first_document(c: CatalogView, r: int)
    requires
        grouped(c),
        0 <= r < c.repositories.len(),
    ensures
        c.repositories[r].default_document == Some(c.repositories[r].documents[0]),
        c.loose_documents.len() > 0 ==> chosen_document(
            c.documents,
            c.loose_documents,
            Seq::empty(),
        ) == Some(c.loose_documents[0]),
{
    assert(repository_stands(c, r));
    lemma_chosen_is_first(
        c.documents,
        c.repositories[r].documents,
        Some(r as usize),
        c.repositories[r].root,
    );
    if c.loose_documents.len() > 0 {
        lemma_chosen_is_first(c.documents, c.loose_documents, None, Seq::empty());
    }
}

/// The default document of a repository: no other document of the repository has a smaller
/// priority, none of the same priority lies higher, and none of the same priority and depth has
/// a path that sorts before it. So a root README comes first, then a root index, then the
/// shallowest path in alphabetical order.
pub proof fn law_default_document_is_read_first(c: CatalogView, r: int, d: int)
    requires
        grouped(c),
        0 <= r < c.repositories.len(),
        0 <= d < c.documents.len(),
        c.documents[d].repository == Some(r as usize),
        c.documents.len() <= usize::MAX,
    ensures
        ({
            let root = c.repositories[r].root;
            let default = relative_to(
                c.documents[c.repositories[r].default_document->0 as int].path,
                root,
            );
            let other = relative_to(c.documents[d].path, root);
            &&& reading_priority(default) <= reading_priority(other)
            &&& reading_priority(default) == reading_priority(other) ==> default.len()
                <= other.len()
            &&& reading_priority(default) == reading_priority(other) && default.len()
                == other.len() ==> !text_before(path_key(other), path_key(default))
        }),
{
    assert(repository_stands(c, r));
    let ids = c.repositories[r].documents;
    let root = c.repositories[r].root;
    let keys = collection_keys(c.documents, ids, root);
    lemma_chosen_is_listed(c.documents, ids, root);
    assert(ids.contains(d as usize));
    let i = choose|i: int| 0 <= i < ids.len() && ids[i] == d as usize;
    assert(!key_before(keys[i], keys[first_least(keys)]));
}

/// A repository with a `README.md` in its root opens with it.
pub proof fn law_readme_opens_its_repository(c: CatalogView, r: int, d: int)
    requires
        grouped(c),
        0 <= r < c.repositories.len(),
        0 <= d < c.documents.len(),
        c.documents[d].repository == Some(r as usize),
        c.documents.len() <= usize::MAX,
        relative_to(c.documents[d].path, c.repositories[r].root) == seq![encode_utf8("README.md"@)],
    ensures
        ({
            let default = c.documents[c.repositories[r].default_document->0 as int];
            relative_to(default.path, c.repositories[r].root) == seq![encode_utf8("README.md"@)]
        }),
{
    law_default_document_is_read_first(c, r, d);
    let default = relative_to(
        c.documents[c.repositories[r].default_document->0 as int].path,
        c.repositories[r].root,
    );
    assert(reading_priority(seq![encode_utf8("README.md"@)]) == 0);
    assert(default =~= seq![encode_utf8("README.md"@)]);
}

/// A library with one collection opens on a document of it; a library with several, or with no
/// document, opens on the shelf.
pub proof fn law_one_collection_opens_directly(c: CatalogView)
    requires
        grouped(c),
    ensures
        landing_of(c) is Document <==> collections(c) == 1,
        landing_of(c) matches Landing::Document(id) ==> id < c.documents.len(),
        c.documents.len() == 0 ==> landing_of(c) is Shelf,
{
    if c.repositories.len() > 0 {
        assert(repository_stands(c, 0));
        let ids = c.repositories[0].documents;
        lemma_chosen_is_listed(c.documents, ids, c.repositories[0].root);
        let id = chosen_document(c.documents, ids, c.repositories[0].root)->0;
        let i = choose|i: int| 0 <= i < ids.len() && ids[i] == id;
        assert(ids[i] < c.documents.len());
    } else {
        let ids = c.loose_documents;
        lemma_chosen_is_listed(c.documents, ids, Seq::empty());
        if ids.len() > 0 {
            let id = chosen_document(c.documents, ids, Seq::empty())->0;
            let i = choose|i: int| 0 <= i < ids.len() && ids[i] == id;
            assert(ids[i] < c.documents.len());
        }
    }
}

// ---------------------------------------------------------------------------
// One catalog for one walk
// ---------------------------------------------------------------------------

/// Two sorted lists of the same members are the same list.
proof fn lemma_collections_agree(
    documents: Seq<DocumentView>,
    a: Seq<usize>,
    b: Seq<usize>,
    repository: Option<usize>,
    root: Seq<Seq<u8>>,
)
    requires
        is_collection(documents, a, repository, root),
        is_collection(documents, b, repository, root),
        documents.len() <= usize::MAX,
    ensures
        a == b,
{
    lemma_collection_prefix(documents, a, b, repository, root, if a.len() <= b.len() {
        a.len() as int
    } else {
        b.len() as int
    });
    if a.len() < b.len() {
        let x = b[a.len() as int];
        assert(documents[x as int].repository == repository);
        assert(a.contains(x as int as usize));
        let i = choose|i: int| 0 <= i < a.len() && a[i] == x;
        assert(b[i] == x);
        assert(member_before(documents, root, b[i], b[a.len() as int]));
        lemma_member_order(documents, root, x, x, x);
    }
    if b.len() < a.len() {
        let x = a[b.len() as int];
        assert(documents[x as int].repository == repository);
        assert(b.contains(x as int as usize));
        let i = choose|i: int| 0 <= i < b.len() && b[i] == x;
        assert(a[i] == x);
        assert(member_before(documents, root, a[i], a[b.len() as int]));
        lemma_member_order(documents, root, x, x, x);
    }
    assert(a =~= b);
}

proof fn lemma_collection_prefix(
    documents: Seq<DocumentView>,
    a: Seq<usize>,
    b: Seq<usize>,
    repository: Option<usize>,
    root: Seq<Seq<u8>>,
    n: int,
)
    requires
        is_collection(documents, a, repository, root),
        is_collection(documents, b, repository, root),
        documents.len() <= usize::MAX,
        0 <= n <= a.len(),
        n <= b.len(),
    ensures
        forall|i: int| 0 <= i < n ==> a[i] == b[i],
    decreases n,
{
    if n > 0 {
        lemma_collection_prefix(documents, a, b, repository, root, n - 1);
        let k = n - 1;
        let x = a[k];
        let y = b[k];
        assert(documents[x as int].repository == repository);
        assert(documents[y as int].repository == repository);
        assert(b.contains(x as int as usize));
        assert(a.contains(y as int as usize));
        let p = choose|p: int| 0 <= p < b.len() && b[p] == x;
        let q = choose|q: int| 0 <= q < a.len() && a[q] == y;
        lemma_member_order(documents, root, x, y, x);
        lemma_member_order(documents, root, y, y, y);
        if p < k {
            assert(a[p] == b[p]);
            assert(member_before(documents, root, a[p], a[k]));
        }
        if q < k {
            assert(a[q] == b[q]);
            assert(member_before(documents, root, b[q], b[k]));
        }
        if p > k && q > k {
            assert(member_before(documents, root, b[k], b[p]));
            assert(member_before(documents, root, a[k], a[q]));
        }
    }
}

/// The roots of a catalog's repositories.
pub open spec fn roots_of(c: CatalogView) -> Seq<Seq<Seq<u8>>> {
    Seq::new(c.repositories.len(), |r: int| c.repositories[r].root)
}

/// A root of one catalog is a root of any other with the same documents found.
proof fn lemma_roots_shared(a: CatalogView, b: CatalogView, found: Seq<FoundView>, r: int)
    requires
        grouped(a),
        grouped(b),
        a.documents.len() == found.len(),
        b.documents.len() == found.len(),
        forall|d: int| 0 <= d < found.len() ==> #[trigger] stands_for(a, d, found[d]),
        forall|d: int| 0 <= d < found.len() ==> #[trigger] stands_for(b, d, found[d]),
        0 <= r < a.repositories.len(),
    ensures
        roots_of(b).contains(a.repositories[r].root),
{
    assert(repository_stands(a, r));
    let d = a.repositories[r].documents[0] as int;
    assert(a.documents[d].repository == Some(r as usize));
    assert(stands_for(a, d, found[d]));
    assert(stands_for(b, d, found[d]));
    assert(b.documents[d].id == d);
    let q = b.documents[d].repository->0 as int;
    assert(roots_of(b)[q] == a.repositories[r].root);
}

/// The roots of two catalogs with the same documents found are the same, up to a position.
proof fn lemma_roots_prefix(a: CatalogView, b: CatalogView, found: Seq<FoundView>, n: int)
    requires
        grouped(a),
        grouped(b),
        a.documents.len() == found.len(),
        b.documents.len() == found.len(),
        forall|d: int| 0 <= d < found.len() ==> #[trigger] stands_for(a, d, found[d]),
        forall|d: int| 0 <= d < found.len() ==> #[trigger] stands_for(b, d, found[d]),
        0 <= n <= a.repositories.len(),
        n <= b.repositories.len(),
    ensures
        forall|r: int| 0 <= r < n ==> roots_of(a)[r] == roots_of(b)[r],
    decreases n,
{
    if n > 0 {
        lemma_roots_prefix(a, b, found, n - 1);
        let k = n - 1;
        let x = roots_of(a)[k];
        let y = roots_of(b)[k];
        lemma_roots_shared(a, b, found, k);
        lemma_roots_shared(b, a, found, k);
        let p = choose|p: int| 0 <= p < roots_of(b).len() && roots_of(b)[p] == x;
        let q = choose|q: int| 0 <= q < roots_of(a).len() && roots_of(a)[q] == y;
        lemma_path_order(x, y, x);
        lemma_path_order(y, y, y);
        if p < k {
            assert(roots_of(a)[p] == roots_of(b)[p]);
            assert(path_before(a.repositories[p].root, a.repositories[k].root));
        }
        if q < k {
            assert(roots_of(a)[q] == roots_of(b)[q]);
            assert(path_before(b.repositories[q].root, b.repositories[k].root));
        }
        if p > k && q > k {
            assert(path_before(b.repositories[k].root, b.repositories[p].root));
            assert(path_before(a.repositories[k].root, a.repositories[q].root));
        }
    }
}

/// The repositories of two catalogs with the same documents found have the same roots.
proof fn lemma_roots_agree(a: CatalogView, b: CatalogView, found: Seq<FoundView>)
    requires
        grouped(a),
        grouped(b),
        a.documents.len() == found.len(),
        b.documents.len() == found.len(),
        forall|d: int| 0 <= d < found.len() ==> #[trigger] stands_for(a, d, found[d]),
        forall|d: int| 0 <= d < found.len() ==> #[trigger] stands_for(b, d, found[d]),
    ensures
        roots_of(a) == roots_of(b),
{
    let m = a.repositories.len();
    let n = b.repositories.len();
    if m < n {
        lemma_roots_prefix(a, b, found, m as int);
        lemma_roots_shared(b, a, found, m as int);
        let x = b.repositories[m as int].root;
        let q = choose|q: int| 0 <= q < roots_of(a).len() && roots_of(a)[q] == x;
        assert(roots_of(b)[q] == x);
        assert(path_before(b.repositories[q].root, b.repositories[m as int].root));
        lemma_path_order(x, x, x);
    } else if n < m {
        lemma_roots_prefix(a, b, found, n as int);
        lemma_roots_shared(a, b, found, n as int);
        let x = a.repositories[n as int].root;
        let q = choose|q: int| 0 <= q < roots_of(b).len() && roots_of(b)[q] == x;
        assert(roots_of(a)[q] == x);
        assert(path_before(a.repositories[q].root, a.repositories[n as int].root));
        lemma_path_order(x, x, x);
    } else {
        lemma_roots_prefix(a, b, found, m as int);
    }
    assert(roots_of(a) =~= roots_of(b));
}

/// Two catalogs of the same library that stand for the same documents in the same order agree
/// in everything but their diagnostics.
proof fn lemma_catalogs_agree(a: CatalogView, b: CatalogView, found: Seq<FoundView>)
    requires
        grouped(a),
        grouped(b),
        a.root == b.root,
        a.documents.len() == found.len(),
        b.documents.len() == found.len(),
        found.len() <= usize::MAX,
        forall|d: int| 0 <= d < found.len() ==> #[trigger] stands_for(a, d, found[d]),
        forall|d: int| 0 <= d < found.len() ==> #[trigger] stands_for(b, d, found[d]),
    ensures
        a.documents == b.documents,
        a.repositories == b.repositories,
        a.loose_documents == b.loose_documents,
        a.mode == b.mode,
{
    lemma_roots_agree(a, b, found);
    assert forall|d: int| 0 <= d < found.len() implies a.documents[d] == b.documents[d] by {
        assert(stands_for(a, d, found[d]));
        assert(stands_for(b, d, found[d]));
        assert(a.documents[d].id == d && b.documents[d].id == d);
        if found[d].root is Some {
            let p = a.documents[d].repository->0 as int;
            let q = b.documents[d].repository->0 as int;
            assert(roots_of(a)[p] == found[d].root->0);
            assert(roots_of(b)[q] == found[d].root->0);
            lemma_path_order(roots_of(a)[p], roots_of(a)[p], roots_of(a)[p]);
            if p < q {
                assert(path_before(a.repositories[p].root, a.repositories[q].root));
                assert(roots_of(a)[q] == roots_of(b)[q]);
            }
            if q < p {
                assert(path_before(a.repositories[q].root, a.repositories[p].root));
                assert(roots_of(a)[q] == roots_of(b)[q]);
            }
        }
    }
    assert(a.documents =~= b.documents);
    lemma_collections_agree(a.documents, a.loose_documents, b.loose_documents, None, Seq::empty());
    assert(a.repositories.len() == roots_of(a).len() && b.repositories.len() == roots_of(b).len());
    assert(names_of(a.repositories) =~= names_of(b.repositories)) by {
        assert forall|r: int| 0 <= r < a.repositories.len() implies a.repositories[r].name
            == b.repositories[r].name by {
            assert(repository_stands(a, r));
            assert(repository_stands(b, r));
            assert(roots_of(a)[r] == roots_of(b)[r]);
        }
    }
    assert forall|r: int| 0 <= r < a.repositories.len() implies a.repositories[r]
        == b.repositories[r] by {
        assert(repository_stands(a, r));
        assert(repository_stands(b, r));
        assert(roots_of(a)[r] == roots_of(b)[r]);
        lemma_collections_agree(
            a.documents,
            a.repositories[r].documents,
            b.repositories[r].documents,
            Some(r as usize),
            a.repositories[r].root,
        );
    }
    assert(a.repositories =~= b.repositories);
}

/// The documents found, in the given order.
pub open spec fn arranged(found: Seq<FoundView>, order: Seq<usize>) -> Seq<FoundView> {
    Seq::new(order.len(), |d: int| found[order[d] as int])
}

/// A walk has one catalog only.
pub proof fn law_a_walk_has_one_catalog(
    a: CatalogView,
    b: CatalogView,
    root: Seq<u8>,
    entries: Seq<WalkEntry>,
    known: Map<Seq<Seq<u8>>, bool>,
)
    requires
        is_catalog_of(a, root, entries, known),
        is_catalog_of(b, root, entries, known),
        entries.len() <= usize::MAX,
    ensures
        a == b,
{
    let found = found_documents(entries, known);
    lemma_found_at_most(entries, known);
    let x = choose|order: Seq<usize>| #[trigger]
        stable_order(path_keys(found), order) && forall|d: int|
            0 <= d < a.documents.len() ==> #[trigger] stands_for(a, d, found[order[d] as int]);
    let y = choose|order: Seq<usize>| #[trigger]
        stable_order(path_keys(found), order) && forall|d: int|
            0 <= d < b.documents.len() ==> #[trigger] stands_for(b, d, found[order[d] as int]);
    crate::order::law_stable_order_is_unique(path_keys(found), x, y);
    let sorted = arranged(found, x);
    assert forall|d: int| 0 <= d < sorted.len() implies #[trigger] stands_for(a, d, sorted[d]) by {
        assert(stands_for(a, d, found[x[d] as int]));
    }
    assert forall|d: int| 0 <= d < sorted.len() implies #[trigger] stands_for(b, d, sorted[d]) by {
        assert(stands_for(b, d, found[y[d] as int]));
    }
    lemma_catalogs_agree(a, b, sorted);
}

/// A walk finds at most one document at each step.
proof fn lemma_found_at_most(entries: Seq<WalkEntry>, known: Map<Seq<Seq<u8>>, bool>)
    ensures
        found_documents(entries, known).len() <= entries.len(),
    decreases entries.len(),
{
    if entries.len() > 0 {
        lemma_found_at_most(entries.drop_last(), known);
    }
}

/// Whether no two documents have the same path when case is ignored.
pub open spec fn keys_differ(found: Seq<FoundView>) -> bool {
    forall|i: int, j: int|
        0 <= i < j < found.len() ==> path_key((#[trigger] found[i]).path) != path_key(
            (#[trigger] found[j]).path,
        )
}

/// Where a document found stands in another arrangement of the same documents.
proof fn lemma_same_place(
    a: Seq<FoundView>,
    b: Seq<FoundView>,
    x: Seq<usize>,
    y: Seq<usize>,
    n: int,
)
    requires
        stable_order(path_keys(a), x),
        stable_order(path_keys(b), y),
        keys_differ(a),
        keys_differ(b),
        a.len() == b.len(),
        forall|f: FoundView| #[trigger] a.contains(f) <==> b.contains(f),
        0 <= n <= a.len(),
    ensures
        forall|d: int| 0 <= d < n ==> arranged(a, x)[d] == arranged(b, y)[d],
    decreases n,
{
    if n > 0 {
        lemma_same_place(a, b, x, y, n - 1);
        let k = n - 1;
        let f = a[x[k] as int];
        let g = b[y[k] as int];
        assert(a.contains(f));
        assert(b.contains(g));
        assert(b.contains(f));
        assert(a.contains(g));
        let i = choose|i: int| 0 <= i < b.len() && b[i] == f;
        let j = choose|j: int| 0 <= j < a.len() && a[j] == g;
        crate::order::lemma_stable_order_is_onto(path_keys(b), y, i);
        crate::order::lemma_stable_order_is_onto(path_keys(a), x, j);
        let p = choose|p: int| 0 <= p < y.len() && y[p] == i;
        let q = choose|q: int| 0 <= q < x.len() && x[q] == j;
        let kf = path_keys(a)[x[k] as int];
        let kg = path_keys(b)[y[k] as int];
        lemma_key_order(kf, kg, kf);
        lemma_key_order(kg, kg, kg);
        if p < k {
            assert(arranged(a, x)[p] == arranged(b, y)[p]);
            assert(a[x[p] as int] == f);
            assert(stands_before(path_keys(a), x[p] as int, x[k] as int));
            lemma_equal_keys(a, x[p] as int, x[k] as int);
        }
        if q < k {
            assert(arranged(a, x)[q] == arranged(b, y)[q]);
            assert(b[y[q] as int] == g);
            assert(stands_before(path_keys(b), y[q] as int, y[k] as int));
            lemma_equal_keys(b, y[q] as int, y[k] as int);
        }
        if p > k && q > k {
            assert(stands_before(path_keys(b), y[k] as int, y[p] as int));
            assert(stands_before(path_keys(a), x[k] as int, x[q] as int));
            assert(path_keys(b)[y[p] as int] == kf);
            assert(path_keys(a)[x[q] as int] == kg);
            if kf == kg {
                lemma_equal_keys(b, y[k] as int, y[p] as int);
            }
        }
        if p == k {
            assert(b[y[k] as int] == f);
        }
        if q == k {
            assert(a[x[k] as int] == g);
        }
    }
}

proof fn lemma_equal_keys(found: Seq<FoundView>, i: int, j: int)
    requires
        keys_differ(found),
        0 <= i < found.len(),
        0 <= j < found.len(),
        path_keys(found)[i] == path_keys(found)[j],
    ensures
        i == j,
{
    if i < j {
        assert(path_key(found[i].path) != path_key(found[j].path));
    }
    if j < i {
        assert(path_key(found[j].path) != path_key(found[i].path));
    }
}

/// A catalog does not depend on the order of the walk: two walks that find the same documents,
/// in whatever order, have the same documents with the same ids, the same repositories and the
/// same loose documents, if no two of the paths differ in case only.
pub proof fn law_catalog_does_not_depend_on_the_walk_order(
    a: CatalogView,
    b: CatalogView,
    root: Seq<u8>,
    first: Seq<WalkEntry>,
    second: Seq<WalkEntry>,
    known: Map<Seq<Seq<u8>>, bool>,
)
    requires
        is_catalog_of(a, root, first, known),
        is_catalog_of(b, root, second, known),
        first.len() <= usize::MAX,
        found_documents(first, known).len() == found_documents(second, known).len(),
        forall|f: FoundView| #[trigger]
            found_documents(first, known).contains(f) <==> found_documents(second, known).contains(f),
        keys_differ(found_documents(first, known)),
        keys_differ(found_documents(second, known)),
    ensures
        a.documents == b.documents,
        a.repositories == b.repositories,
        a.loose_documents == b.loose_documents,
        a.mode == b.mode,
        landing_of(a) == landing_of(b),
{
    let f = found_documents(first, known);
    let g = found_documents(second, known);
    lemma_found_at_most(first, known);
    let x = choose|order: Seq<usize>| #[trigger]
        stable_order(path_keys(f), order) && forall|d: int|
            0 <= d < a.documents.len() ==> #[trigger] stands_for(a, d, f[order[d] as int]);
    let y = choose|order: Seq<usize>| #[trigger]
        stable_order(path_keys(g), order) && forall|d: int|
            0 <= d < b.documents.len() ==> #[trigger] stands_for(b, d, g[order[d] as int]);
    lemma_same_place(f, g, x, y, f.len() as int);
    let sorted = arranged(f, x);
    assert forall|d: int| 0 <= d < sorted.len() implies #[trigger] stands_for(a, d, sorted[d]) by {
        assert(stands_for(a, d, f[x[d] as int]));
    }
    assert forall|d: int| 0 <= d < sorted.len() implies #[trigger] stands_for(b, d, sorted[d]) by {
        assert(stands_for(b, d, g[y[d] as int]));
        assert(arranged(f, x)[d] == arranged(g, y)[d]);
    }
    lemma_catalogs_agree(a, b, sorted);
}

/// Every document of a catalog belongs to the nearest repository above it, and a document without
/// a repository has none above it.
pub proof fn law_documents_belong_to_the_nearest_repository(
    c: CatalogView,
    root: Seq<u8>,
    entries: Seq<WalkEntry>,
    known: Map<Seq<Seq<u8>>, bool>,
    d: int,
)
    requires
        is_catalog_of(c, root, entries, known),
        0 <= d < c.documents.len(),
    ensures
        (match c.documents[d].repository {
            Some(r) => Some(c.repositories[r as int].root),
            None => None,
        }) == repository_of(c.documents[d].path, known),
{
    let found = found_documents(entries, known);
    let order = choose|order: Seq<usize>| #[trigger]
        stable_order(path_keys(found), order) && forall|d: int|
            0 <= d < c.documents.len() ==> #[trigger] stands_for(c, d, found[order[d] as int]);
    assert(stands_for(c, d, found[order[d] as int]));
    lemma_found_repository(entries, known, order[d] as int);
}

/// The document that a step of the walk finds is among those that the walk finds.
proof fn lemma_found_contains(entries: Seq<WalkEntry>, known: Map<Seq<Seq<u8>>, bool>, i: int)
    requires
        0 <= i < entries.len(),
    ensures
        found_document(entries[i], known) matches Some(found) ==> found_documents(
            entries,
            known,
        ).contains(found),
        found_diagnostic(entries[i]) matches Some(told) ==> found_diagnostics(entries).contains(told),
    decreases entries.len(),
{
    let rest = entries.drop_last();
    let before = found_documents(rest, known);
    let all = found_documents(entries, known);
    let told_before = found_diagnostics(rest);
    let told_all = found_diagnostics(entries);
    if i < rest.len() {
        lemma_found_contains(rest, known, i);
        if let Some(found) = found_document(entries[i], known) {
            let k = choose|k: int| 0 <= k < before.len() && before[k] == found;
            assert(all[k] == found);
        }
        if let Some(told) = found_diagnostic(entries[i]) {
            let k = choose|k: int| 0 <= k < told_before.len() && told_before[k] == told;
            assert(told_all[k] == told);
        }
    } else {
        if found_document(entries[i], known) is Some {
            assert(all[before.len() as int] == found_document(entries[i], known)->0);
        }
        if found_diagnostic(entries[i]) is Some {
            assert(told_all[told_before.len() as int] == found_diagnostic(entries[i])->0);
        }
    }
}

/// What the walk finds, it finds at some step.
pub proof fn lemma_found_somewhere(entries: Seq<WalkEntry>, known: Map<Seq<Seq<u8>>, bool>, k: int)
    requires
        0 <= k < found_documents(entries, known).len(),
    ensures
        exists|i: int|
            0 <= i < entries.len() && found_document(#[trigger] entries[i], known) == Some(
                found_documents(entries, known)[k],
            ),
    decreases entries.len(),
{
    let rest = entries.drop_last();
    let before = found_documents(rest, known);
    if k < before.len() {
        lemma_found_somewhere(rest, known, k);
        let i = choose|i: int|
            0 <= i < rest.len() && found_document(#[trigger] rest[i], known) == Some(before[k]);
        assert(entries[i] == rest[i]);
    } else {
        assert(found_document(entries[entries.len() - 1], known) == Some(
            found_documents(entries, known)[k],
        ));
    }
}

/// No Markdown file is lost: where its path is UTF-8 it is a document of the catalog, and where
/// it is not there is a diagnostic for it. A file that could not be read has a diagnostic, too.
pub proof fn law_no_markdown_file_is_lost(
    c: CatalogView,
    root: Seq<u8>,
    entries: Seq<WalkEntry>,
    known: Map<Seq<Seq<u8>>, bool>,
    i: int,
)
    requires
        is_catalog_of(c, root, entries, known),
        0 <= i < entries.len(),
    ensures
        found_document(entries[i], known) matches Some(found) ==> exists|d: int|
            0 <= d < c.documents.len() && (#[trigger] c.documents[d]).path == found.path
                && c.documents[d].title == found.title,
        found_diagnostic(entries[i]) matches Some(told) ==> c.diagnostics.contains(told),
        entries[i] matches WalkEntry::Entry { kind, path, contents } && markdown_entry(
            kind,
            path@,
        ) ==> found_document(entries[i], known) is Some || found_diagnostic(entries[i]) is Some,
{
    let found = found_documents(entries, known);
    lemma_found_contains(entries, known, i);
    if let Some(one) = found_document(entries[i], known) {
        let k = choose|k: int| 0 <= k < found.len() && found[k] == one;
        let order = choose|order: Seq<usize>| #[trigger]
            stable_order(path_keys(found), order) && forall|d: int|
                0 <= d < c.documents.len() ==> #[trigger] stands_for(c, d, found[order[d] as int]);
        crate::order::lemma_stable_order_is_onto(path_keys(found), order, k);
        let d = choose|d: int| 0 <= d < order.len() && order[d] == k;
        assert(stands_for(c, d, found[order[d] as int]));
        assert(c.documents[d].path == one.path);
    }
}

/// Every document of a catalog is a Markdown file that the walk came to.
pub proof fn law_documents_are_files_of_the_walk(
    c: CatalogView,
    root: Seq<u8>,
    entries: Seq<WalkEntry>,
    known: Map<Seq<Seq<u8>>, bool>,
    d: int,
)
    requires
        is_catalog_of(c, root, entries, known),
        0 <= d < c.documents.len(),
    ensures
        exists|i: int|
            0 <= i < entries.len() && (#[trigger] entries[i] matches WalkEntry::Entry {
                kind,
                path,
                contents,
            } && markdown_entry(kind, path@) && path@ == c.documents[d].path
                && c.documents[d].title == document_title(path@, contents)),
{
    let found = found_documents(entries, known);
    let order = choose|order: Seq<usize>| #[trigger]
        stable_order(path_keys(found), order) && forall|d: int|
            0 <= d < c.documents.len() ==> #[trigger] stands_for(c, d, found[order[d] as int]);
    assert(stands_for(c, d, found[order[d] as int]));
    lemma_found_somewhere(entries, known, order[d] as int);
    let i = choose|i: int|
        0 <= i < entries.len() && found_document(#[trigger] entries[i], known) == Some(
            found[order[d] as int],
        );
    assert(found_document(entries[i], known) is Some);
}

proof fn lemma_found_repository(
    entries: Seq<WalkEntry>,
    known: Map<Seq<Seq<u8>>, bool>,
    i: int,
)
    requires
        0 <= i < found_documents(entries, known).len(),
    ensures
        found_documents(entries, known)[i].root == repository_of(
            found_documents(entries, known)[i].path,
            known,
        ),
    decreases entries.len(),
{
    let before = found_documents(entries.drop_last(), known);
    if i < before.len() {
        lemma_found_repository(entries.drop_last(), known, i);
    }
}

/// A target that is the path of a document stands for that document, if no other has its path.
pub proof fn law_exact_targets_stand_for_themselves(documents: Seq<DocumentView>, d: int)
    requires
        0 <= d < documents.len(),
        forall|e: int| 0 <= e < documents.len() && e != d ==> (#[trigger] documents[e]).path
            != documents[d].path,
    ensures
        resolved_target(documents, documents[d].path) == Some(d),
        document_at(documents, documents[d].path) == Some(d),
{
    lemma_document_at(documents, d);
}

proof fn lemma_document_at(documents: Seq<DocumentView>, d: int)
    requires
        0 <= d < documents.len(),
        forall|e: int| 0 <= e < documents.len() && e != d ==> (#[trigger] documents[e]).path
            != documents[d].path,
    ensures
        document_at(documents, documents[d].path) == Some(d),
    decreases documents.len(),
{
    if d < documents.len() - 1 {
        let before = documents.drop_last();
        assert(documents[documents.len() - 1].path != documents[d].path);
        assert forall|e: int| 0 <= e < before.len() && e != d implies (#[trigger] before[e]).path
            != before[d].path by {
            assert(documents[e].path != documents[d].path);
        }
        lemma_document_at(before, d);
    }
}

/// Only a path that a document has is answered with a document: membership in the catalog is
/// what a document route asks for.
pub proof fn law_only_catalog_paths_are_documents(documents: Seq<DocumentView>, path: Seq<Seq<u8>>)
    ensures
        document_at(documents, path) is Some <==> exists|d: int|
            0 <= d < documents.len() && (#[trigger] documents[d]).path == path,
        document_at(documents, path) matches Some(d) ==> 0 <= d < documents.len()
            && documents[d].path == path,
    decreases documents.len(),
{
    if documents.len() > 0 {
        let before = documents.drop_last();
        law_only_catalog_paths_are_documents(before, path);
        if documents.last().path == path {
            assert(documents[documents.len() - 1].path == path);
        } else {
            if exists|d: int| 0 <= d < documents.len() && (#[trigger] documents[d]).path == path {
                let d = choose|d: int| 0 <= d < documents.len() && (#[trigger] documents[d]).path == path;
                assert(before[d].path == path);
            }
            if exists|d: int| 0 <= d < before.len() && (#[trigger] before[d]).path == path {
                let d = choose|d: int| 0 <= d < before.len() && (#[trigger] before[d]).path == path;
                assert(documents[d].path == path);
            }
        }
    }
}

} // verus!
