//! What holds of the paths and the repositories of every catalog that a walk gives.

use vstd::prelude::*;
use vstd::utf8::{decode_utf8, is_char_boundary_iff_not_is_continuation_byte, valid_utf8};
use crate::assembly::{
    found_document, found_documents, is_catalog_of, path_keys, repository_of, stands_for,
};
use crate::catalog::{
    coherent, document_at, in_nearest_repository, is_collection, repository_stands,
    resolved_target, CatalogView, DocumentView,
};
use crate::catalog_laws::{
    law_documents_belong_to_the_nearest_repository, law_exact_targets_stand_for_themselves,
    lemma_found_somewhere,
};
use crate::discovery::{law_repository_is_the_nearest, repository_search};
use crate::order::{lemma_key_order, stable_order, stands_before, text_before};
use crate::pathing_laws::utf8_names;
use crate::paths::{lies_beneath, no_nul, ordinary, relative_to, slash, written};
use crate::reading::{
    chosen_document, collection_key, collection_keys, first_least, lemma_chosen_is_listed, path_key,
};
use crate::text::lower_text;
use crate::walk::{apart, settled, sound, sound_step, steps_apart, WalkView};

verus! {

// ---------------------------------------------------------------------------
// Paths
// ---------------------------------------------------------------------------

/// What a walk finds are files with names as files have them, of which it is known which
/// repository they belong to.
proof fn lemma_found_is_sound(walk: WalkView, k: int)
    requires
        sound(walk),
        0 <= k < found_documents(walk.entries, walk.known).len(),
    ensures
        ({
            let path = found_documents(walk.entries, walk.known)[k].path;
            ordinary(path) && no_nul(path) && settled(path, walk.known)
        }),
{
    let found = found_documents(walk.entries, walk.known);
    lemma_found_somewhere(walk.entries, walk.known, k);
    let i = choose|i: int|
        0 <= i < walk.entries.len() && found_document(#[trigger] walk.entries[i], walk.known)
            == Some(found[k]);
    assert(sound_step(walk.entries[i], walk.known));
}

/// What a walk finds are files that lie apart.
proof fn lemma_found_apart(walk: WalkView, k: int, l: int)
    requires
        sound(walk),
        0 <= k < l < found_documents(walk.entries, walk.known).len(),
    ensures
        apart(
            found_documents(walk.entries, walk.known)[k].path,
            found_documents(walk.entries, walk.known)[l].path,
        ),
    decreases walk.entries.len(),
{
    let entries = walk.entries;
    let rest = WalkView { entries: entries.drop_last(), known: walk.known };
    let before = found_documents(rest.entries, walk.known);
    assert(sound(rest)) by {
        assert forall|i: int| 0 <= i < rest.entries.len() implies sound_step(
            #[trigger] rest.entries[i],
            walk.known,
        ) by {
            assert(rest.entries[i] == entries[i]);
        }
        assert forall|i: int, j: int| 0 <= i < j < rest.entries.len() implies steps_apart(
            #[trigger] rest.entries[i],
            #[trigger] rest.entries[j],
        ) by {
            assert(rest.entries[i] == entries[i] && rest.entries[j] == entries[j]);
        }
    }
    if l < before.len() {
        lemma_found_apart(rest, k, l);
    } else {
        lemma_found_somewhere(rest.entries, walk.known, k);
        let i = choose|i: int|
            0 <= i < rest.entries.len() && found_document(#[trigger] rest.entries[i], walk.known)
                == Some(before[k]);
        assert(rest.entries[i] == entries[i]);
        assert(steps_apart(entries[i], entries[entries.len() - 1]));
    }
}

/// Where the documents of a catalog stand in the walk.
proof fn lemma_documents_in_walk(c: CatalogView, root: Seq<u8>, walk: WalkView, d: int)
    requires
        is_catalog_of(c, root, walk.entries, walk.known),
        sound(walk),
        0 <= d < c.documents.len(),
    ensures
        ordinary(c.documents[d].path),
        no_nul(c.documents[d].path),
        settled(c.documents[d].path, walk.known),
{
    let found = found_documents(walk.entries, walk.known);
    let order = choose|order: Seq<usize>| #[trigger]
        stable_order(path_keys(found), order) && forall|d: int|
            0 <= d < c.documents.len() ==> #[trigger] stands_for(c, d, found[order[d] as int]);
    assert(stands_for(c, d, found[order[d] as int]));
    lemma_found_is_sound(walk, order[d] as int);
}

/// The documents of a catalog are sorted, and lie apart.
proof fn lemma_documents_apart(c: CatalogView, root: Seq<u8>, walk: WalkView, d: int, e: int)
    requires
        is_catalog_of(c, root, walk.entries, walk.known),
        sound(walk),
        0 <= d < e < c.documents.len(),
    ensures
        !text_before(path_key(c.documents[e].path), path_key(c.documents[d].path)),
        apart(c.documents[d].path, c.documents[e].path),
        c.documents[d].path != c.documents[e].path,
{
    let found = found_documents(walk.entries, walk.known);
    let order = choose|order: Seq<usize>| #[trigger]
        stable_order(path_keys(found), order) && forall|d: int|
            0 <= d < c.documents.len() ==> #[trigger] stands_for(c, d, found[order[d] as int]);
    let x = order[d] as int;
    let y = order[e] as int;
    assert(stands_for(c, d, found[x]));
    assert(stands_for(c, e, found[y]));
    let keys = path_keys(found);
    assert(stands_before(keys, x, y));
    lemma_key_order(keys[x], keys[y], keys[x]);
    lemma_key_order(keys[y], keys[x], keys[y]);
    crate::order::lemma_stands_before(keys, x, y, 0);
    if x < y {
        lemma_found_apart(walk, x, y);
    } else if y < x {
        lemma_found_apart(walk, y, x);
    }
    let path = c.documents[d].path;
    assert(path.take(path.len() as int) =~= path);
}

/// Every document of a catalog belongs to the nearest repository that it lies in.
proof fn lemma_nearest(c: CatalogView, root: Seq<u8>, walk: WalkView, d: int)
    requires
        is_catalog_of(c, root, walk.entries, walk.known),
        sound(walk),
        0 <= d < c.documents.len(),
    ensures
        in_nearest_repository(c, d),
{
    let known = walk.known;
    let path = c.documents[d].path;
    assert(c.documents[d].id == d);
    law_documents_belong_to_the_nearest_repository(c, root, walk.entries, known, d);
    lemma_documents_in_walk(c, root, walk, d);
    if let Some(r) = c.documents[d].repository {
        let own = c.repositories[r as int].root;
        assert(repository_search(path, known) is Repository);
        assert(path.len() > 0);
        law_repository_is_the_nearest(path, known, 0);
        assert(path.drop_last().take(own.len() as int) =~= path.take(own.len() as int));
    }
    assert forall|q: int|
        0 <= q < c.repositories.len() && lies_beneath(
            path,
            (#[trigger] c.repositories[q]).root,
        ) implies (c.documents[d].repository matches Some(r) && c.repositories[q].root.len()
        <= c.repositories[r as int].root.len()) by {
        let other = c.repositories[q].root;
        let e = lemma_roots_are_known(c, root, walk, q);
        let inner = c.documents[e].path;
        if other.len() == path.len() {
            assert(path.take(path.len() as int) =~= path);
            assert(lies_beneath(inner, path));
            if e < d {
                lemma_documents_apart(c, root, walk, e, d);
            } else if d < e {
                lemma_documents_apart(c, root, walk, d, e);
            }
        }
        law_repository_is_the_nearest(path, known, other.len() as int);
    }
}

/// The root of a repository of a catalog is known to be one, and a document lies in it.
proof fn lemma_roots_are_known(c: CatalogView, root: Seq<u8>, walk: WalkView, q: int) -> (e: int)
    requires
        is_catalog_of(c, root, walk.entries, walk.known),
        0 <= q < c.repositories.len(),
    ensures
        walk.known.dom().contains(c.repositories[q].root),
        walk.known[c.repositories[q].root],
        0 <= e < c.documents.len(),
        lies_beneath(c.documents[e].path, c.repositories[q].root),
        c.repositories[q].root.len() < c.documents[e].path.len(),
{
    assert(repository_stands(c, q));
    let ids = c.repositories[q].documents;
    let e = ids[0] as int;
    assert(is_collection(c.documents, ids, Some(q as usize), c.repositories[q].root));
    assert(ids[0] < c.documents.len());
    assert(c.documents[e].repository == Some(q as usize));
    assert(c.documents[e].id == e);
    law_documents_belong_to_the_nearest_repository(c, root, walk.entries, walk.known, e);
    let path = c.documents[e].path;
    assert(c.documents[e].repository matches Some(r) ==> r < c.repositories.len());
    assert(repository_of(path, walk.known) is Some);
    assert(repository_search(path, walk.known) is Repository);
    assert(path.len() > 0);
    law_repository_is_the_nearest(path, walk.known, 0);
    let own = c.repositories[q].root;
    assert(path.drop_last().take(own.len() as int) =~= path.take(own.len() as int));
    e
}

/// The catalog of a walk is coherent: its documents are sorted, none has the path of another, and
/// each belongs to the nearest repository that it lies in.
pub proof fn law_scanned_catalogs_are_coherent(c: CatalogView, root: Seq<u8>, walk: WalkView)
    requires
        is_catalog_of(c, root, walk.entries, walk.known),
        sound(walk),
    ensures
        coherent(c),
{
    assert forall|d: int| 0 <= d < c.documents.len() implies ordinary(
        (#[trigger] c.documents[d]).path,
    ) && no_nul(c.documents[d].path) by {
        lemma_documents_in_walk(c, root, walk, d);
    }
    assert forall|d: int| 0 <= d < c.documents.len() implies #[trigger] in_nearest_repository(
        c,
        d,
    ) by {
        lemma_nearest(c, root, walk, d);
    }
    assert forall|d: int, e: int| 0 <= d < e < c.documents.len() implies (
    #[trigger] c.documents[d]).path != (#[trigger] c.documents[e]).path && !text_before(
        path_key(c.documents[e].path),
        path_key(c.documents[d].path),
    ) by {
        lemma_documents_apart(c, root, walk, d, e);
    }
}

/// The documents of a catalog have their positions as ids, are sorted by path with the case of
/// ASCII letters ignored, and none has the path of another.
pub proof fn law_documents_are_sorted_and_distinct(c: CatalogView, d: int, e: int)
    requires
        coherent(c),
        0 <= d < e < c.documents.len(),
    ensures
        c.documents[d].id == d,
        c.documents[e].id == e,
        !text_before(path_key(c.documents[e].path), path_key(c.documents[d].path)),
        c.documents[d].path != c.documents[e].path,
{
}

/// Every document of a catalog is found under its own path, and no other document has that path.
pub proof fn law_documents_are_found_under_their_paths(c: CatalogView, d: int)
    requires
        coherent(c),
        0 <= d < c.documents.len(),
    ensures
        document_at(c.documents, c.documents[d].path) == Some(d),
        resolved_target(c.documents, c.documents[d].path) == Some(d),
        forall|e: int|
            0 <= e < c.documents.len() && e != d ==> (#[trigger] c.documents[e]).path
                != c.documents[d].path,
{
    assert forall|e: int| 0 <= e < c.documents.len() && e != d implies (
    #[trigger] c.documents[e]).path != c.documents[d].path by {
        if d < e {
            law_documents_are_sorted_and_distinct(c, d, e);
        } else {
            law_documents_are_sorted_and_distinct(c, e, d);
        }
    }
    law_exact_targets_stand_for_themselves(c.documents, d);
}

/// Among the repositories of a catalog the nearest one wins: a document lies in its repository,
/// and every other repository that it lies in is further up. A document without a repository lies
/// in none.
pub proof fn law_nearest_repository_wins(c: CatalogView, d: int, q: int)
    requires
        coherent(c),
        0 <= d < c.documents.len(),
        0 <= q < c.repositories.len(),
    ensures
        c.documents[d].repository matches Some(r) ==> {
            &&& r < c.repositories.len()
            &&& lies_beneath(c.documents[d].path, c.repositories[r as int].root)
            &&& lies_beneath(c.documents[d].path, c.repositories[q].root)
                ==> c.repositories[q].root.len() <= c.repositories[r as int].root.len()
        },
        c.documents[d].repository is None ==> !lies_beneath(
            c.documents[d].path,
            c.repositories[q].root,
        ),
{
    assert(in_nearest_repository(c, d));
}

/// The names of a path that is UTF-8 are UTF-8.
pub proof fn lemma_names_of_utf8_path(path: Seq<Seq<u8>>)
    requires
        valid_utf8(written(path)),
    ensures
        utf8_names(path),
    decreases path.len(),
{
    if path.len() == 1 {
        assert(written(path) == path[0]);
    } else if path.len() > 1 {
        let before = path.drop_last();
        lemma_split_at_slash(written(before), path.last());
        assert(written(path) == written(before) + seq![slash()] + path.last());
        lemma_names_of_utf8_path(before);
        assert forall|i: int| 0 <= i < path.len() implies valid_utf8(#[trigger] path[i]) by {
            if i < before.len() {
                assert(path[i] == before[i]);
                assert(valid_utf8(before[i]));
            }
        }
    }
}

/// UTF-8 on both sides of a slash is UTF-8, and reads as the text on both sides.
pub proof fn lemma_split_at_slash(a: Seq<u8>, b: Seq<u8>)
    ensures
        valid_utf8(a + seq![slash()] + b) ==> valid_utf8(a) && valid_utf8(b) && decode_utf8(
            a + seq![slash()] + b,
        ) == decode_utf8(a) + seq!['/'] + decode_utf8(b),
{
    let all = a + seq![slash()] + b;
    let n = a.len() as int;
    if valid_utf8(all) {
        assert(all[n] == slash());
        is_char_boundary_iff_not_is_continuation_byte(all, n);
        vstd::utf8::valid_utf8_split(all, n);
        vstd::utf8::decode_utf8_split(all, n);
        assert(all.subrange(0, n) =~= a);
        let rest = all.subrange(n, all.len() as int);
        assert(rest =~= seq![slash()] + b);
        assert(rest[0] == slash());
        assert(vstd::utf8::pop_first_scalar(rest) =~= b);
        assert(vstd::utf8::decode_first_scalar(rest) == 47) by {
            assert(47u8 & 0x7f == 47) by (bit_vector);
        }
        assert(decode_utf8(rest) =~= seq!['/'] + decode_utf8(b));
        assert(decode_utf8(all) =~= decode_utf8(a) + seq!['/'] + decode_utf8(b));
    }
}

// ---------------------------------------------------------------------------
// The default document
// ---------------------------------------------------------------------------

/// The document that a collection opens with does not depend on the order in which its documents
/// are listed, if no two of them have the same place in the reading order.
pub proof fn law_default_does_not_depend_on_the_order(
    documents: Seq<DocumentView>,
    a: Seq<usize>,
    b: Seq<usize>,
    root: Seq<Seq<u8>>,
)
    requires
        forall|id: usize| #[trigger] a.contains(id) <==> b.contains(id),
        forall|x: usize, y: usize| #[trigger]
            a.contains(x) && #[trigger] a.contains(y) && x != y ==> collection_key(
                documents[x as int],
                root,
            ) != collection_key(documents[y as int], root),
    ensures
        chosen_document(documents, a, root) == chosen_document(documents, b, root),
{
    lemma_chosen_is_listed(documents, a, root);
    lemma_chosen_is_listed(documents, b, root);
    if a.len() > 0 {
        assert(a.contains(a[0]));
        assert(b.contains(a[0]));
        let m = chosen_document(documents, a, root)->0;
        let k = chosen_document(documents, b, root)->0;
        lemma_no_listed_key_is_less(documents, a, root, k);
        lemma_no_listed_key_is_less(documents, b, root, m);
        let x = collection_key(documents[m as int], root);
        let y = collection_key(documents[k as int], root);
        lemma_key_order(x, y, x);
        assert(x == y);
        assert(a.contains(m) && a.contains(k));
        assert(m == k);
    } else if b.len() > 0 {
        assert(b.contains(b[0]));
        assert(a.contains(b[0]));
    }
}

/// No listed document comes before the one that is chosen.
proof fn lemma_no_listed_key_is_less(
    documents: Seq<DocumentView>,
    ids: Seq<usize>,
    root: Seq<Seq<u8>>,
    id: usize,
)
    requires
        ids.contains(id),
    ensures
        chosen_document(documents, ids, root) matches Some(m) && !crate::order::key_before(
            collection_key(documents[id as int], root),
            collection_key(documents[m as int], root),
        ),
{
    lemma_chosen_is_listed(documents, ids, root);
    let keys = collection_keys(documents, ids, root);
    let i = choose|i: int| 0 <= i < ids.len() && ids[i] == id;
    assert(!crate::order::key_before(keys[i], keys[first_least(keys)]));
}

/// A written path that goes on is both parts with a slash between them.
proof fn lemma_written_in_two(root: Seq<Seq<u8>>, rest: Seq<Seq<u8>>)
    requires
        root.len() > 0,
        rest.len() > 0,
    ensures
        written(root + rest) == written(root) + seq![slash()] + written(rest),
    decreases rest.len(),
{
    let all = root + rest;
    let before = rest.drop_last();
    assert(all.drop_last() =~= root + before);
    if before.len() == 0 {
        assert(root + before =~= root);
    } else {
        lemma_written_in_two(root, before);
        assert(written(root) + seq![slash()] + written(before) + seq![slash()] + rest.last()
            =~= written(root) + seq![slash()] + (written(before) + seq![slash()] + rest.last()));
    }
}

/// Documents beneath a directory with the same place in its reading order have the same path,
/// the case of ASCII letters aside.
proof fn lemma_equal_places(root: Seq<Seq<u8>>, p: Seq<Seq<u8>>, q: Seq<Seq<u8>>)
    requires
        lies_beneath(p, root),
        lies_beneath(q, root),
        valid_utf8(written(p)),
        valid_utf8(written(q)),
        relative_to(p, root).len() == relative_to(q, root).len(),
        path_key(relative_to(p, root)) == path_key(relative_to(q, root)),
    ensures
        path_key(p) == path_key(q),
{
    let x = relative_to(p, root);
    let y = relative_to(q, root);
    assert(p =~= root + x);
    assert(q =~= root + y);
    if root.len() == 0 {
        assert(p =~= x);
        assert(q =~= y);
    } else if x.len() > 0 {
        lemma_written_in_two(root, x);
        lemma_written_in_two(root, y);
        lemma_split_at_slash(written(root), written(x));
        lemma_split_at_slash(written(root), written(y));
        let start = decode_utf8(written(root)) + seq!['/'];
        assert(path_key(p) =~= lower_text(start) + path_key(x));
        assert(path_key(q) =~= lower_text(start) + path_key(y));
    }
}

/// The document that a collection opens with does not depend on the order in which its documents
/// are listed, if no two of their paths are equal with the case of ASCII letters ignored.
pub proof fn law_default_is_told_by_the_paths(
    documents: Seq<DocumentView>,
    a: Seq<usize>,
    b: Seq<usize>,
    root: Seq<Seq<u8>>,
)
    requires
        forall|id: usize| #[trigger] a.contains(id) <==> b.contains(id),
        forall|id: usize| #[trigger]
            a.contains(id) ==> lies_beneath(documents[id as int].path, root) && valid_utf8(
                written(documents[id as int].path),
            ),
        forall|x: usize, y: usize| #[trigger]
            a.contains(x) && #[trigger] a.contains(y) && x != y ==> path_key(
                documents[x as int].path,
            ) != path_key(documents[y as int].path),
    ensures
        chosen_document(documents, a, root) == chosen_document(documents, b, root),
{
    assert forall|x: usize, y: usize| #[trigger]
        a.contains(x) && #[trigger] a.contains(y) && x != y implies collection_key(
        documents[x as int],
        root,
    ) != collection_key(documents[y as int], root) by {
        if collection_key(documents[x as int], root) == collection_key(documents[y as int], root) {
            lemma_equal_places(root, documents[x as int].path, documents[y as int].path);
        }
    }
    law_default_does_not_depend_on_the_order(documents, a, b, root);
}

} // verus!
