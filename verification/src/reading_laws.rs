//! What holds of the order in which documents are read, and of what a link to a directory opens.

use vstd::prelude::*;
use vstd::utf8::{decode_utf8, encode_utf8, valid_utf8};
use crate::catalog::{
    coherent, document_at, is_collection, is_extensionless, landing_of, lemma_positions_where,
    member_before, positions_beneath, positions_extensionless, positions_where, repository_stands,
    resolved_target, CatalogView, DocumentView, Landing,
};
use crate::catalog_laws::{law_one_collection_opens_directly, law_only_catalog_paths_are_documents};
use crate::discovery::{markdown_path, spells};
use crate::order::{key_before, lemma_key_order, text_before};
use crate::paths::{
    extension_of, last_dot, lemma_last_dot, lies_beneath, path_extension, relative_to, stem_of,
    written,
};
use crate::reading::{
    chosen_document, collection_key, collection_keys, default_key, first_least, is_first_least,
    lemma_chosen_is_listed, reading_priority,
};
use crate::text::lower_text;
use crate::walk_laws::law_documents_are_found_under_their_paths;
use crate::word_laws::{
    ascii_bytes, in_any_case, law_names_are_split_at_their_last_dot, law_names_without_extension,
    law_spelling_ignores_case, lemma_ascii_bytes, small_word,
};

verus! {

// ---------------------------------------------------------------------------
// Names
// ---------------------------------------------------------------------------

/// Whether a name is a word, in any case, a dot, and an extension.
pub open spec fn named(name: Seq<u8>, word: Seq<char>) -> bool {
    &&& name.len() > word.len()
    &&& in_any_case(name.take(word.len() as int), word)
    &&& name[word.len() as int] == 46
    &&& forall|i: int| word.len() < i < name.len() ==> #[trigger] name[i] != 46
}

/// Whether a path is that of a file in a directory whose name is a word, in any case, and an
/// extension.
pub open spec fn stands_in(directory: Seq<Seq<u8>>, path: Seq<Seq<u8>>, word: Seq<char>) -> bool {
    path.len() == directory.len() + 1 && path.drop_last() == directory && named(path.last(), word)
}

/// What follows the first names of a path, as text in lower case.
pub open spec fn text_behind(directory: Seq<Seq<u8>>, path: Seq<Seq<u8>>) -> Seq<char> {
    lower_text(decode_utf8(written(path.skip(directory.len() as int))))
}

/// Whether one document of a directory is read no later than another. A `README.md` in the
/// directory itself is read before all others, then any other readme there, in any case, then an
/// `index.md`, then any other index. Of all the rest, and of two of the same kind, the one that
/// lies higher is read first, and of two that lie equally high the one that comes first in the
/// alphabet, the case of letters aside.
pub open spec fn read_no_later(
    directory: Seq<Seq<u8>>,
    a: Seq<Seq<u8>>,
    b: Seq<Seq<u8>>,
) -> bool {
    let a_readme = stands_in(directory, a, "readme"@);
    let b_readme = stands_in(directory, b, "readme"@);
    let a_index = stands_in(directory, a, "index"@);
    let b_index = stands_in(directory, b, "index"@);
    let readme = directory.push(ascii_bytes("README.md"@));
    let index = directory.push(ascii_bytes("index.md"@));
    &&& b == readme ==> a == readme
    &&& b_readme ==> a_readme
    &&& b == index ==> a_readme || a == index
    &&& b_index ==> a_readme || a_index
    &&& a_readme == b_readme && a_index == b_index && (a == readme) == (b == readme) && (a == index)
        == (b == index) ==> a.len() <= b.len() && (a.len() == b.len() ==> !text_before(
        text_behind(directory, b),
        text_behind(directory, a),
    ))
}

proof fn lemma_named(name: Seq<u8>, word: Seq<char>)
    requires
        small_word(word),
        word.len() > 0,
        extension_of(name) is Some,
    ensures
        named(name, word) <==> spells(stem_of(name), word),
{
    if named(name, word) {
        let k = word.len() as int;
        let stem = name.take(k);
        let extension = name.skip(k + 1);
        assert(name =~= stem + seq![46u8] + extension);
        assert forall|i: int| 0 <= i < extension.len() implies #[trigger] extension[i] != 46 by {
            assert(extension[i] == name[i + k + 1]);
        }
        law_names_are_split_at_their_last_dot(stem, extension);
        law_spelling_ignores_case(stem, word);
    }
    if spells(stem_of(name), word) {
        lemma_last_dot(name);
        let k = last_dot(name);
        law_spelling_ignores_case(name.take(k), word);
        assert(k == word.len());
        assert forall|i: int| word.len() < i < name.len() implies #[trigger] name[i] != 46 by {}
    }
}

proof fn lemma_words()
    ensures
        small_word("readme"@),
        small_word("index"@),
        "readme"@.len() == 6,
        "index"@.len() == 5,
        encode_utf8("README.md"@) == ascii_bytes("README.md"@),
        encode_utf8("index.md"@) == ascii_bytes("index.md"@),
        named(ascii_bytes("README.md"@), "readme"@),
        named(ascii_bytes("index.md"@), "index"@),
{
    reveal_strlit("readme");
    reveal_strlit("index");
    reveal_strlit("README.md");
    reveal_strlit("index.md");
    lemma_ascii_bytes("README.md"@);
    lemma_ascii_bytes("index.md"@);
    let a = ascii_bytes("README.md"@);
    let b = ascii_bytes("index.md"@);
    assert(a[0] == 82 && a[1] == 69 && a[2] == 65 && a[3] == 68 && a[4] == 77 && a[5] == 69);
    assert(a[6] == 46 && a[7] == 109 && a[8] == 100);
    assert(b[0] == 105 && b[1] == 110 && b[2] == 100 && b[3] == 101 && b[4] == 120);
    assert(b[5] == 46 && b[6] == 109 && b[7] == 100);
}

proof fn lemma_two_words(name: Seq<u8>)
    ensures
        !(named(name, "readme"@) && named(name, "index"@)),
{
    lemma_words();
    reveal_strlit("readme");
    reveal_strlit("index");
    if named(name, "readme"@) && named(name, "index"@) {
        assert(name.take(6)[0] == name[0]);
        assert(name.take(5)[0] == name[0]);
    }
}

/// What the priority of a document says of its name.
proof fn lemma_priority(directory: Seq<Seq<u8>>, path: Seq<Seq<u8>>)
    requires
        directory.len() < path.len(),
        path.take(directory.len() as int) == directory,
        path_extension(path) is Some,
    ensures
        ({
            let rest = path.skip(directory.len() as int);
            let p = reading_priority(rest);
            &&& (p == 0) == (path == directory.push(ascii_bytes("README.md"@)))
            &&& (p <= 1) == stands_in(directory, path, "readme"@)
            &&& (p == 2) == (path == directory.push(ascii_bytes("index.md"@)))
            &&& (p == 2 || p == 3) == stands_in(directory, path, "index"@)
        }),
{
    lemma_words();
    let rest = path.skip(directory.len() as int);
    let readme = directory.push(ascii_bytes("README.md"@));
    let index = directory.push(ascii_bytes("index.md"@));
    if rest.len() == 1 {
        assert(path.drop_last() =~= directory);
        assert(path =~= directory.push(rest[0]));
        assert(rest[0] == path.last());
        assert(extension_of(rest[0]) is Some);
        lemma_named(rest[0], "readme"@);
        lemma_named(rest[0], "index"@);
        lemma_two_words(rest[0]);
        lemma_two_words(ascii_bytes("README.md"@));
        if path == readme {
            assert(readme.last() == ascii_bytes("README.md"@));
        }
        if path == index {
            assert(index.last() == ascii_bytes("index.md"@));
        }
        assert(rest =~= seq![rest[0]]);
    } else {
        assert(readme.len() == directory.len() + 1);
        assert(index.len() == directory.len() + 1);
    }
}

/// The order of keys, said of names.
proof fn lemma_read_no_later(directory: Seq<Seq<u8>>, a: Seq<Seq<u8>>, b: Seq<Seq<u8>>)
    requires
        directory.len() < a.len(),
        directory.len() < b.len(),
        a.take(directory.len() as int) == directory,
        b.take(directory.len() as int) == directory,
        path_extension(a) is Some,
        path_extension(b) is Some,
        valid_utf8(written(a.skip(directory.len() as int))),
        valid_utf8(written(b.skip(directory.len() as int))),
        !key_before(
            default_key(relative_to(b, directory)),
            default_key(relative_to(a, directory)),
        ),
    ensures
        read_no_later(directory, a, b),
{
    lemma_priority(directory, a);
    lemma_priority(directory, b);
}

/// Whether a path is one name, made of a word in any case and an extension.
pub open spec fn alone(path: Seq<Seq<u8>>, word: Seq<char>) -> bool {
    path.len() == 1 && named(path[0], word)
}

/// By its sort key a readme at the top of a collection, in any case and with any extension, comes
/// before everything that is none, and a `README.md` before every other readme. An index comes
/// before everything that is neither, and an `index.md` before every other index.
pub proof fn law_sort_keys_put_readmes_first(a: Seq<Seq<u8>>, b: Seq<Seq<u8>>)
    requires
        path_extension(a) is Some,
        path_extension(b) is Some,
    ensures
        alone(a, "readme"@) && !alone(b, "readme"@) ==> key_before(default_key(a), default_key(b)),
        a == seq![ascii_bytes("README.md"@)] && b != a ==> key_before(
            default_key(a),
            default_key(b),
        ),
        alone(a, "index"@) && !alone(b, "readme"@) && !alone(b, "index"@) ==> key_before(
            default_key(a),
            default_key(b),
        ),
        a == seq![ascii_bytes("index.md"@)] && b != a && !alone(b, "readme"@) ==> key_before(
            default_key(a),
            default_key(b),
        ),
{
    let top = Seq::<Seq<u8>>::empty();
    assert(a.take(0) =~= top);
    assert(b.take(0) =~= top);
    assert(a.skip(0) =~= a);
    assert(b.skip(0) =~= b);
    lemma_priority(top, a);
    lemma_priority(top, b);
    assert(relative_to(a, top) == a);
    assert(relative_to(b, top) == b);
    if a.len() == 1 {
        assert(a.drop_last() =~= top);
    }
    if b.len() == 1 {
        assert(b.drop_last() =~= top);
    }
    assert(top.push(ascii_bytes("README.md"@)) =~= seq![ascii_bytes("README.md"@)]);
    assert(top.push(ascii_bytes("index.md"@)) =~= seq![ascii_bytes("index.md"@)]);
}

/// A readme or an index without an extension has the priority of one with an extension.
pub proof fn law_names_without_extension_are_sorted_alike(name: Seq<u8>)
    ensures
        in_any_case(name, "readme"@) ==> default_key(seq![name]).priority == default_key(
            seq![ascii_bytes("readme.md"@)],
        ).priority,
        in_any_case(name, "index"@) ==> default_key(seq![name]).priority == default_key(
            seq![ascii_bytes("index.markdown"@)],
        ).priority,
{
    lemma_words();
    reveal_strlit("readme");
    reveal_strlit("index");
    reveal_strlit("readme.md");
    reveal_strlit("index.markdown");
    reveal_strlit("README.md");
    reveal_strlit("index.md");
    lemma_ascii_bytes("README.md"@);
    lemma_ascii_bytes("index.md"@);
    let readme = ascii_bytes("readme.md"@);
    let index = ascii_bytes("index.markdown"@);
    assert(readme =~= ascii_bytes("readme"@) + seq![46u8] + seq![109u8, 100u8]);
    assert(index =~= ascii_bytes("index"@) + seq![46u8] + seq![
        109u8,
        97u8,
        114u8,
        107u8,
        100u8,
        111u8,
        119u8,
        110u8,
    ]);
    law_names_are_split_at_their_last_dot(ascii_bytes("readme"@), seq![109u8, 100u8]);
    law_names_are_split_at_their_last_dot(
        ascii_bytes("index"@),
        seq![109u8, 97u8, 114u8, 107u8, 100u8, 111u8, 119u8, 110u8],
    );
    law_spelling_ignores_case(name, "readme"@);
    law_spelling_ignores_case(name, "index"@);
    law_spelling_ignores_case(ascii_bytes("readme"@), "readme"@);
    law_spelling_ignores_case(ascii_bytes("index"@), "readme"@);
    law_spelling_ignores_case(ascii_bytes("index"@), "index"@);
    assert(in_any_case(ascii_bytes("readme"@), "readme"@));
    assert(in_any_case(ascii_bytes("index"@), "index"@));
    assert(readme[0] == 114 && ascii_bytes("README.md"@)[0] == 82);
    if in_any_case(name, "readme"@) || in_any_case(name, "index"@) {
        assert forall|i: int| 1 <= i < name.len() implies #[trigger] name[i] != 46 by {}
        law_names_without_extension(name);
    }
}

/// Of two paths whose sort keys stand in order, the first is read no later.
pub proof fn law_sort_keys_stand_in_reading_order(a: Seq<Seq<u8>>, b: Seq<Seq<u8>>)
    requires
        path_extension(a) is Some,
        path_extension(b) is Some,
        valid_utf8(written(a)),
        valid_utf8(written(b)),
        !key_before(default_key(b), default_key(a)),
    ensures
        read_no_later(Seq::empty(), a, b),
{
    let top = Seq::<Seq<u8>>::empty();
    assert(a.take(0) =~= top);
    assert(b.take(0) =~= top);
    assert(a.skip(0) =~= a);
    assert(b.skip(0) =~= b);
    lemma_read_no_later(top, a, b);
}

/// What stands behind the first names of a path that is UTF-8 is UTF-8.
proof fn lemma_rest_is_utf8(path: Seq<Seq<u8>>, n: int)
    requires
        valid_utf8(written(path)),
        0 <= n <= path.len(),
    ensures
        valid_utf8(written(path.skip(n))),
{
    crate::walk_laws::lemma_names_of_utf8_path(path);
    let rest = path.skip(n);
    assert forall|i: int| 0 <= i < rest.len() implies valid_utf8(#[trigger] rest[i]) by {
        assert(rest[i] == path[n + i]);
    }
    lemma_written_is_utf8(rest);
}

proof fn lemma_written_is_utf8(path: Seq<Seq<u8>>)
    requires
        forall|i: int| 0 <= i < path.len() ==> valid_utf8(#[trigger] path[i]),
    ensures
        valid_utf8(written(path)),
    decreases path.len(),
{
    if path.len() == 0 {
        assert(written(path) =~= Seq::<u8>::empty());
    } else if path.len() == 1 {
        assert(written(path) == path[0]);
        assert(valid_utf8(path[0]));
    } else {
        let before = path.drop_last();
        assert forall|i: int| 0 <= i < before.len() implies valid_utf8(#[trigger] before[i]) by {
            assert(before[i] == path[i]);
        }
        lemma_written_is_utf8(before);
        let slash = seq![crate::paths::slash()];
        reveal_strlit("/");
        lemma_ascii_bytes("/"@);
        assert(slash =~= ascii_bytes("/"@));
        vstd::utf8::encode_utf8_valid_utf8("/"@);
        vstd::utf8::valid_utf8_concat(written(before), slash);
        assert(valid_utf8(path[path.len() - 1]));
        vstd::utf8::valid_utf8_concat(written(before) + slash, path.last());
    }
}

/// Whether a document lies beneath a directory.
pub open spec fn is_in(path: Seq<Seq<u8>>, directory: Seq<Seq<u8>>) -> bool {
    directory.len() < path.len() && path.take(directory.len() as int) == directory
}

// ---------------------------------------------------------------------------
// Collections
// ---------------------------------------------------------------------------

/// The root of the collection of a document: that of its repository, or the library itself.
pub open spec fn collection_root(c: CatalogView, d: int) -> Seq<Seq<u8>> {
    match c.documents[d].repository {
        Some(r) => c.repositories[r as int].root,
        None => Seq::empty(),
    }
}

proof fn lemma_in_collection(c: CatalogView, d: int)
    requires
        coherent(c),
        0 <= d < c.documents.len(),
    ensures
        is_in(c.documents[d].path, collection_root(c, d)),
        path_extension(c.documents[d].path) is Some,
        valid_utf8(written(c.documents[d].path)),
{
    assert(c.documents[d].id == d);
    assert(crate::catalog::in_nearest_repository(c, d));
    let path = c.documents[d].path;
    let root = collection_root(c, d);
    assert(path.take(root.len() as int) =~= root);
}

/// The documents of a collection are read in order: of two that follow one another in the list, the
/// first is read no later.
pub proof fn law_collections_are_read_in_order(
    c: CatalogView,
    ids: Seq<usize>,
    r: int,
    i: int,
    j: int,
)
    requires
        coherent(c),
        (0 <= r < c.repositories.len() && ids == c.repositories[r].documents) || ids
            == c.loose_documents,
        0 <= i < j < ids.len(),
    ensures
        ids[i] < c.documents.len(),
        ids[j] < c.documents.len(),
        read_no_later(
            collection_root(c, ids[i] as int),
            c.documents[ids[i] as int].path,
            c.documents[ids[j] as int].path,
        ),
{
    let a = ids[i] as int;
    let b = ids[j] as int;
    if ids == c.loose_documents {
        assert(is_collection(c.documents, ids, None, Seq::empty()));
    } else {
        assert(repository_stands(c, r));
        assert(is_collection(c.documents, ids, Some(r as usize), c.repositories[r].root));
    }
    let root = collection_root(c, a);
    assert(collection_root(c, b) == root);
    assert(member_before(c.documents, root, ids[i], ids[j]));
    lemma_in_collection(c, a);
    lemma_in_collection(c, b);
    lemma_rest_is_utf8(c.documents[a].path, root.len() as int);
    lemma_rest_is_utf8(c.documents[b].path, root.len() as int);
    let x = collection_key(c.documents[a], root);
    let y = collection_key(c.documents[b], root);
    lemma_key_order(x, y, x);
    lemma_key_order(y, x, y);
    lemma_read_no_later(root, c.documents[a].path, c.documents[b].path);
}

/// What a list of documents beneath a directory opens with is read no later than any of them.
proof fn lemma_chosen_is_read_first(c: CatalogView, ids: Seq<usize>, root: Seq<Seq<u8>>, d: int)
    requires
        coherent(c),
        0 <= d < c.documents.len() <= usize::MAX,
        ids.contains(d as usize),
        forall|i: int|
            0 <= i < ids.len() ==> #[trigger] ids[i] < c.documents.len() && is_in(
                c.documents[ids[i] as int].path,
                root,
            ),
    ensures
        chosen_document(c.documents, ids, root) matches Some(id) && id < c.documents.len()
            && ids.contains(id) && read_no_later(
            root,
            c.documents[id as int].path,
            c.documents[d].path,
        ),
{
    lemma_chosen_is_listed(c.documents, ids, root);
    let keys = collection_keys(c.documents, ids, root);
    let k = first_least(keys);
    let id = ids[k] as int;
    assert(is_first_least(keys, k));
    let i = choose|i: int| 0 <= i < ids.len() && ids[i] == d as usize;
    assert(!key_before(keys[i], keys[k]));
    assert(c.documents[id].id == id);
    assert(c.documents[d].id == d);
    lemma_rest_is_utf8(c.documents[id].path, root.len() as int);
    lemma_rest_is_utf8(c.documents[d].path, root.len() as int);
    assert(is_in(c.documents[ids[i] as int].path, root));
    lemma_read_no_later(root, c.documents[id].path, c.documents[d].path);
}

/// A repository opens with a document of its own that is read no later than any other of its
/// documents: so with its `README.md`, or else a readme in any case, or else an index.
pub proof fn law_repositories_open_with_what_is_read_first(c: CatalogView, r: int, d: int)
    requires
        coherent(c),
        0 <= r < c.repositories.len() <= usize::MAX,
        0 <= d < c.documents.len() <= usize::MAX,
        c.documents[d].repository == Some(r as usize),
    ensures
        c.repositories[r].default_document matches Some(id) && id < c.documents.len()
            && c.documents[id as int].repository == Some(r as usize) && read_no_later(
            c.repositories[r].root,
            c.documents[id as int].path,
            c.documents[d].path,
        ),
{
    assert(repository_stands(c, r));
    let ids = c.repositories[r].documents;
    let root = c.repositories[r].root;
    assert(is_collection(c.documents, ids, Some(r as usize), root));
    assert forall|i: int| 0 <= i < ids.len() implies #[trigger] ids[i] < c.documents.len() && is_in(
        c.documents[ids[i] as int].path,
        root,
    ) by {
        lemma_in_collection(c, ids[i] as int);
    }
    lemma_chosen_is_read_first(c, ids, root, d);
    let id = chosen_document(c.documents, ids, root)->0;
    let i = choose|i: int| 0 <= i < ids.len() && ids[i] == id;
    assert(c.documents[ids[i] as int].repository == Some(r as usize));
}

/// The loose documents open with one of them that is read no later than any other.
pub proof fn law_loose_documents_open_with_what_is_read_first(c: CatalogView, d: int)
    requires
        coherent(c),
        0 <= d < c.documents.len() <= usize::MAX,
        c.documents[d].repository is None,
    ensures
        chosen_document(c.documents, c.loose_documents, Seq::empty()) matches Some(id) && id
            < c.documents.len() && c.documents[id as int].repository is None && read_no_later(
            Seq::empty(),
            c.documents[id as int].path,
            c.documents[d].path,
        ),
{
    let ids = c.loose_documents;
    let root = Seq::<Seq<u8>>::empty();
    assert(is_collection(c.documents, ids, None, root));
    assert forall|i: int| 0 <= i < ids.len() implies #[trigger] ids[i] < c.documents.len() && is_in(
        c.documents[ids[i] as int].path,
        root,
    ) by {
        lemma_in_collection(c, ids[i] as int);
    }
    assert(c.documents[d].id == d);
    lemma_chosen_is_read_first(c, ids, root, d);
    let id = chosen_document(c.documents, ids, root)->0;
    let i = choose|i: int| 0 <= i < ids.len() && ids[i] == id;
    assert(c.documents[ids[i] as int].repository is None);
}

/// A library with one collection opens with the document that is read no later than any other; a
/// library whose documents belong to two collections opens on the shelf, and so does one without
/// documents.
pub proof fn law_libraries_open_with_what_is_read_first(c: CatalogView, d: int, e: int)
    requires
        coherent(c),
        0 <= d < c.documents.len() <= usize::MAX,
        0 <= e < c.documents.len(),
    ensures
        c.documents[d].repository != c.documents[e].repository ==> landing_of(c) is Shelf,
        (forall|f: int|
            0 <= f < c.documents.len() ==> (#[trigger] c.documents[f]).repository
                == c.documents[d].repository) ==> (landing_of(c) matches Landing::Document(id) && id
            < c.documents.len() && read_no_later(
            collection_root(c, d),
            c.documents[id as int].path,
            c.documents[d].path,
        )),
{
    assert(c.documents[d].id == d);
    assert(c.documents[e].id == e);
    law_one_collection_opens_directly(c);
    lemma_collections_are_counted(c, d);
    lemma_collections_are_counted(c, e);
    if forall|f: int|
        0 <= f < c.documents.len() ==> (#[trigger] c.documents[f]).repository
            == c.documents[d].repository {
        if c.documents[d].repository is None {
            if c.repositories.len() > 0 {
                lemma_repository_has_a_document(c, 0);
            }
            law_loose_documents_open_with_what_is_read_first(c, d);
        } else {
            let r = c.documents[d].repository->0 as int;
            if c.loose_documents.len() > 0 {
                assert(c.documents[c.loose_documents[0] as int].repository is None);
            }
            lemma_repository_has_a_document(c, 0);
            if c.repositories.len() > 1 {
                lemma_repository_has_a_document(c, 1);
            }
            law_repositories_open_with_what_is_read_first(c, r, d);
        }
    }
}

proof fn lemma_repository_has_a_document(c: CatalogView, r: int)
    requires
        coherent(c),
        0 <= r < c.repositories.len() <= usize::MAX,
    ensures
        exists|f: int|
            0 <= f < c.documents.len() && (#[trigger] c.documents[f]).repository == Some(r as usize),
{
    assert(repository_stands(c, r));
    let ids = c.repositories[r].documents;
    assert(is_collection(c.documents, ids, Some(r as usize), c.repositories[r].root));
    assert(ids[0] < c.documents.len());
    assert(c.documents[ids[0] as int].repository == Some(r as usize));
}

proof fn lemma_collections_are_counted(c: CatalogView, d: int)
    requires
        coherent(c),
        0 <= d < c.documents.len() <= usize::MAX,
    ensures
        c.documents[d].repository is None ==> c.loose_documents.len() > 0,
        c.documents[d].repository matches Some(r) ==> r < c.repositories.len(),
{
    assert(c.documents[d].id == d);
    if c.documents[d].repository is None {
        assert(c.loose_documents.contains(d as usize));
    }
}

// ---------------------------------------------------------------------------
// Link targets
// ---------------------------------------------------------------------------

proof fn lemma_positions_hold(
    documents: Seq<DocumentView>,
    p: spec_fn(DocumentView) -> bool,
    d: int,
)
    requires
        0 <= d < documents.len() <= usize::MAX,
        p(documents[d]),
    ensures
        positions_where(documents, p).contains(d as usize),
    decreases documents.len(),
{
    let before = positions_where(documents.drop_last(), p);
    let all = positions_where(documents, p);
    if d == documents.len() - 1 {
        assert(all[before.len() as int] == d as usize);
    } else {
        assert(documents.drop_last()[d] == documents[d]);
        lemma_positions_hold(documents.drop_last(), p, d);
        let k = choose|k: int| 0 <= k < before.len() && before[k] == d as usize;
        assert(all[k] == d as usize);
    }
}

/// Whether a name is another one, a dot, and an extension of Markdown, in any case.
pub open spec fn with_markdown_extension(name: Seq<u8>, stem: Seq<u8>) -> bool {
    name.len() > stem.len() && name.take(stem.len() as int) == stem && name[stem.len() as int] == 46
        && (in_any_case(name.skip(stem.len() as int + 1), "md"@) || in_any_case(
        name.skip(stem.len() as int + 1),
        "markdown"@,
    ))
}

/// Whether a document is what a target stands for when the extension is left out of a link.
pub open spec fn extends(path: Seq<Seq<u8>>, target: Seq<Seq<u8>>) -> bool {
    target.len() > 0 && path.len() == target.len() && path.drop_last() == target.drop_last()
        && with_markdown_extension(path.last(), target.last())
}

/// Whether a name has no extension: no dot stands in it but at its beginning.
pub open spec fn bare(name: Seq<u8>) -> bool {
    forall|i: int| 1 <= i < name.len() ==> #[trigger] name[i] != 46
}

proof fn lemma_extends(document: DocumentView, target: Seq<Seq<u8>>)
    requires
        target.len() > 0,
        target.last().len() > 0,
        markdown_path(document.path),
    ensures
        is_extensionless(document, target) <==> extends(document.path, target),
{
    reveal_strlit("md");
    reveal_strlit("markdown");
    let name = document.path.last();
    let stem = target.last();
    if extends(document.path, target) {
        let extension = name.skip(stem.len() as int + 1);
        assert(name =~= stem + seq![46u8] + extension);
        assert forall|i: int| 0 <= i < extension.len() implies #[trigger] extension[i] != 46 by {}
        law_names_are_split_at_their_last_dot(stem, extension);
    }
    if is_extensionless(document, target) {
        lemma_last_dot(name);
        let k = last_dot(name);
        assert(name.take(k) == stem);
        law_spelling_ignores_case(name.skip(k + 1), "md"@);
        law_spelling_ignores_case(name.skip(k + 1), "markdown"@);
    }
}

/// A target that is neither the path of a document nor, without an extension, that of one whose
/// extension is left out, is a directory. It stands for the document beneath it that is read no
/// later than any other beneath it: so for its `README.md` where it has one. It stands for nothing
/// only where no document lies beneath it.
pub proof fn law_directories_stand_for_what_is_read_first(
    c: CatalogView,
    target: Seq<Seq<u8>>,
    d: int,
)
    requires
        coherent(c),
        0 <= d < c.documents.len() <= usize::MAX,
        forall|e: int|
            0 <= e < c.documents.len() ==> (#[trigger] c.documents[e]).path != target && !extends(
                c.documents[e].path,
                target,
            ),
        target.len() > 0 ==> target.last().len() > 0,
    ensures
        is_in(c.documents[d].path, target) ==> (resolved_target(c.documents, target) matches Some(e)
            && 0 <= e < c.documents.len() && is_in(c.documents[e].path, target) && read_no_later(
            target,
            c.documents[e].path,
            c.documents[d].path,
        )),
        resolved_target(c.documents, target) matches Some(e) ==> 0 <= e < c.documents.len()
            && is_in(c.documents[e].path, target),
        c.documents[d].path == target.push(ascii_bytes("README.md"@)) ==> resolved_target(
            c.documents,
            target,
        ) == Some(d),
{
    lemma_no_other_target(c, target);
    let ids = positions_beneath(c.documents, target);
    let p = |x: DocumentView| lies_beneath(x.path, target);
    assert forall|i: int| 0 <= i < ids.len() implies #[trigger] ids[i] < c.documents.len() && is_in(
        c.documents[ids[i] as int].path,
        target,
    ) by {
        lemma_positions_where(c.documents, p, i);
        let path = c.documents[ids[i] as int].path;
        if path.len() == target.len() {
            assert(path.take(target.len() as int) =~= path);
        }
    }
    lemma_chosen_is_listed(c.documents, ids, target);
    if chosen_document(c.documents, ids, target) is Some {
        let id = chosen_document(c.documents, ids, target)->0;
        let i = choose|i: int| 0 <= i < ids.len() && ids[i] == id;
        assert(is_in(c.documents[ids[i] as int].path, target));
    }
    if is_in(c.documents[d].path, target) {
        lemma_positions_hold(c.documents, p, d);
        lemma_chosen_is_read_first(c, ids, target, d);
    }
    let readme = target.push(ascii_bytes("README.md"@));
    if c.documents[d].path == readme {
        assert(readme.take(target.len() as int) =~= target);
        let e = resolved_target(c.documents, target)->0;
        assert(c.documents[e].path == readme);
        if e < d {
            assert(c.documents[e].path != c.documents[d].path);
        } else if d < e {
            assert(c.documents[d].path != c.documents[e].path);
        }
    }
}

/// A target that no document has, exactly or with its extension left out, is looked up beneath.
proof fn lemma_no_other_target(c: CatalogView, target: Seq<Seq<u8>>)
    requires
        coherent(c),
        c.documents.len() <= usize::MAX,
        forall|e: int|
            0 <= e < c.documents.len() ==> (#[trigger] c.documents[e]).path != target && !extends(
                c.documents[e].path,
                target,
            ),
        target.len() > 0 ==> target.last().len() > 0,
    ensures
        resolved_target(c.documents, target) == (match chosen_document(
            c.documents,
            positions_beneath(c.documents, target),
            target,
        ) {
            Some(id) => Some(id as int),
            None => None,
        }),
{
    law_only_catalog_paths_are_documents(c.documents, target);
    assert(document_at(c.documents, target) is None);
    if path_extension(target) is None {
        lemma_extended(c, target, "md"@);
        lemma_extended(c, target, "markdown"@);
        let like = positions_extensionless(c.documents, target);
        if like.len() > 0 {
            let p = |x: DocumentView| is_extensionless(x, target);
            lemma_positions_where(c.documents, p, 0);
            let e = like[0] as int;
            assert(c.documents[e].id == e);
            lemma_extends(c.documents[e], target);
        }
    }
}

/// A document at a target with an extension behind it is one whose extension is left out.
proof fn lemma_extended(c: CatalogView, target: Seq<Seq<u8>>, extension: Seq<char>)
    requires
        coherent(c),
        extension == "md"@ || extension == "markdown"@,
        forall|e: int|
            0 <= e < c.documents.len() ==> (#[trigger] c.documents[e]).path != target && !extends(
                c.documents[e].path,
                target,
            ),
    ensures
        document_at(c.documents, crate::catalog::extended(target, extension)) is None,
{
    let longer = crate::catalog::extended(target, extension);
    law_only_catalog_paths_are_documents(c.documents, longer);
    if let Some(e) = document_at(c.documents, longer) {
        assert(c.documents[e].path == longer);
        if target.len() > 0 {
            lemma_extended_path(target, extension);
        }
    }
}

proof fn lemma_extended_path(target: Seq<Seq<u8>>, extension: Seq<char>)
    requires
        target.len() > 0,
        extension == "md"@ || extension == "markdown"@,
    ensures
        extends(crate::catalog::extended(target, extension), target),
        crate::catalog::extended(target, extension) == target.drop_last().push(
            target.last() + seq![46u8] + ascii_bytes(extension),
        ),
{
    reveal_strlit("md");
    reveal_strlit("markdown");
    reveal_strlit(".");
    lemma_ascii_bytes("."@);
    lemma_ascii_bytes(extension);
    let longer = crate::catalog::extended(target, extension);
    let stem = target.last();
    let name = stem + seq![46u8] + ascii_bytes(extension);
    assert(ascii_bytes("."@) =~= seq![46u8]);
    assert(longer.last() == name);
    assert(longer.drop_last() =~= target.drop_last());
    assert(name.take(stem.len() as int) =~= stem);
    assert(name.skip(stem.len() as int + 1) =~= ascii_bytes(extension));
}

/// A target without an extension that no document has as its path stands for the document with
/// `.md` behind it, or else for the one with `.markdown` behind it, or else for one with either in
/// another case; in any of these cases for a document whose extension was left out.
pub proof fn law_extensions_may_be_left_out(c: CatalogView, target: Seq<Seq<u8>>, d: int)
    requires
        coherent(c),
        0 <= d < c.documents.len() <= usize::MAX,
        target.len() > 0,
        target.last().len() > 0,
        target.last() != seq![46u8, 46u8],
        bare(target.last()),
        extends(c.documents[d].path, target),
        forall|e: int| 0 <= e < c.documents.len() ==> (#[trigger] c.documents[e]).path != target,
    ensures
        resolved_target(c.documents, target) matches Some(e) && 0 <= e < c.documents.len()
            && extends(c.documents[e].path, target),
        c.documents[d].path.last() == target.last() + seq![46u8] + ascii_bytes("md"@)
            ==> resolved_target(c.documents, target) == Some(d),
        c.documents[d].path.last() == target.last() + seq![46u8] + ascii_bytes("markdown"@) && (
        forall|e: int|
            0 <= e < c.documents.len() ==> (#[trigger] c.documents[e]).path
                != target.drop_last().push(target.last() + seq![46u8] + ascii_bytes("md"@)))
            ==> resolved_target(c.documents, target) == Some(d),
{
    let short = crate::catalog::extended(target, "md"@);
    let long = crate::catalog::extended(target, "markdown"@);
    law_only_catalog_paths_are_documents(c.documents, target);
    law_only_catalog_paths_are_documents(c.documents, short);
    law_only_catalog_paths_are_documents(c.documents, long);
    lemma_extended_path(target, "md"@);
    lemma_extended_path(target, "markdown"@);
    law_names_without_extension(target.last());
    assert(path_extension(target) is None);
    assert(c.documents[d].id == d);
    lemma_extends(c.documents[d], target);
    let p = |x: DocumentView| is_extensionless(x, target);
    lemma_positions_hold(c.documents, p, d);
    let like = positions_extensionless(c.documents, target);
    assert(like.len() > 0);
    lemma_positions_where(c.documents, p, 0);
    let first = like[0] as int;
    assert(c.documents[first].id == first);
    lemma_extends(c.documents[first], target);
    let path = c.documents[d].path;
    assert(path =~= target.drop_last().push(path.last()));
    law_documents_are_found_under_their_paths(c, d);
}

} // verus!
