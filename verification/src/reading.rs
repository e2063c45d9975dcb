//! The order in which the documents of a collection are read, and the one it opens with.

use vstd::prelude::*;
use vstd::utf8::encode_utf8;
use crate::catalog::{document_views, Document, DocumentId, DocumentView};
use crate::discovery::{spells, spells_word};
use crate::order::{key_before, lemma_key_order, SortKey, SortKeyView};
use crate::paths::{relative_to, shown, stem_of, written, LibraryPath};
use crate::text::{ascii_lowercase, bytes_eq, lower_text};

verus! {

broadcast use vstd::string::group_string_axioms;

/// What paths are sorted by: the path as it is shown, in lower case.
pub open spec fn path_key(path: Seq<Seq<u8>>) -> Seq<char> {
    lower_text(shown(written(path)))
}

/// How early a document is read in its collection: a root README first, then a root index, then
/// the rest. An exact `README.md` or `index.md` comes before its variants.
pub open spec fn reading_priority(path: Seq<Seq<u8>>) -> nat {
    if path.len() != 1 {
        4
    } else if path[0] == encode_utf8("README.md"@) {
        0
    } else if spells(stem_of(path[0]), "readme"@) {
        1
    } else if path[0] == encode_utf8("index.md"@) {
        2
    } else if spells(stem_of(path[0]), "index"@) {
        3
    } else {
        4
    }
}

/// The reading order of a collection: by priority, then by depth, then by path.
pub open spec fn default_key(path: Seq<Seq<u8>>) -> SortKeyView {
    SortKeyView { priority: reading_priority(path), depth: path.len(), text: path_key(path) }
}

/// What paths are sorted by.
pub fn path_sort_key(path: &LibraryPath) -> (res: String)
    ensures
        res@ == path_key(path@),
{
    ascii_lowercase(path.to_text().as_str())
}

/// What the documents of a collection are sorted by.
pub fn default_document_sort_key(path: &LibraryPath) -> (res: SortKey)
    ensures
        res@ == default_key(path@),
{
    let priority: u8 = if path.len() != 1 {
        4
    } else {
        let name: &[u8] = path.name(0);
        let stem: &[u8] = match path.file_stem() {
            Some(stem) => stem,
            None => name,
        };
        if bytes_eq(name, "README.md".as_bytes()) {
            0
        } else if spells_word(stem, "readme") {
            1
        } else if bytes_eq(name, "index.md".as_bytes()) {
            2
        } else if spells_word(stem, "index") {
            3
        } else {
            4
        }
    };
    SortKey { priority, depth: path.len(), text: path_sort_key(path) }
}

/// The place of a document in a collection with the given root.
pub open spec fn collection_key(document: DocumentView, root: Seq<Seq<u8>>) -> SortKeyView {
    default_key(relative_to(document.path, root))
}

/// The keys of some documents in a collection.
pub open spec fn collection_keys(
    documents: Seq<DocumentView>,
    ids: Seq<usize>,
    root: Seq<Seq<u8>>,
) -> Seq<SortKeyView> {
    Seq::new(ids.len(), |i: int| collection_key(documents[ids[i] as int], root))
}

/// Whether item `k` has the least key, and is the first that has it.
pub open spec fn is_first_least(keys: Seq<SortKeyView>, k: int) -> bool {
    &&& 0 <= k < keys.len()
    &&& forall|j: int| 0 <= j < keys.len() ==> !key_before(#[trigger] keys[j], keys[k])
    &&& forall|j: int| 0 <= j < k ==> key_before(keys[k], #[trigger] keys[j])
}

/// The first of the items with the least key.
pub open spec fn first_least(keys: Seq<SortKeyView>) -> int {
    choose|k: int| is_first_least(keys, k)
}

/// Only one item is the first with the least key.
pub proof fn lemma_first_least_is(keys: Seq<SortKeyView>, k: int)
    requires
        is_first_least(keys, k),
    ensures
        first_least(keys) == k,
{
    let r = first_least(keys);
    assert(is_first_least(keys, r));
    if r < k {
        assert(key_before(keys[k], keys[r]));
    }
    if k < r {
        assert(key_before(keys[r], keys[k]));
    }
}

/// The document that a collection opens with: the first in reading order.
pub open spec fn chosen_document(
    documents: Seq<DocumentView>,
    ids: Seq<usize>,
    root: Seq<Seq<u8>>,
) -> Option<usize> {
    if ids.len() == 0 {
        None
    } else {
        Some(ids[first_least(collection_keys(documents, ids, root))])
    }
}

/// The document that a collection opens with.
pub fn choose_default_document(
    documents: &[Document],
    ids: &[DocumentId],
    collection_root: &LibraryPath,
) -> (res: Option<DocumentId>)
    requires
        forall|i: int| 0 <= i < ids@.len() ==> #[trigger] ids@[i] < documents@.len(),
    ensures
        res == chosen_document(document_views(documents@), ids@, collection_root@),
{
    if ids.len() == 0 {
        return None;
    }
    let ghost views = document_views(documents@);
    let ghost keys = collection_keys(views, ids@, collection_root@);
    let mut best: usize = 0;
    let mut best_key: SortKey = default_document_sort_key(
        &documents[ids[0]].relative_path.relative_to(collection_root),
    );
    let mut i: usize = 1;
    proof {
        assert(views[ids@[0] as int] == documents@[ids@[0] as int]@);
        lemma_key_order(keys[0], keys[0], keys[0]);
    }
    while i < ids.len()
        invariant
            forall|j: int| 0 <= j < ids@.len() ==> #[trigger] ids@[j] < documents@.len(),
            views == document_views(documents@),
            keys == collection_keys(views, ids@, collection_root@),
            best < i <= ids@.len(),
            best_key@ == keys[best as int],
            forall|j: int| 0 <= j < i ==> !key_before(#[trigger] keys[j], keys[best as int]),
            forall|j: int| 0 <= j < best ==> key_before(keys[best as int], #[trigger] keys[j]),
        decreases ids@.len() - i,
    {
        let key: SortKey = default_document_sort_key(
            &documents[ids[i]].relative_path.relative_to(collection_root),
        );
        assert(views[ids@[i as int] as int] == documents@[ids@[i as int] as int]@);
        assert(key@ == keys[i as int]);
        if key.precedes(&best_key) {
            proof {
                let x = keys[i as int];
                let b = keys[best as int];
                assert forall|j: int| 0 <= j < i implies key_before(x, #[trigger] keys[j]) by {
                    lemma_key_order(keys[j], b, x);
                    lemma_key_order(x, b, keys[j]);
                }
                assert forall|j: int| 0 <= j < i + 1 implies !key_before(#[trigger] keys[j], x) by {
                    lemma_key_order(x, keys[j], x);
                    lemma_key_order(x, x, x);
                }
            }
            best = i;
            best_key = key;
        }
        i += 1;
    }
    proof {
        lemma_first_least_is(keys, best as int);
    }
    Some(ids[best])
}


/// A list that is not empty has a first item with the least key.
pub proof fn lemma_first_least_exists(keys: Seq<SortKeyView>)
    requires
        keys.len() > 0,
    ensures
        is_first_least(keys, first_least(keys)),
    decreases keys.len(),
{
    let last = keys.len() - 1;
    if last == 0 {
        lemma_key_order(keys[0], keys[0], keys[0]);
        assert(is_first_least(keys, 0));
    } else {
        let before = keys.drop_last();
        lemma_first_least_exists(before);
        let b = first_least(before);
        assert(forall|j: int| 0 <= j < before.len() ==> before[j] == keys[j]);
        assert(keys[b] == before[b]);
        if key_before(keys[last], keys[b]) {
            assert forall|j: int| 0 <= j < last implies key_before(keys[last], #[trigger] keys[j]) by {
                assert(!key_before(before[j], before[b]));
                lemma_key_order(keys[j], keys[b], keys[last]);
                lemma_key_order(keys[last], keys[b], keys[j]);
            }
            assert forall|j: int| 0 <= j < keys.len() implies !key_before(
                #[trigger] keys[j],
                keys[last],
            ) by {
                lemma_key_order(keys[last], keys[j], keys[last]);
            }
            assert(is_first_least(keys, last));
        } else {
            assert forall|j: int| 0 <= j < keys.len() implies !key_before(
                #[trigger] keys[j],
                keys[b],
            ) by {
                if j < last {
                    assert(!key_before(before[j], before[b]));
                }
            }
            assert forall|j: int| 0 <= j < b implies key_before(keys[b], #[trigger] keys[j]) by {
                assert(key_before(before[b], before[j]));
            }
            assert(is_first_least(keys, b));
        }
    }
}

/// The chosen document is one of those listed.
pub proof fn lemma_chosen_is_listed(
    documents: Seq<DocumentView>,
    ids: Seq<usize>,
    root: Seq<Seq<u8>>,
)
    ensures
        chosen_document(documents, ids, root) is Some <==> ids.len() > 0,
        chosen_document(documents, ids, root) matches Some(id) ==> ids.contains(id) && is_first_least(
            collection_keys(documents, ids, root),
            first_least(collection_keys(documents, ids, root)),
        ),
{
    if ids.len() > 0 {
        let keys = collection_keys(documents, ids, root);
        lemma_first_least_exists(keys);
        assert(ids[first_least(keys)] == chosen_document(documents, ids, root)->0);
    }
}

} // verus!
