//! What holds of every reply.

use vstd::prelude::*;
use vstd::utf8::{decode_utf8, valid_utf8};
use crate::assembly::{document_title, found_document, is_catalog_of, WalkEntry};
use crate::catalog::{
    coherent, collections, document_at, grouped, landing_of, member_before, resolved_target,
    CatalogView,
};
use crate::catalog_laws::{
    law_a_walk_has_one_catalog, law_documents_are_files_of_the_walk,
    law_no_markdown_file_is_lost, law_only_catalog_paths_are_documents,
};
use crate::discovery::markdown_entry;
use crate::markdown::{kind_of, rewritten_link, AssetKind, ImageFormat};
use crate::pages::{
    collection_of, lemma_collection_of, navigation_beside, reader_content, shelf_content,
    shelf_entries,
};
use crate::pathing::{asset_address, document_address, encoded_path, missing_address, normalized};
use crate::pathing_laws::{law_encoded_paths_are_read_back, utf8_names};
use crate::paths::{no_nul, ordinary, written};
use crate::places::{lies_within, steps};
use crate::reading::lemma_chosen_is_listed;
use crate::server::{
    added_headers, asked_path, asset_header_texts, attachment_name, disposition, header_char,
    header_value, is_present, opened_document, quoted_name, requested_target, route_prefix,
    security_texts, HeaderText, Route, SVG_POLICY,
};
use crate::text::begins_with;
use crate::walk::{entry_path, sound, sound_step, WalkView};
use crate::walk_laws::{
    law_documents_are_found_under_their_paths, law_scanned_catalogs_are_coherent,
    lemma_names_of_utf8_path,
};

verus! {

/// Every reply has the headers that keep a page to itself: each is present already, or is added
/// with the value that it has where nothing else is set. None that is present is added.
pub proof fn law_every_reply_is_secured(present: Seq<String>, k: int)
    requires
        0 <= k < security_texts().len(),
    ensures
        is_present(present, security_texts()[k].name) || added_headers(present, 4).contains(
            security_texts()[k],
        ),
        forall|i: int|
            0 <= i < added_headers(present, 4).len() ==> !is_present(
                present,
                (#[trigger] added_headers(present, 4)[i]).name,
            ),
{
    lemma_added(present, 4, k);
}

proof fn lemma_added(present: Seq<String>, n: int, k: int)
    requires
        0 <= n <= 4,
        0 <= k < 4,
    ensures
        k < n ==> is_present(present, security_texts()[k].name) || added_headers(
            present,
            n,
        ).contains(security_texts()[k]),
        forall|i: int|
            0 <= i < added_headers(present, n).len() ==> !is_present(
                present,
                (#[trigger] added_headers(present, n)[i]).name,
            ),
    decreases n,
{
    if n > 0 {
        lemma_added(present, n - 1, k);
        let before = added_headers(present, n - 1);
        let last = security_texts()[n - 1];
        if !is_present(present, last.name) {
            let all = before.push(last);
            assert(all[before.len() as int] == last);
            if k < n - 1 && before.contains(security_texts()[k]) {
                let i = choose|i: int| 0 <= i < before.len() && before[i] == security_texts()[k];
                assert(all[i] == security_texts()[k]);
            }
            assert forall|i: int| 0 <= i < all.len() implies !is_present(
                present,
                (#[trigger] all[i]).name,
            ) by {
                if i < before.len() {
                    assert(all[i] == before[i]);
                }
            }
        }
    }
}

/// An SVG image is sandboxed, and the policy for pages does not take the place of the sandbox.
pub proof fn law_svg_images_stay_sandboxed(path: Seq<Seq<u8>>, present: Seq<String>)
    requires
        kind_of(path) == Some(AssetKind::Image(ImageFormat::Svg)),
        forall|i: int|
            0 <= i < asset_header_texts(path, kind_of(path)->0).len() ==> is_present(
                present,
                (#[trigger] asset_header_texts(path, kind_of(path)->0)[i]).name,
            ),
    ensures
        asset_header_texts(path, kind_of(path)->0).contains(
            HeaderText { name: "content-security-policy"@, value: SVG_POLICY@ },
        ),
        begins_with(SVG_POLICY@, "sandbox"@),
        forall|i: int|
            0 <= i < added_headers(present, 4).len() ==> (#[trigger] added_headers(
                present,
                4,
            )[i]).name != "content-security-policy"@,
{
    let texts = asset_header_texts(path, kind_of(path)->0);
    assert(texts[2].name == "content-security-policy"@);
    law_every_reply_is_secured(present, 1);
    reveal_strlit("sandbox");
    reveal_strlit("sandbox; default-src 'none'; style-src 'unsafe-inline'");
    assert(SVG_POLICY@.take(7) =~= "sandbox"@);
}

/// A PDF whose name holds no control is saved, not shown.
pub proof fn law_pdfs_are_downloads(path: Seq<Seq<u8>>)
    requires
        kind_of(path) == Some(AssetKind::Pdf),
        header_value(attachment_name(path)),
    ensures
        asset_header_texts(path, AssetKind::Pdf).contains(
            HeaderText { name: "content-disposition"@, value: disposition(path) },
        ),
        begins_with(disposition(path), "attachment;"@),
{
    reveal_strlit("attachment; filename=\"");
    reveal_strlit("\"");
    reveal_strlit("attachment;");
    let name = attachment_name(path);
    let value = disposition(path);
    let before = "attachment; filename=\""@;
    assert forall|i: int| 0 <= i < value.len() implies header_char(#[trigger] value[i]) by {
        if before.len() <= i < before.len() + name.len() {
            assert(value[i] == quoted_name(name)[i - before.len()]);
            assert(header_char(name[i - before.len()]));
        }
    }
    assert(value.take(11) =~= "attachment;"@);
    assert(asset_header_texts(path, AssetKind::Pdf)[2].value == value);
}

/// The shelf shows every collection, and nothing exactly where the library holds no document.
pub proof fn law_shelf_shows_every_collection(c: CatalogView)
    requires
        grouped(c),
    ensures
        shelf_entries(c).len() == collections(c),
        shelf_content(c).empty <==> c.documents.len() == 0,
{
    lemma_chosen_is_listed(c.documents, c.loose_documents, Seq::empty());
    if c.documents.len() > 0 {
        let own = c.documents[0].repository;
        assert(c.documents[0].id == 0);
        if own is None {
            assert(c.loose_documents.contains(0int as usize));
        }
    }
}

/// The navigation beside a document marks that document, and no other.
pub proof fn law_navigation_marks_one_document(c: CatalogView, current: int)
    requires
        grouped(c),
        0 <= current < c.documents.len(),
    ensures
        exists|i: int|
            0 <= i < navigation_beside(c, current).len() && (#[trigger] navigation_beside(
                c,
                current,
            )[i]).current,
        forall|i: int, j: int|
            0 <= i < navigation_beside(c, current).len() && 0 <= j < navigation_beside(
                c,
                current,
            ).len() && (#[trigger] navigation_beside(c, current)[i]).current && (
            #[trigger] navigation_beside(c, current)[j]).current ==> i == j,
{
    lemma_collection_of(c, current);
    let ids = collection_of(c, current);
    let entries = navigation_beside(c, current);
    let at = c.documents[current];
    assert(at.id == current);
    assert(ids.contains(current as usize));
    let i = choose|i: int| 0 <= i < ids.len() && ids[i] == current as usize;
    assert(c.documents[ids[i] as int].id == ids[i]);
    assert(entries[i].current);
    assert forall|i: int, j: int|
        0 <= i < entries.len() && 0 <= j < entries.len() && (#[trigger] entries[i]).current && (
        #[trigger] entries[j]).current implies i == j by {
        assert(c.documents[ids[i] as int].id == ids[i]);
        assert(c.documents[ids[j] as int].id == ids[j]);
        assert(ids[i] == ids[j]);
        let root = match at.repository {
            Some(r) => c.repositories[r as int].root,
            None => Seq::empty(),
        };
        let key = crate::reading::collection_key(c.documents[ids[i] as int], root);
        crate::order::lemma_key_order(key, key, key);
        if i < j {
            assert(member_before(c.documents, root, ids[i], ids[j]));
        } else if j < i {
            assert(member_before(c.documents, root, ids[j], ids[i]));
        }
    }
}

/// What lies within a directory that lies within another lies within that one, too.
pub proof fn law_confinement_is_transitive(a: Seq<u8>, b: Seq<u8>, root: Seq<u8>)
    requires
        lies_within(a, b),
        lies_within(b, root),
    ensures
        lies_within(a, root),
{
    let x = steps(a);
    let y = steps(b);
    let z = steps(root);
    assert(x.take(z.len() as int) =~= y.take(z.len() as int)) by {
        assert forall|i: int| 0 <= i < z.len() implies x[i] == y[i] by {
            assert(x.take(y.len() as int)[i] == y[i]);
        }
    }
}

/// Every address asks for the path that it was made of: what stands behind the prefix of its route
/// is read as that path.
pub proof fn law_addresses_ask_for_their_paths(path: Seq<Seq<u8>>)
    requires
        ordinary(path),
        utf8_names(path),
        no_nul(path),
    ensures
        asked_path(document_address(path), Route::Document) == Some(encoded_path(path)),
        asked_path(asset_address(path), Route::Asset) == Some(encoded_path(path)),
        asked_path(missing_address(path), Route::Missing) == Some(encoded_path(path)),
        normalized(Seq::empty(), encoded_path(path)) == Some(path),
{
    law_encoded_paths_are_read_back(Seq::empty(), path);
    assert(Seq::<Seq<u8>>::empty() + path =~= path);
    lemma_behind_prefix(route_prefix(Route::Document), encoded_path(path));
    lemma_behind_prefix(route_prefix(Route::Asset), encoded_path(path));
    lemma_behind_prefix(route_prefix(Route::Missing), encoded_path(path));
}

proof fn lemma_behind_prefix(prefix: Seq<char>, rest: Seq<char>)
    ensures
        begins_with(prefix + rest, prefix),
        (prefix + rest).skip(prefix.len() as int) == rest,
{
    assert((prefix + rest).take(prefix.len() as int) =~= prefix);
    assert((prefix + rest).skip(prefix.len() as int) =~= rest);
}

/// Every document is reached at its own address: the path that the address asks for is found as
/// that document, as a page and as the target of a link.
pub proof fn law_addresses_open_their_documents(c: CatalogView, d: int)
    requires
        coherent(c),
        0 <= d < c.documents.len(),
    ensures
        asked_path(document_address(c.documents[d].path), Route::Document) matches Some(asked)
            && normalized(Seq::empty(), asked) == Some(c.documents[d].path),
        document_at(c.documents, c.documents[d].path) == Some(d),
        resolved_target(c.documents, c.documents[d].path) == Some(d),
{
    assert(c.documents[d].id == d);
    lemma_names_of_utf8_path(c.documents[d].path);
    law_addresses_ask_for_their_paths(c.documents[d].path);
    law_documents_are_found_under_their_paths(c, d);
}

/// Every page of a library is reached at its own address, and is its own: the page of the document
/// at the path that the address asks for shows its title and its path.
pub proof fn law_catalogued_pages_are_reached(c: CatalogView, d: int, html: Seq<char>)
    requires
        coherent(c),
        0 <= d < c.documents.len(),
    ensures
        asked_path(document_address(c.documents[d].path), Route::Document) matches Some(asked)
            && normalized(Seq::empty(), asked) == Some(c.documents[d].path),
        document_at(c.documents, c.documents[d].path) == Some(d),
        reader_content(c, d, html).page_title == c.documents[d].title + " — mdfolio"@,
        reader_content(c, d, html).document_path == decode_utf8(written(c.documents[d].path)),
        reader_content(c, d, html).article_html == html,
{
    assert(c.documents[d].id == d);
    law_addresses_open_their_documents(c, d);
}

/// A reply depends on the library as it was walked for it, and on nothing before: two catalogs of
/// one walk open the same document at every path, show the same page with the same navigation and
/// the same links, send a missing target to the same place, and have the same shelf and landing.
pub proof fn law_replies_depend_on_the_walk_alone(
    a: CatalogView,
    b: CatalogView,
    root: Seq<u8>,
    walk: WalkView,
    path: Seq<char>,
    html: Seq<char>,
)
    requires
        is_catalog_of(a, root, walk.entries, walk.known),
        is_catalog_of(b, root, walk.entries, walk.known),
        walk.entries.len() <= usize::MAX,
    ensures
        a == b,
        opened_document(a, path) == opened_document(b, path),
        opened_document(a, path) matches Some(d) ==> reader_content(a, d, html) == reader_content(
            b,
            d,
            html,
        ),
        forall|directory: Seq<Seq<u8>>, url: Seq<char>| #[trigger]
            rewritten_link(a.documents, directory, url) == rewritten_link(
                b.documents,
                directory,
                url,
            ),
        requested_target(a, path) == requested_target(b, path),
        requested_target(a, path) matches Some(d) ==> a.documents[d].path == b.documents[d].path,
        landing_of(a) == landing_of(b),
        shelf_content(a) == shelf_content(b),
{
    law_a_walk_has_one_catalog(a, b, root, walk.entries, walk.known);
}

/// A page that the walk did not come to is not found, whatever was there before.
pub proof fn law_removed_pages_are_not_found(
    c: CatalogView,
    root: Seq<u8>,
    walk: WalkView,
    path: Seq<char>,
)
    requires
        is_catalog_of(c, root, walk.entries, walk.known),
        forall|i: int|
            0 <= i < walk.entries.len() && entry_path(#[trigger] walk.entries[i]) is Some
                ==> entry_path(walk.entries[i]) != normalized(Seq::empty(), path),
    ensures
        opened_document(c, path) is None,
{
    if let Some(target) = normalized(Seq::empty(), path) {
        law_only_catalog_paths_are_documents(c.documents, target);
        if let Some(d) = document_at(c.documents, target) {
            law_documents_are_files_of_the_walk(c, root, walk.entries, walk.known, d);
            let i = choose|i: int|
                0 <= i < walk.entries.len() && (#[trigger] walk.entries[i] matches WalkEntry::Entry {
                    kind,
                    path,
                    contents,
                } && markdown_entry(kind, path@) && path@ == c.documents[d].path
                    && c.documents[d].title == document_title(path@, contents));
            assert(entry_path(walk.entries[i]) == Some(target));
        }
    }
}

/// Every Markdown file that the walk came to, with a path that is UTF-8, is a page at its address,
/// under the title that it has now.
pub proof fn law_walked_pages_are_opened(c: CatalogView, root: Seq<u8>, walk: WalkView, i: int)
    requires
        is_catalog_of(c, root, walk.entries, walk.known),
        sound(walk),
        0 <= i < walk.entries.len(),
        entry_path(walk.entries[i]) matches Some(path) && valid_utf8(written(path)),
    ensures
        walk.entries[i] matches WalkEntry::Entry { kind, path, contents } && (opened_document(
            c,
            encoded_path(path@),
        ) matches Some(d) && 0 <= d < c.documents.len() && c.documents[d].path == path@
            && c.documents[d].title == document_title(path@, contents)),
{
    law_scanned_catalogs_are_coherent(c, root, walk);
    assert(sound_step(walk.entries[i], walk.known));
    law_no_markdown_file_is_lost(c, root, walk.entries, walk.known, i);
    let found = found_document(walk.entries[i], walk.known)->0;
    let d = choose|d: int|
        0 <= d < c.documents.len() && (#[trigger] c.documents[d]).path == found.path
            && c.documents[d].title == found.title;
    law_catalogued_pages_are_reached(c, d, Seq::empty());
    lemma_names_of_utf8_path(found.path);
    law_addresses_ask_for_their_paths(found.path);
}

} // verus!
