//! What holds of the links and images of every page.

use vstd::prelude::*;
use vstd::utf8::valid_utf8;
use crate::catalog::{coherent, resolved_target, CatalogView, DocumentView};
use crate::catalog_laws::law_exact_targets_stand_for_themselves;
use crate::markdown::{
    application_address, before_fragment, fragment_of, fragment_text, image_path, is_delimiter,
    kind_of, link_scheme, path_of, rewritten_image, rewritten_link, scheme_of, target_address,
    web_scheme,
};
use crate::pathing::{
    asset_address, document_address, encoded_byte, encoded_path, hex_digit, missing_address,
    normalized, percent_decoded, percent_encoded, url_names, APP_PREFIX,
};
use crate::pathing_laws::{
    law_encoded_paths_are_read_back, law_rooted_paths_are_read_back, utf8_names,
};
use crate::paths::{components, no_nul, ordinary, ordinary_name, slash};
use crate::text::{begins_with, is_char, joined, lemma_until_is};
use crate::walk_laws::{law_documents_are_found_under_their_paths, lemma_names_of_utf8_path};

verus! {

/// An address of the application has no scheme.
proof fn lemma_application_address(rest: Seq<char>)
    requires
        rest.len() == 0 || is_delimiter()(rest[0]),
    ensures
        application_address(APP_PREFIX@ + rest),
        scheme_of(APP_PREFIX@ + rest) is None,
        (APP_PREFIX@ + rest).len() > 0,
{
    reveal_strlit("/_mdfolio");
    let url = APP_PREFIX@ + rest;
    assert(url.take(APP_PREFIX@.len() as int) =~= APP_PREFIX@);
    assert(url[0] == '/');
    assert(is_delimiter()(url[0]));
}

proof fn lemma_target_address(documents: Seq<DocumentView>, target: Seq<Seq<u8>>, rest: Seq<char>)
    ensures
        application_address(target_address(documents, target) + rest),
        scheme_of(target_address(documents, target) + rest) is None,
{
    let address = target_address(documents, target);
    let kind = if resolved_target(documents, target) is Some {
        "/doc/"@ + encoded_path(documents[resolved_target(documents, target)->0].path)
    } else if kind_of(target) is Some {
        "/asset/"@ + encoded_path(target)
    } else {
        "/missing/"@ + encoded_path(target)
    };
    assert(address =~= APP_PREFIX@ + kind);
    assert(address + rest =~= APP_PREFIX@ + (kind + rest));
    reveal_strlit("/doc/");
    reveal_strlit("/asset/");
    reveal_strlit("/missing/");
    lemma_application_address(kind + rest);
}

proof fn lemma_asset_address(target: Seq<Seq<u8>>)
    ensures
        application_address(asset_address(target)),
        scheme_of(asset_address(target)) is None,
{
    reveal_strlit("/asset/");
    assert(asset_address(target) =~= APP_PREFIX@ + ("/asset/"@ + encoded_path(target)));
    lemma_application_address("/asset/"@ + encoded_path(target));
}

proof fn lemma_fragment(fragment: Seq<char>)
    ensures
        begins_with(seq!['#'] + fragment, "#"@),
        scheme_of(seq!['#'] + fragment) is None,
{
    reveal_strlit("#");
    let url = seq!['#'] + fragment;
    assert(url.take(1) =~= "#"@);
    assert(is_delimiter()(url[0]));
}

/// A link of a page leads to an address of the application, to a place in the page, to the web
/// or to mail, or nowhere. Whatever a page is written with, no other scheme is left in it.
pub proof fn law_links_stay_in_bounds(
    documents: Seq<DocumentView>,
    directory: Seq<Seq<u8>>,
    url: Seq<char>,
)
    ensures
        ({
            let link = rewritten_link(documents, directory, url);
            ||| link.len() == 0
            ||| application_address(link)
            ||| begins_with(link, "#"@)
            ||| scheme_of(link) matches Some(scheme) && link_scheme(scheme)
        }),
        scheme_of(rewritten_link(documents, directory, url)) matches Some(scheme) ==> link_scheme(
            scheme,
        ),
{
    let link = rewritten_link(documents, directory, url);
    let ending = fragment_text(fragment_of(url));
    if application_address(url) {
        assert(url =~= APP_PREFIX@ + url.skip(APP_PREFIX@.len() as int));
        lemma_application_address(url.skip(APP_PREFIX@.len() as int));
    } else if begins_with(url, "#"@) {
        reveal_strlit("#");
        assert(url =~= seq!['#'] + url.skip(1)) by {
            assert(url.take(1)[0] == url[0]);
        }
        lemma_fragment(url.skip(1));
    } else if scheme_of(url) is Some {
    } else if begins_with(url, "//"@) {
    } else if path_of(url).len() == 0 {
        if fragment_of(url) is Some {
            lemma_fragment(fragment_of(url)->0);
        }
    } else if normalized(directory, path_of(url)) is Some {
        lemma_target_address(documents, normalized(directory, path_of(url))->0, ending);
    }
}

/// An image of a page comes from what begins like an address of the application or from the web,
/// or is not shown.
pub proof fn law_images_stay_in_bounds(directory: Seq<Seq<u8>>, url: Seq<char>)
    ensures
        ({
            let image = rewritten_image(directory, url);
            ||| image.len() == 0
            ||| begins_with(image, APP_PREFIX@)
            ||| scheme_of(image) matches Some(scheme) && web_scheme(scheme)
        }),
        scheme_of(rewritten_image(directory, url)) matches Some(scheme) ==> web_scheme(scheme),
{
    if begins_with(url, APP_PREFIX@) {
        lemma_no_scheme_in_application(url);
    } else if normalized(directory, path_of(url)) is Some {
        lemma_asset_address(normalized(directory, path_of(url))->0);
    }
}

/// What begins like an address of the application has no scheme.
proof fn lemma_no_scheme_in_application(url: Seq<char>)
    requires
        begins_with(url, APP_PREFIX@),
    ensures
        scheme_of(url) is None,
{
    reveal_strlit("/_mdfolio");
    assert(url.take(APP_PREFIX@.len() as int)[0] == url[0]);
    lemma_no_scheme_at_slash(url);
}

/// A link or an image with any scheme but the ones that are allowed is taken out.
pub proof fn law_other_schemes_are_taken_out(
    documents: Seq<DocumentView>,
    directory: Seq<Seq<u8>>,
    url: Seq<char>,
)
    requires
        scheme_of(url) is Some,
    ensures
        !link_scheme(scheme_of(url)->0) ==> rewritten_link(documents, directory, url).len() == 0,
        !web_scheme(scheme_of(url)->0) ==> rewritten_image(directory, url).len() == 0,
{
    if begins_with(url, APP_PREFIX@) {
        lemma_no_scheme_in_application(url);
    }
    if begins_with(url, "#"@) {
        reveal_strlit("#");
        assert(url =~= seq!['#'] + url.skip(1)) by {
            assert(url.take(1)[0] == url[0]);
        }
        lemma_fragment(url.skip(1));
    }
}

/// A rewritten link is not rewritten again.
pub proof fn law_links_are_rewritten_once(
    documents: Seq<DocumentView>,
    directory: Seq<Seq<u8>>,
    url: Seq<char>,
)
    ensures
        ({
            let link = rewritten_link(documents, directory, url);
            rewritten_link(documents, directory, link) == link
        }),
{
    let link = rewritten_link(documents, directory, url);
    law_links_stay_in_bounds(documents, directory, url);
    if link.len() == 0 {
        lemma_empty_url(link);
        assert(!begins_with(link, "//"@)) by {
            reveal_strlit("//");
        }
    }
}

/// An image that is rewritten to an address is not rewritten again, and neither is one that is
/// not shown, unless the page lies in a directory that is itself named like an image.
pub proof fn law_images_are_rewritten_once(directory: Seq<Seq<u8>>, url: Seq<char>)
    requires
        rewritten_image(directory, url).len() > 0 || !image_path(directory),
    ensures
        ({
            let image = rewritten_image(directory, url);
            rewritten_image(directory, image) == image
        }),
{
    let image = rewritten_image(directory, url);
    law_images_stay_in_bounds(directory, url);
    if image.len() == 0 {
        lemma_empty_url(image);
        let bytes = vstd::utf8::encode_utf8(image);
        assert(bytes =~= Seq::empty());
        assert(percent_decoded(bytes) =~= Seq::empty());
        assert(components(percent_decoded(bytes)) =~= Seq::empty());
        assert(path_of(image) =~= image);
        assert(normalized(directory, path_of(image)) matches Some(target) ==> target == directory);
    }
}

proof fn lemma_empty_url(url: Seq<char>)
    requires
        url.len() == 0,
    ensures
        scheme_of(url) is None,
        fragment_of(url) is None,
        path_of(url).len() == 0,
        !application_address(url),
        !begins_with(url, "#"@),
{
    reveal_strlit("/_mdfolio");
    reveal_strlit("#");
    assert(before_fragment(url) =~= url);
}

/// Only an image or a PDF within the library gets the address of an asset.
pub proof fn law_only_assets_get_asset_addresses(
    documents: Seq<DocumentView>,
    directory: Seq<Seq<u8>>,
    url: Seq<char>,
)
    requires
        !application_address(url),
    ensures
        begins_with(rewritten_link(documents, directory, url), APP_PREFIX@ + "/asset/"@) ==> (
        normalized(directory, path_of(url)) matches Some(target) && kind_of(target) is Some
            && rewritten_link(documents, directory, url) == asset_address(target) + fragment_text(
            fragment_of(url),
        )),
        begins_with(rewritten_image(directory, url), APP_PREFIX@ + "/asset/"@) ==> (normalized(
            directory,
            path_of(url),
        ) matches Some(target) && image_path(target) && rewritten_image(directory, url)
            == asset_address(target)),
{
    reveal_strlit("/_mdfolio");
    reveal_strlit("/asset/");
    reveal_strlit("/doc/");
    reveal_strlit("/missing/");
    reveal_strlit("#");
    let asset = APP_PREFIX@ + "/asset/"@;
    let link = rewritten_link(documents, directory, url);
    if begins_with(link, asset) {
        assert(asset[0] == '/' && asset[10] == 'a');
        assert(link[0] == '/') by {
            assert(link.take(asset.len() as int)[0] == link[0]);
        }
        assert(link[10] == 'a') by {
            assert(link.take(asset.len() as int)[10] == link[10]);
        }
        lemma_no_scheme_at_slash(link);
        lemma_begins_like_an_asset(link);
        if path_of(url).len() == 0 && fragment_of(url) is Some {
            assert((seq!['#'] + fragment_of(url)->0)[0] == '#');
        }
        let target = normalized(directory, path_of(url))->0;
        if resolved_target(documents, target) is Some {
            let address = document_address(
                documents[resolved_target(documents, target)->0].path,
            );
            assert((address + fragment_text(fragment_of(url)))[10] == 'd');
        } else if kind_of(target) is None {
            assert((missing_address(target) + fragment_text(fragment_of(url)))[10] == 'm');
        }
    }
    let image = rewritten_image(directory, url);
    if begins_with(image, asset) {
        assert(image[0] == '/') by {
            assert(image.take(asset.len() as int)[0] == asset[0]);
        }
        lemma_no_scheme_at_slash(image);
        lemma_begins_like_an_asset(image);
        if begins_with(url, APP_PREFIX@) {
            assert(image == url);
        }
    }
}

/// What begins like the address of an asset is an address of the application.
proof fn lemma_begins_like_an_asset(url: Seq<char>)
    requires
        begins_with(url, APP_PREFIX@ + "/asset/"@),
    ensures
        application_address(url),
{
    reveal_strlit("/_mdfolio");
    reveal_strlit("/asset/");
    let asset = APP_PREFIX@ + "/asset/"@;
    assert(url.take(asset.len() as int).take(APP_PREFIX@.len() as int) =~= url.take(
        APP_PREFIX@.len() as int,
    ));
    assert(asset.take(APP_PREFIX@.len() as int) =~= APP_PREFIX@);
    assert(url.take(asset.len() as int)[9] == asset[9]);
    assert(is_delimiter()(url[9]));
}

proof fn lemma_no_scheme_at_slash(url: Seq<char>)
    requires
        url.len() > 0,
        url[0] == '/',
    ensures
        scheme_of(url) is None,
        !begins_with(url, "#"@),
{
    reveal_strlit("#");
    assert(is_delimiter()(url[0]));
    if begins_with(url, "#"@) {
        assert(url.take(1)[0] == url[0]);
    }
}

/// Whether a mark ends the path of a URL.
spec fn ends_path(c: char) -> bool {
    c == '#' || c == '?'
}

proof fn lemma_encoded_bytes_are_path(bytes: Seq<u8>)
    ensures
        forall|i: int|
            0 <= i < percent_encoded(bytes).len() ==> !ends_path(#[trigger] percent_encoded(bytes)[i]),
    decreases bytes.len(),
{
    if bytes.len() > 0 {
        let rest = percent_encoded(bytes.drop_first());
        let head = encoded_byte(bytes[0]);
        lemma_encoded_bytes_are_path(bytes.drop_first());
        assert forall|i: int| 0 <= i < head.len() implies !ends_path(#[trigger] head[i]) by {
            let high = bytes[0] as int / 16;
            let low = bytes[0] as int % 16;
            assert(hex_digit(high) != '#' && hex_digit(high) != '?');
            assert(hex_digit(low) != '#' && hex_digit(low) != '?');
        }
        assert forall|i: int| 0 <= i < (head + rest).len() implies !ends_path(
            #[trigger] (head + rest)[i],
        ) by {
            if i < head.len() {
                assert(!ends_path(head[i]));
            } else {
                assert(!ends_path(rest[i - head.len()]));
            }
        }
    }
}

/// Where no part holds the end of a path, neither do the parts joined by slashes.
proof fn lemma_joined_is_path(parts: Seq<Seq<char>>)
    requires
        forall|k: int, i: int|
            0 <= k < parts.len() && 0 <= i < parts[k].len() ==> !ends_path(#[trigger] parts[k][i]),
    ensures
        forall|i: int|
            0 <= i < joined(parts, seq!['/']).len() ==> !ends_path(
                #[trigger] joined(parts, seq!['/'])[i],
            ),
    decreases parts.len(),
{
    let all = joined(parts, seq!['/']);
    if parts.len() == 1 {
        assert forall|i: int| 0 <= i < all.len() implies !ends_path(#[trigger] all[i]) by {
            assert(!ends_path(parts[0][i]));
        }
    } else if parts.len() > 1 {
        let before = parts.drop_last();
        assert forall|k: int, i: int| 0 <= k < before.len() && 0 <= i < before[k].len() implies
            !ends_path(#[trigger] before[k][i]) by {
            assert(!ends_path(parts[k][i]));
        }
        lemma_joined_is_path(before);
        let head = joined(before, seq!['/']);
        let last = parts.last();
        assert forall|i: int| 0 <= i < all.len() implies !ends_path(#[trigger] all[i]) by {
            if i < head.len() {
                assert(all[i] == head[i]);
            } else if i == head.len() {
                assert(all[i] == '/');
            } else {
                assert(all[i] == parts[parts.len() - 1][i - head.len() - 1]);
            }
        }
    }
}

/// The names of a path in a URL hold no end of a path.
proof fn lemma_url_names_are_path(path: Seq<Seq<u8>>)
    ensures
        forall|k: int, i: int|
            0 <= k < url_names(path).len() && 0 <= i < url_names(path)[k].len() ==> !ends_path(
                #[trigger] url_names(path)[k][i],
            ),
    decreases path.len(),
{
    if path.len() > 0 {
        lemma_url_names_are_path(path.drop_last());
        lemma_encoded_bytes_are_path(path.last());
        let before = url_names(path.drop_last());
        let all = url_names(path);
        assert forall|k: int, i: int| 0 <= k < all.len() && 0 <= i < all[k].len() implies
            !ends_path(#[trigger] all[k][i]) by {
            if k < before.len() {
                assert(all[k] == before[k]);
                assert(!ends_path(before[k][i]));
            } else {
                assert(all[k] == percent_encoded(path.last()));
            }
        }
    }
}

/// The address of a target has no fragment of its own.
proof fn lemma_address_has_no_fragment(documents: Seq<DocumentView>, target: Seq<Seq<u8>>)
    ensures
        forall|i: int|
            0 <= i < target_address(documents, target).len() ==> !is_char('#')(
                #[trigger] target_address(documents, target)[i],
            ),
{
    reveal_strlit("/_mdfolio");
    reveal_strlit("/doc/");
    reveal_strlit("/asset/");
    reveal_strlit("/missing/");
    let path = if resolved_target(documents, target) is Some {
        documents[resolved_target(documents, target)->0].path
    } else {
        target
    };
    let kind = if resolved_target(documents, target) is Some {
        "/doc/"@
    } else if kind_of(target) is Some {
        "/asset/"@
    } else {
        "/missing/"@
    };
    let start = APP_PREFIX@ + kind;
    let all = target_address(documents, target);
    assert(all == start + encoded_path(path));
    lemma_url_names_are_path(path);
    lemma_joined_is_path(url_names(path));
    assert forall|i: int| 0 <= i < all.len() implies !is_char('#')(#[trigger] all[i]) by {
        if i >= start.len() {
            assert(all[i] == encoded_path(path)[i - start.len()]);
            assert(!ends_path(encoded_path(path)[i - start.len()]));
        } else if i >= APP_PREFIX@.len() {
            assert(all[i] == kind[i - APP_PREFIX@.len()]);
        } else {
            assert(all[i] == APP_PREFIX@[i]);
        }
    }
}

/// A link that leads somewhere keeps its fragment, and gets none that it did not have.
pub proof fn law_links_keep_their_fragments(
    documents: Seq<DocumentView>,
    directory: Seq<Seq<u8>>,
    url: Seq<char>,
)
    ensures
        rewritten_link(documents, directory, url).len() > 0 ==> fragment_of(
            rewritten_link(documents, directory, url),
        ) == fragment_of(url),
{
    let link = rewritten_link(documents, directory, url);
    let ending = fragment_text(fragment_of(url));
    if link.len() > 0 && link != url {
        if path_of(url).len() == 0 {
            assert(is_char('#')(link[0]));
            lemma_until_is(link, is_char('#'), 0);
            assert(link.skip(1) =~= fragment_of(url)->0);
        } else {
            let address = target_address(documents, normalized(directory, path_of(url))->0);
            lemma_address_has_no_fragment(documents, normalized(directory, path_of(url))->0);
            assert(link == address + ending);
            assert forall|i: int| 0 <= i < address.len() implies !is_char('#')(
                #[trigger] link[i],
            ) by {
                assert(!is_char('#')(address[i]));
            }
            match fragment_of(url) {
                Some(fragment) => {
                    assert(link[address.len() as int] == '#');
                    lemma_until_is(link, is_char('#'), address.len());
                    assert(link.skip(address.len() as int + 1) =~= fragment);
                },
                None => {
                    assert(link.len() == address.len());
                    lemma_until_is(link, is_char('#'), link.len());
                },
            }
        }
    }
}

proof fn lemma_encoded_path_is_path(path: Seq<Seq<u8>>)
    requires
        ordinary(path),
        utf8_names(path),
        path.len() > 0,
    ensures
        encoded_path(path).len() > 0,
        encoded_path(path)[0] != '/',
        forall|i: int|
            0 <= i < encoded_path(path).len() ==> !ends_path(#[trigger] encoded_path(path)[i]),
        url_names(path).len() == path.len(),
    decreases path.len(),
{
    lemma_url_names_are_path(path);
    lemma_joined_is_path(url_names(path));
    let name = percent_encoded(path.last());
    assert(ordinary_name(path.last()));
    let before = path.drop_last();
    assert(url_names(path) == url_names(before).push(name));
    assert(url_names(path).drop_last() =~= url_names(before));
    let first = path.last()[0];
    assert(encoded_byte(first).len() > 0 && encoded_byte(first)[0] != '/') by {
        if first == slash() {
            assert(path.last().contains(slash()));
        }
    }
    assert(name.len() > 0 && name[0] == encoded_byte(first)[0]);
    if before.len() == 0 {
        assert(url_names(before) =~= Seq::empty());
        assert(encoded_path(path) == name);
    } else {
        assert(ordinary(before)) by {
            assert forall|i: int| 0 <= i < before.len() implies ordinary_name(#[trigger] before[i]) by {
                assert(before[i] == path[i]);
            }
        }
        assert(utf8_names(before)) by {
            assert forall|i: int| 0 <= i < before.len() implies valid_utf8(#[trigger] before[i]) by {
                assert(before[i] == path[i]);
            }
        }
        lemma_encoded_path_is_path(before);
        let head = encoded_path(before) + seq!['/'];
        assert(encoded_path(path) == head + name);
    }
}

/// A link without scheme, query and fragment leads to the document that its path stands for.
proof fn lemma_link_to_document(
    documents: Seq<DocumentView>,
    directory: Seq<Seq<u8>>,
    url: Seq<char>,
    d: int,
)
    requires
        0 <= d < documents.len(),
        forall|e: int| 0 <= e < documents.len() && e != d ==> (#[trigger] documents[e]).path
            != documents[d].path,
        url.len() > 0,
        forall|i: int| 0 <= i < url.len() ==> !ends_path(#[trigger] url[i]),
        scheme_of(url) is None,
        !application_address(url),
        !begins_with(url, "//"@),
        normalized(directory, url) == Some(documents[d].path),
    ensures
        rewritten_link(documents, directory, url) == document_address(documents[d].path),
{
    reveal_strlit("#");
    assert(!begins_with(url, "#"@)) by {
        if begins_with(url, "#"@) {
            assert(url.take(1)[0] == url[0]);
            assert(ends_path(url[0]));
        }
    }
    assert forall|i: int| 0 <= i < url.len() implies !is_char('#')(#[trigger] url[i]) && !is_char(
        '?',
    )(url[i]) by {
        assert(!ends_path(url[i]));
    }
    lemma_until_is(url, is_char('#'), url.len());
    assert(before_fragment(url) =~= url);
    lemma_until_is(url, is_char('?'), url.len());
    assert(path_of(url) =~= url);
    law_exact_targets_stand_for_themselves(documents, d);
    assert(document_address(documents[d].path) + fragment_text(fragment_of(url))
        =~= document_address(documents[d].path));
}

/// The path of a document has names, and they are as names of files are.
proof fn lemma_document_names(c: CatalogView, d: int)
    requires
        coherent(c),
        0 <= d < c.documents.len(),
    ensures
        c.documents[d].path.len() > 0,
        ordinary(c.documents[d].path),
        utf8_names(c.documents[d].path),
        no_nul(c.documents[d].path),
{
    assert(c.documents[d].id == d);
    lemma_names_of_utf8_path(c.documents[d].path);
}

/// A link to a document by its path, written as a URL and seen from the page's directory, leads
/// to that document. A path whose encoded form begins with a scheme is read as one instead.
pub proof fn law_links_find_documents(
    c: CatalogView,
    directory: Seq<Seq<u8>>,
    path: Seq<Seq<u8>>,
    d: int,
)
    requires
        coherent(c),
        0 <= d < c.documents.len(),
        c.documents[d].path == directory + path,
        path.len() > 0,
        scheme_of(encoded_path(path)) is None,
    ensures
        rewritten_link(c.documents, directory, encoded_path(path)) == document_address(
            c.documents[d].path,
        ),
{
    let documents = c.documents;
    law_documents_are_found_under_their_paths(c, d);
    lemma_document_names(c, d);
    assert forall|i: int| 0 <= i < path.len() implies ordinary_name(#[trigger] path[i])
        && valid_utf8(path[i]) && !path[i].contains(0) by {
        assert(documents[d].path[directory.len() + i] == path[i]);
    }
    let url = encoded_path(path);
    lemma_encoded_path_is_path(path);
    reveal_strlit("/_mdfolio");
    reveal_strlit("//");
    assert(!application_address(url)) by {
        if application_address(url) {
            assert(url.take(APP_PREFIX@.len() as int)[0] == url[0]);
        }
    }
    assert(!begins_with(url, "//"@)) by {
        if begins_with(url, "//"@) {
            assert(url.take(2)[0] == url[0]);
        }
    }
    law_encoded_paths_are_read_back(directory, path);
    lemma_link_to_document(documents, directory, url, d);
}

/// A link to a document by its path from the library root, written as a URL behind a slash, leads
/// to that document from every page. Only where it spells an address of the application, as it
/// does for a document in a directory named `_mdfolio`, is it taken for that address.
pub proof fn law_rooted_links_find_documents(c: CatalogView, directory: Seq<Seq<u8>>, d: int)
    requires
        coherent(c),
        0 <= d < c.documents.len(),
        !application_address(seq!['/'] + encoded_path(c.documents[d].path)),
    ensures
        rewritten_link(c.documents, directory, seq!['/'] + encoded_path(c.documents[d].path))
            == document_address(c.documents[d].path),
{
    let documents = c.documents;
    law_documents_are_found_under_their_paths(c, d);
    lemma_document_names(c, d);
    let path = documents[d].path;
    let tail = encoded_path(path);
    let url = seq!['/'] + tail;
    lemma_encoded_path_is_path(path);
    lemma_no_scheme_at_slash(url);
    reveal_strlit("//");
    assert(!begins_with(url, "//"@)) by {
        if begins_with(url, "//"@) {
            assert(url.take(2)[1] == url[1]);
            assert(url[1] == tail[0]);
        }
    }
    assert forall|i: int| 0 <= i < url.len() implies !ends_path(#[trigger] url[i]) by {
        if i > 0 {
            assert(url[i] == tail[i - 1]);
            assert(!ends_path(tail[i - 1]));
        }
    }
    law_rooted_paths_are_read_back(directory, path);
    lemma_link_to_document(documents, directory, url, d);
}

} // verus!
