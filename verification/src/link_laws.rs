//! What holds of links and images, said of the URLs that are written.

use vstd::prelude::*;
use vstd::utf8::{encode_utf8, valid_utf8};
use crate::catalog::{resolved_target, DocumentView};
use crate::markdown::{
    application_address, before_fragment, filtered_attribute, fragment_of, fragment_text,
    image_path, is_delimiter, kind_of, link_scheme, media_type, path_of, pdf_path, rewritten_image,
    rewritten_link, scheme_of, scheme_text, target_address, web_scheme, AssetKind, ImageFormat,
};
use crate::pathing::{
    asset_address, document_address, encoded_byte, encoded_path, escape, hex_value, missing_address,
    normalized, percent_decoded, percent_encoded, url_names, walked, APP_PREFIX,
};
use crate::pathing_laws::{lemma_encode_concat, utf8_names};
use crate::paths::{above, components, here, is_slash, path_extension, slash};
use crate::text::{
    begins_with, is_char, lemma_field_alone, lemma_fields_at_separator, lemma_until, lemma_until_is,
    until,
};
use crate::walk_laws::lemma_split_at_slash;
use crate::word_laws::{
    ascii_bytes, either_case, in_any_case, law_names_are_split_at_their_last_dot, law_spelling_ignores_case,
    law_words_ignore_case, lemma_ascii_bytes, small_word, text_in_any_case,
};

verus! {

// ---------------------------------------------------------------------------
// Schemes
// ---------------------------------------------------------------------------

/// Whether text is the scheme of web pages, or that of web pages that are encrypted.
pub open spec fn of_the_web(scheme: Seq<char>) -> bool {
    text_in_any_case(scheme, seq!['h', 't', 't', 'p']) || text_in_any_case(
        scheme,
        seq!['h', 't', 't', 'p', 's'],
    )
}

/// Whether text is the scheme of mail.
pub open spec fn of_mail(scheme: Seq<char>) -> bool {
    text_in_any_case(scheme, seq!['m', 'a', 'i', 'l', 't', 'o'])
}

/// Whether text is written as a scheme is: an ASCII letter, and then ASCII letters, digits, plus
/// signs, hyphens and points.
pub open spec fn written_as_scheme(scheme: Seq<char>) -> bool {
    &&& scheme.len() > 0
    &&& ('a' <= scheme[0] <= 'z' || 'A' <= scheme[0] <= 'Z')
    &&& forall|i: int|
        0 <= i < scheme.len() ==> ('a' <= #[trigger] scheme[i] <= 'z' || 'A' <= scheme[i] <= 'Z'
            || '0' <= scheme[i] <= '9' || scheme[i] == '+' || scheme[i] == '-' || scheme[i] == '.')
}

proof fn lemma_scheme(scheme: Seq<char>, rest: Seq<char>)
    requires
        written_as_scheme(scheme),
    ensures
        scheme_of(scheme + seq![':'] + rest) == Some(scheme),
        !begins_with(scheme + seq![':'] + rest, APP_PREFIX@),
        !begins_with(scheme + seq![':'] + rest, "#"@),
        web_scheme(scheme) == of_the_web(scheme),
        link_scheme(scheme) == (of_the_web(scheme) || of_mail(scheme)),
{
    let url = scheme + seq![':'] + rest;
    reveal_strlit("/_mdfolio");
    reveal_strlit("#");
    reveal_strlit("http");
    reveal_strlit("https");
    reveal_strlit("mailto");
    assert("http"@ =~= seq!['h', 't', 't', 'p']);
    assert("https"@ =~= seq!['h', 't', 't', 'p', 's']);
    assert("mailto"@ =~= seq!['m', 'a', 'i', 'l', 't', 'o']);
    law_words_ignore_case(scheme, "http"@);
    law_words_ignore_case(scheme, "https"@);
    law_words_ignore_case(scheme, "mailto"@);
    let n = scheme.len();
    assert forall|i: int| 0 <= i < n implies !is_char(':')(#[trigger] url[i]) && !is_delimiter()(
        url[i],
    ) by {
        assert(url[i] == scheme[i]);
    }
    assert(is_char(':')(url[n as int]));
    lemma_until_is(url, is_char(':'), n);
    lemma_until(url, is_delimiter());
    let k = until(url, is_delimiter());
    if k <= n {
        assert(k < url.len());
        assert(is_delimiter()(url[k as int]));
        if k == n {
            assert(url[n as int] == ':');
        }
    }
    assert(url.take(n as int) =~= scheme);
    assert(scheme_text(scheme));
    assert(url[0] == scheme[0]);
    if begins_with(url, APP_PREFIX@) {
        assert(url.take(APP_PREFIX@.len() as int)[0] == url[0]);
    }
    if begins_with(url, "#"@) {
        assert(url.take(1)[0] == url[0]);
    }
}

/// Links to the web and to mail, with the scheme `http`, `https` or `mailto` in any case, stay as
/// they are, and links with any other scheme lead nowhere. Images on the web stay as they are, and
/// images with any other scheme are not shown.
pub proof fn law_links_to_the_web_and_to_mail_stay(
    documents: Seq<DocumentView>,
    directory: Seq<Seq<u8>>,
    scheme: Seq<char>,
    rest: Seq<char>,
)
    requires
        written_as_scheme(scheme),
    ensures
        ({
            let url = scheme + seq![':'] + rest;
            &&& of_the_web(scheme) || of_mail(scheme) ==> rewritten_link(documents, directory, url)
                == url
            &&& !of_the_web(scheme) && !of_mail(scheme) ==> rewritten_link(
                documents,
                directory,
                url,
            ).len() == 0
            &&& of_the_web(scheme) ==> rewritten_image(directory, url) == url
            &&& !of_the_web(scheme) ==> rewritten_image(directory, url).len() == 0
        }),
{
    lemma_scheme(scheme, rest);
}

/// The scheme of a URL is what stands before its first colon, where that is written as a scheme; a
/// URL has none where nothing before a colon is.
pub proof fn law_schemes_stand_before_the_colon(scheme: Seq<char>, rest: Seq<char>, url: Seq<char>)
    ensures
        written_as_scheme(scheme) ==> scheme_of(scheme + seq![':'] + rest) == Some(scheme),
        (forall|i: int|
            0 <= i < url.len() && #[trigger] url[i] == ':' ==> !written_as_scheme(url.take(i)))
            ==> scheme_of(url) is None,
{
    if written_as_scheme(scheme) {
        lemma_scheme(scheme, rest);
    }
    lemma_until(url, is_char(':'));
    let k = until(url, is_char(':')) as int;
    if k < url.len() {
        assert(url[k] == ':');
        assert(scheme_text(url.take(k)) ==> written_as_scheme(url.take(k)));
    }
}

/// The fragment of a URL is what follows its first number sign.
pub proof fn law_fragments_follow_the_first_sign(head: Seq<char>, fragment: Seq<char>)
    requires
        forall|i: int| 0 <= i < head.len() ==> #[trigger] head[i] != '#',
    ensures
        before_fragment(head) == head,
        fragment_of(head) is None,
        before_fragment(head + seq!['#'] + fragment) == head,
        fragment_of(head + seq!['#'] + fragment) == Some(fragment),
{
    let url = head + seq!['#'] + fragment;
    assert forall|i: int| 0 <= i < head.len() implies !is_char('#')(#[trigger] head[i]) && url[i]
        == head[i] by {}
    assert(url[head.len() as int] == '#');
    lemma_until_is(head, is_char('#'), head.len());
    lemma_until_is(url, is_char('#'), head.len());
    assert(head.take(head.len() as int) =~= head);
    assert(url.take(head.len() as int) =~= head);
    assert(url.skip(head.len() as int + 1) =~= fragment);
}

/// A URL that names a host without a scheme leads nowhere, and shows no image.
pub proof fn law_hosts_without_scheme_are_taken_out(
    documents: Seq<DocumentView>,
    directory: Seq<Seq<u8>>,
    rest: Seq<char>,
)
    ensures
        rewritten_link(documents, directory, seq!['/', '/'] + rest).len() == 0,
        rewritten_image(directory, seq!['/', '/'] + rest).len() == 0,
{
    let url = seq!['/', '/'] + rest;
    reveal_strlit("/_mdfolio");
    reveal_strlit("#");
    reveal_strlit("//");
    assert(url.take(2) =~= "//"@);
    lemma_rooted(url);
    if begins_with(url, APP_PREFIX@) {
        assert(url.take(APP_PREFIX@.len() as int)[1] == url[1]);
    }
}

proof fn lemma_rooted(url: Seq<char>)
    requires
        url.len() > 0,
        url[0] == '/',
    ensures
        scheme_of(url) is None,
        !begins_with(url, "#"@),
{
    reveal_strlit("#");
    assert(is_delimiter()(url[0]));
    lemma_until_is(url, is_delimiter(), 0);
    if begins_with(url, "#"@) {
        assert(url.take(1)[0] == url[0]);
    }
}

/// A link to a place in the page stays as it is, and so does a link to an address of the
/// application: `/_mdfolio`, alone or with a path, a query or a fragment. An image that begins like
/// one stays as it is, too.
pub proof fn law_places_and_application_addresses_stay(
    documents: Seq<DocumentView>,
    directory: Seq<Seq<u8>>,
    rest: Seq<char>,
)
    ensures
        rewritten_link(documents, directory, seq!['#'] + rest) == seq!['#'] + rest,
        ({
            let url = seq!['/', '_', 'm', 'd', 'f', 'o', 'l', 'i', 'o'] + rest;
            &&& rest.len() == 0 || rest[0] == '/' || rest[0] == '?' || rest[0] == '#'
                ==> rewritten_link(documents, directory, url) == url
            &&& rewritten_image(directory, url) == url
        }),
{
    reveal_strlit("/_mdfolio");
    reveal_strlit("#");
    let place = seq!['#'] + rest;
    assert(place.take(1) =~= "#"@);
    let prefix = seq!['/', '_', 'm', 'd', 'f', 'o', 'l', 'i', 'o'];
    assert(prefix =~= APP_PREFIX@);
    let url = prefix + rest;
    assert(url.take(9) =~= prefix);
    if rest.len() > 0 {
        assert(url[9] == rest[0]);
    }
}

// ---------------------------------------------------------------------------
// Links within the library
// ---------------------------------------------------------------------------

/// The path of a link within the library: it is not empty, has neither scheme nor query nor
/// fragment, and begins neither like an address of the application nor with two slashes. What
/// stands before a colon in it is not written as a scheme.
pub open spec fn plain_path(p: Seq<char>) -> bool {
    &&& p.len() > 0
    &&& forall|i: int|
        0 <= i < p.len() ==> #[trigger] p[i] != '#' && p[i] != '?' && (p[i] == ':'
            ==> !written_as_scheme(p.take(i)))
    &&& !(p.len() > 1 && p[0] == '/' && (p[1] == '/' || p[1] == '_'))
}

proof fn lemma_plain(p: Seq<char>, rest: Seq<char>)
    requires
        plain_path(p),
        rest.len() > 0 ==> rest[0] == '#' || rest[0] == '?',
    ensures
        !begins_with(p + rest, APP_PREFIX@),
        !begins_with(p + rest, "#"@),
        !begins_with(p + rest, "//"@),
        scheme_of(p + rest) is None,
{
    let url = p + rest;
    reveal_strlit("/_mdfolio");
    reveal_strlit("#");
    reveal_strlit("//");
    assert(url[0] == p[0]);
    if begins_with(url, "#"@) {
        assert(url.take(1)[0] == url[0]);
    }
    if begins_with(url, "//"@) {
        assert(url.take(2)[0] == url[0]);
        assert(url.take(2)[1] == url[1]);
    }
    if begins_with(url, APP_PREFIX@) {
        assert(url.take(9)[0] == url[0]);
        assert(url.take(9)[1] == url[1]);
    }
    lemma_until(url, is_char(':'));
    lemma_until(url, is_delimiter());
    let k = until(url, is_char(':'));
    if k < url.len() {
        assert(is_char(':')(url[k as int]));
        if k < p.len() {
            assert(url[k as int] == p[k as int]);
            assert(url.take(k as int) =~= p.take(k as int));
            assert(scheme_text(p.take(k as int)) ==> written_as_scheme(p.take(k as int)));
        } else {
            assert(is_delimiter()(url[p.len() as int]));
            assert(until(url, is_delimiter()) <= p.len()) by {
                if until(url, is_delimiter()) > p.len() {
                    assert(!is_delimiter()(url[p.len() as int]));
                }
            }
        }
    }
}

proof fn lemma_parts(p: Seq<char>, q: Seq<char>, f: Option<Seq<char>>)
    requires
        plain_path(p),
        q.len() > 0 ==> q[0] == '?',
        forall|i: int| 0 <= i < q.len() ==> #[trigger] q[i] != '#',
    ensures
        path_of(p + q + fragment_text(f)) == p,
        fragment_of(p + q + fragment_text(f)) == f,
{
    let ending = fragment_text(f);
    let head = p + q;
    let url = head + ending;
    assert forall|i: int| 0 <= i < head.len() implies !is_char('#')(#[trigger] url[i]) by {
        if i < p.len() {
            assert(url[i] == p[i]);
        } else {
            assert(url[i] == q[i - p.len()]);
        }
    }
    if f is Some {
        assert(url[head.len() as int] == '#');
        lemma_until_is(url, is_char('#'), head.len());
        assert(url.skip(head.len() as int + 1) =~= f->0);
    } else {
        assert(url =~= head);
        lemma_until_is(url, is_char('#'), head.len());
    }
    assert(before_fragment(url) =~= head);
    assert forall|i: int| 0 <= i < p.len() implies !is_char('?')(#[trigger] head[i]) by {
        assert(head[i] == p[i]);
    }
    if q.len() > 0 {
        assert(head[p.len() as int] == q[0]);
        lemma_until_is(head, is_char('?'), p.len());
    } else {
        assert(head =~= p);
        lemma_until_is(head, is_char('?'), p.len());
    }
    assert(head.take(p.len() as int) =~= p);
}

/// A link within the library loses its query and keeps its fragment: it leads where the path alone
/// leads, and to the same place there. Where the path leads nowhere, it leads nowhere.
pub proof fn law_queries_go_and_fragments_stay(
    documents: Seq<DocumentView>,
    directory: Seq<Seq<u8>>,
    p: Seq<char>,
    q: Seq<char>,
    f: Seq<char>,
)
    requires
        plain_path(p),
        forall|i: int| 0 <= i < q.len() ==> #[trigger] q[i] != '#',
    ensures
        ({
            let alone = rewritten_link(documents, directory, p);
            let query = seq!['?'] + q;
            let fragment = seq!['#'] + f;
            &&& rewritten_link(documents, directory, p + query) == alone
            &&& alone.len() > 0 ==> rewritten_link(documents, directory, p + fragment) == alone
                + fragment
            &&& alone.len() > 0 ==> rewritten_link(documents, directory, p + query + fragment)
                == alone + fragment
            &&& alone.len() == 0 ==> rewritten_link(documents, directory, p + query + fragment).len()
                == 0
            &&& rewritten_image(directory, p + query) == rewritten_image(directory, p)
            &&& rewritten_image(directory, p + query + fragment) == rewritten_image(directory, p)
        }),
{
    let none = Seq::<char>::empty();
    let query = seq!['?'] + q;
    let fragment = seq!['#'] + f;
    reveal_strlit("/_mdfolio");
    lemma_plain(p, none);
    lemma_plain(p, query);
    lemma_plain(p, fragment);
    lemma_plain(p, query + fragment);
    lemma_parts(p, none, None);
    lemma_parts(p, query, None);
    lemma_parts(p, none, Some(f));
    lemma_parts(p, query, Some(f));
    assert(p + none + none =~= p);
    assert(p + none =~= p);
    assert(p + query + none =~= p + query);
    assert(p + none + fragment =~= p + fragment);
    assert(p + query + fragment =~= p + (query + fragment));
    if let Some(target) = normalized(directory, p) {
        let address = target_address(documents, target);
        assert(address + none =~= address);
        assert(address.len() > 0);
    }
}

/// Where a link within the library leads: to the address of the document that its target stands
/// for; else, if the target has the extension of an image or of a PDF, to that of the asset; else to
/// the address of what is missing. A link that leaves the library leads nowhere.
pub proof fn law_links_lead_to_their_targets(
    documents: Seq<DocumentView>,
    directory: Seq<Seq<u8>>,
    p: Seq<char>,
)
    requires
        plain_path(p),
    ensures
        match normalized(directory, p) {
            None => rewritten_link(documents, directory, p).len() == 0 && rewritten_image(
                directory,
                p,
            ).len() == 0,
            Some(target) => {
                &&& match resolved_target(documents, target) {
                    Some(d) => rewritten_link(documents, directory, p) == "/_mdfolio/doc/"@
                        + encoded_path(documents[d].path),
                    None => if kind_of(target) is Some {
                        rewritten_link(documents, directory, p) == "/_mdfolio/asset/"@
                            + encoded_path(target)
                    } else {
                        rewritten_link(documents, directory, p) == "/_mdfolio/missing/"@
                            + encoded_path(target)
                    },
                }
                &&& match kind_of(target) {
                    Some(AssetKind::Image(_)) => rewritten_image(directory, p)
                        == "/_mdfolio/asset/"@ + encoded_path(target),
                    _ => rewritten_image(directory, p).len() == 0,
                }
            },
        },
{
    let none = Seq::<char>::empty();
    lemma_plain(p, none);
    lemma_parts(p, none, None);
    assert(p + none + none =~= p);
    assert(p + none =~= p);
    lemma_prefixes();
    reveal_strlit("/_mdfolio");
    if let Some(target) = normalized(directory, p) {
        let address = target_address(documents, target);
        assert(address + none =~= address);
    }
}

proof fn lemma_prefixes()
    ensures
        APP_PREFIX@ + "/doc/"@ == "/_mdfolio/doc/"@,
        APP_PREFIX@ + "/asset/"@ == "/_mdfolio/asset/"@,
        APP_PREFIX@ + "/missing/"@ == "/_mdfolio/missing/"@,
{
    reveal_strlit("/_mdfolio");
    reveal_strlit("/doc/");
    reveal_strlit("/asset/");
    reveal_strlit("/missing/");
    reveal_strlit("/_mdfolio/doc/");
    reveal_strlit("/_mdfolio/asset/");
    reveal_strlit("/_mdfolio/missing/");
    assert(APP_PREFIX@ + "/doc/"@ =~= "/_mdfolio/doc/"@);
    assert(APP_PREFIX@ + "/asset/"@ =~= "/_mdfolio/asset/"@);
    assert(APP_PREFIX@ + "/missing/"@ =~= "/_mdfolio/missing/"@);
}

/// A query without a path is taken out of a link, and the place in the page behind it stays.
pub proof fn law_queries_alone_are_taken_out(
    documents: Seq<DocumentView>,
    directory: Seq<Seq<u8>>,
    q: Seq<char>,
    f: Seq<char>,
)
    requires
        forall|i: int| 0 <= i < q.len() ==> #[trigger] q[i] != '#',
    ensures
        rewritten_link(documents, directory, seq!['?'] + q).len() == 0,
        rewritten_link(documents, directory, seq!['?'] + q + seq!['#'] + f) == seq!['#'] + f,
{
    let head = seq!['?'] + q;
    let url = head + seq!['#'] + f;
    lemma_query_alone(head, head);
    lemma_query_alone(head, url);
    assert forall|i: int| 0 <= i < head.len() implies !is_char('#')(#[trigger] head[i]) && url[i]
        == head[i] by {
        if i > 0 {
            assert(head[i] == q[i - 1]);
        }
    }
    assert(url[head.len() as int] == '#');
    lemma_until_is(head, is_char('#'), head.len());
    lemma_until_is(url, is_char('#'), head.len());
    assert(before_fragment(head) =~= head);
    assert(before_fragment(url) =~= head);
    lemma_until_is(head, is_char('?'), 0);
    assert(url.skip(head.len() as int + 1) =~= f);
}

proof fn lemma_query_alone(head: Seq<char>, url: Seq<char>)
    requires
        head.len() > 0,
        head[0] == '?',
        url.len() >= head.len(),
        url[0] == '?',
    ensures
        !application_address(url),
        !begins_with(url, "#"@),
        !begins_with(url, "//"@),
        scheme_of(url) is None,
{
    reveal_strlit("/_mdfolio");
    reveal_strlit("#");
    reveal_strlit("//");
    if begins_with(url, APP_PREFIX@) {
        assert(url.take(9)[0] == url[0]);
    }
    if begins_with(url, "#"@) {
        assert(url.take(1)[0] == url[0]);
    }
    if begins_with(url, "//"@) {
        assert(url.take(2)[0] == url[0]);
    }
    assert(is_delimiter()(url[0]));
    lemma_until_is(url, is_delimiter(), 0);
}

/// A name that only begins like the prefix of the application is a name like any other: a link with
/// it leads to what it stands for in the library.
pub proof fn law_names_like_the_prefix_are_names(
    documents: Seq<DocumentView>,
    directory: Seq<Seq<u8>>,
    c: char,
    rest: Seq<char>,
)
    requires
        c != '/' && c != '?' && c != '#',
        forall|i: int| 0 <= i < rest.len() ==> #[trigger] rest[i] != '#' && rest[i] != '?',
    ensures
        ({
            let url = seq!['/', '_', 'm', 'd', 'f', 'o', 'l', 'i', 'o', c] + rest;
            match normalized(directory, url) {
                None => rewritten_link(documents, directory, url).len() == 0,
                Some(target) => match resolved_target(documents, target) {
                    Some(d) => rewritten_link(documents, directory, url) == "/_mdfolio/doc/"@
                        + encoded_path(documents[d].path),
                    None => if kind_of(target) is Some {
                        rewritten_link(documents, directory, url) == "/_mdfolio/asset/"@
                            + encoded_path(target)
                    } else {
                        rewritten_link(documents, directory, url) == "/_mdfolio/missing/"@
                            + encoded_path(target)
                    },
                },
            }
        }),
{
    let url = seq!['/', '_', 'm', 'd', 'f', 'o', 'l', 'i', 'o', c] + rest;
    reveal_strlit("/_mdfolio");
    reveal_strlit("//");
    assert(url[0] == '/' && url[1] == '_' && url[9] == c);
    lemma_rooted(url);
    lemma_prefixes();
    if begins_with(url, "//"@) {
        assert(url.take(2)[1] == url[1]);
    }
    assert forall|i: int| 0 <= i < url.len() implies !is_char('#')(#[trigger] url[i]) && !is_char(
        '?',
    )(url[i]) by {
        if i >= 10 {
            assert(url[i] == rest[i - 10]);
        }
    }
    lemma_until_is(url, is_char('#'), url.len());
    lemma_until_is(url, is_char('?'), url.len());
    assert(before_fragment(url) =~= url);
    assert(path_of(url) =~= url);
    let none = Seq::<char>::empty();
    if let Some(target) = normalized(directory, url) {
        let address = target_address(documents, target);
        assert(address + none =~= address);
    }
}

/// The addresses of documents, assets and missing targets.
pub proof fn law_addresses_begin_with_their_route(path: Seq<Seq<u8>>)
    ensures
        document_address(path) == "/_mdfolio/doc/"@ + encoded_path(path),
        asset_address(path) == "/_mdfolio/asset/"@ + encoded_path(path),
        missing_address(path) == "/_mdfolio/missing/"@ + encoded_path(path),
{
    lemma_prefixes();
}

/// The target of a link and the source of an image are rewritten in raw HTML, too, and dropped
/// where nothing is left of them; every other attribute stays as it is.
pub proof fn law_attributes_are_rewritten_like_links(
    documents: Seq<DocumentView>,
    directory: Seq<Seq<u8>>,
    element: Seq<char>,
    attribute: Seq<char>,
    value: Seq<char>,
)
    ensures
        ({
            let link = rewritten_link(documents, directory, value);
            let image = rewritten_image(directory, value);
            let kept = filtered_attribute(documents, directory, element, attribute, value);
            &&& element == seq!['a'] && attribute == seq!['h', 'r', 'e', 'f'] ==> kept == (
            if link.len() > 0 {
                Some(link)
            } else {
                None
            })
            &&& element == seq!['i', 'm', 'g'] && attribute == seq!['s', 'r', 'c'] ==> kept == (
            if image.len() > 0 {
                Some(image)
            } else {
                None
            })
            &&& !(element == seq!['a'] && attribute == seq!['h', 'r', 'e', 'f']) && !(element
                == seq!['i', 'm', 'g'] && attribute == seq!['s', 'r', 'c']) ==> kept == Some(value)
        }),
{
    reveal_strlit("a");
    reveal_strlit("href");
    reveal_strlit("img");
    reveal_strlit("src");
    assert("a"@ =~= seq!['a']);
    assert("href"@ =~= seq!['h', 'r', 'e', 'f']);
    assert("img"@ =~= seq!['i', 'm', 'g']);
    assert("src"@ =~= seq!['s', 'r', 'c']);
}

// ---------------------------------------------------------------------------
// Assets
// ---------------------------------------------------------------------------

/// An asset is told by its extension, in any case: PNG, JPEG under two names, GIF, SVG, WebP, AVIF
/// and PDF, and nothing else.
pub proof fn law_assets_are_told_by_their_extension(
    directory: Seq<Seq<u8>>,
    stem: Seq<u8>,
    extension: Seq<u8>,
)
    requires
        stem.len() > 0,
        stem != seq![46u8],
        forall|i: int| 0 <= i < extension.len() ==> #[trigger] extension[i] != 46,
    ensures
        ({
            let kind = kind_of(directory.push(stem + seq![46u8] + extension));
            let jpeg = in_any_case(extension, "jpg"@) || in_any_case(extension, "jpeg"@);
            &&& in_any_case(extension, "png"@) <==> kind == Some(AssetKind::Image(ImageFormat::Png))
            &&& jpeg <==> kind == Some(AssetKind::Image(ImageFormat::Jpeg))
            &&& in_any_case(extension, "gif"@) <==> kind == Some(AssetKind::Image(ImageFormat::Gif))
            &&& in_any_case(extension, "svg"@) <==> kind == Some(AssetKind::Image(ImageFormat::Svg))
            &&& in_any_case(extension, "webp"@) <==> kind == Some(
                AssetKind::Image(ImageFormat::Webp),
            )
            &&& in_any_case(extension, "avif"@) <==> kind == Some(
                AssetKind::Image(ImageFormat::Avif),
            )
            &&& in_any_case(extension, "pdf"@) <==> kind == Some(AssetKind::Pdf)
        }),
{
    let name = stem + seq![46u8] + extension;
    let path = directory.push(name);
    law_names_are_split_at_their_last_dot(stem, extension);
    assert(name != above()) by {
        if name == above() {
            assert(name.len() == 2);
            assert(stem =~= seq![46u8]) by {
                assert(name[0] == stem[0]);
            }
        }
    }
    assert(path.last() == name);
    assert(path_extension(path) == Some(extension));
    lemma_asset_words();
    law_spelling_ignores_case(extension, "png"@);
    law_spelling_ignores_case(extension, "jpg"@);
    law_spelling_ignores_case(extension, "jpeg"@);
    law_spelling_ignores_case(extension, "gif"@);
    law_spelling_ignores_case(extension, "svg"@);
    law_spelling_ignores_case(extension, "webp"@);
    law_spelling_ignores_case(extension, "avif"@);
    law_spelling_ignores_case(extension, "pdf"@);
    lemma_asset_words_differ(extension);
}

proof fn lemma_asset_words()
    ensures
        small_word("png"@),
        small_word("jpg"@),
        small_word("jpeg"@),
        small_word("gif"@),
        small_word("svg"@),
        small_word("webp"@),
        small_word("avif"@),
        small_word("pdf"@),
{
    reveal_strlit("png");
    reveal_strlit("jpg");
    reveal_strlit("jpeg");
    reveal_strlit("gif");
    reveal_strlit("svg");
    reveal_strlit("webp");
    reveal_strlit("avif");
    reveal_strlit("pdf");
}

/// No two of the extensions are the same in any case.
proof fn lemma_asset_words_differ(e: Seq<u8>)
    ensures
        in_any_case(e, "png"@) ==> !in_any_case(e, "jpg"@) && !in_any_case(e, "jpeg"@)
            && !in_any_case(e, "gif"@) && !in_any_case(e, "svg"@) && !in_any_case(e, "webp"@)
            && !in_any_case(e, "avif"@) && !in_any_case(e, "pdf"@),
        in_any_case(e, "jpg"@) || in_any_case(e, "jpeg"@) ==> !in_any_case(e, "gif"@)
            && !in_any_case(e, "svg"@) && !in_any_case(e, "webp"@) && !in_any_case(e, "avif"@)
            && !in_any_case(e, "pdf"@),
        in_any_case(e, "gif"@) ==> !in_any_case(e, "svg"@) && !in_any_case(e, "webp"@)
            && !in_any_case(e, "avif"@) && !in_any_case(e, "pdf"@),
        in_any_case(e, "svg"@) ==> !in_any_case(e, "webp"@) && !in_any_case(e, "avif"@)
            && !in_any_case(e, "pdf"@),
        in_any_case(e, "webp"@) ==> !in_any_case(e, "avif"@) && !in_any_case(e, "pdf"@),
        in_any_case(e, "avif"@) ==> !in_any_case(e, "pdf"@),
{
    reveal_strlit("png");
    reveal_strlit("jpg");
    reveal_strlit("jpeg");
    reveal_strlit("gif");
    reveal_strlit("svg");
    reveal_strlit("webp");
    reveal_strlit("avif");
    reveal_strlit("pdf");
    if in_any_case(e, "png"@) {
        assert(either_case(e[0], 'p') && either_case(e[1], 'n'));
    }
    if in_any_case(e, "jpg"@) {
        assert(either_case(e[0], 'j') && either_case(e[1], 'p'));
    }
    if in_any_case(e, "jpeg"@) {
        assert(either_case(e[0], 'j') && either_case(e[1], 'p'));
    }
    if in_any_case(e, "gif"@) {
        assert(either_case(e[0], 'g') && either_case(e[1], 'i'));
    }
    if in_any_case(e, "svg"@) {
        assert(either_case(e[0], 's') && either_case(e[1], 'v'));
    }
    if in_any_case(e, "webp"@) {
        assert(either_case(e[0], 'w') && either_case(e[1], 'e'));
    }
    if in_any_case(e, "avif"@) {
        assert(either_case(e[0], 'a') && either_case(e[1], 'v'));
    }
    if in_any_case(e, "pdf"@) {
        assert(either_case(e[0], 'p') && either_case(e[1], 'd'));
    }
}

/// Every asset is an image or a PDF, and not both.
pub proof fn law_assets_are_images_or_pdfs(path: Seq<Seq<u8>>)
    ensures
        pdf_path(path) <==> kind_of(path) == Some(AssetKind::Pdf),
        image_path(path) <==> (kind_of(path) matches Some(AssetKind::Image(_))),
        kind_of(path) is Some <==> pdf_path(path) || image_path(path),
        !(pdf_path(path) && image_path(path)),
{
}

/// The type under which an asset is sent.
pub proof fn law_assets_have_their_type()
    ensures
        media_type(AssetKind::Image(ImageFormat::Png)) == "image/png"@,
        media_type(AssetKind::Image(ImageFormat::Jpeg)) == "image/jpeg"@,
        media_type(AssetKind::Image(ImageFormat::Gif)) == "image/gif"@,
        media_type(AssetKind::Image(ImageFormat::Svg)) == "image/svg+xml"@,
        media_type(AssetKind::Image(ImageFormat::Webp)) == "image/webp"@,
        media_type(AssetKind::Image(ImageFormat::Avif)) == "image/avif"@,
        media_type(AssetKind::Pdf) == "application/pdf"@,
{
}

// ---------------------------------------------------------------------------
// Paths in URLs
// ---------------------------------------------------------------------------

/// Whether a byte stands in a URL as it is: a letter, a digit, or one of `!$&'()*+,-./:;=@_~`.
pub open spec fn stays_in_url(b: u8) -> bool {
    97 <= b <= 122 || 65 <= b <= 90 || 48 <= b <= 57 || b == 33 || b == 36 || 38 <= b <= 47 || b
        == 58 || b == 59 || b == 61 || b == 64 || b == 95 || b == 126
}

/// Sixteen digits, in order.
pub open spec fn hexadecimal_digits() -> Seq<char> {
    seq!['0', '1', '2', '3', '4', '5', '6', '7', '8', '9', 'A', 'B', 'C', 'D', 'E', 'F']
}

/// A byte in a URL stands as it is, or as a percent sign and its two hexadecimal digits; the bytes
/// of a name stand one after another.
pub proof fn law_bytes_stand_in_urls_one_by_one(b: u8, rest: Seq<u8>)
    ensures
        stays_in_url(b) ==> percent_encoded(seq![b] + rest) == seq![b as char] + percent_encoded(
            rest,
        ),
        !stays_in_url(b) ==> percent_encoded(seq![b] + rest) == seq![
            '%',
            hexadecimal_digits()[b as int / 16],
            hexadecimal_digits()[b as int % 16],
        ] + percent_encoded(rest),
        percent_encoded(Seq::empty()).len() == 0,
{
    let all = seq![b] + rest;
    assert(all[0] == b);
    assert(all.drop_first() =~= rest);
    assert(percent_encoded(all) == encoded_byte(b) + percent_encoded(rest));
    if !stays_in_url(b) {
        let hi = b as int / 16;
        let lo = b as int % 16;
        assert(0 <= hi < 16 && 0 <= lo < 16);
        assert(escape(b) =~= seq!['%', hexadecimal_digits()[hi], hexadecimal_digits()[lo]]);
    }
}

/// A path in a URL is its names with slashes between them.
pub proof fn law_names_stand_in_urls_one_by_one(path: Seq<Seq<u8>>, name: Seq<u8>)
    requires
        utf8_names(path),
        valid_utf8(name),
    ensures
        path.len() > 0 ==> encoded_path(path.push(name)) == encoded_path(path) + seq!['/']
            + percent_encoded(name),
        path.len() == 0 ==> encoded_path(path.push(name)) == percent_encoded(name),
        encoded_path(Seq::empty()).len() == 0,
{
    let all = path.push(name);
    assert(all.drop_last() =~= path);
    lemma_url_names(path);
    let before = url_names(path);
    assert(url_names(all) == before.push(percent_encoded(name)));
    assert(before.push(percent_encoded(name)).drop_last() =~= before);
}

proof fn lemma_url_names(path: Seq<Seq<u8>>)
    requires
        utf8_names(path),
    ensures
        url_names(path).len() == path.len(),
    decreases path.len(),
{
    if path.len() > 0 {
        assert(valid_utf8(path[path.len() - 1]));
        let before = path.drop_last();
        assert forall|i: int| 0 <= i < before.len() implies valid_utf8(#[trigger] before[i]) by {
            assert(before[i] == path[i]);
        }
        lemma_url_names(before);
    }
}

proof fn lemma_decoded_at_slash(a: Seq<u8>, b: Seq<u8>)
    ensures
        percent_decoded(a + seq![slash()] + b) == percent_decoded(a) + seq![slash()]
            + percent_decoded(b),
    decreases a.len(),
{
    let all = a + seq![slash()] + b;
    if a.len() == 0 {
        assert(all[0] == slash());
        assert(all.drop_first() =~= b);
        assert(percent_decoded(all) =~= percent_decoded(a) + seq![slash()] + percent_decoded(b));
    } else if a[0] == 37 && a.len() >= 3 && hex_value(a[1]) is Some && hex_value(a[2]) is Some {
        assert(all[0] == a[0] && all[1] == a[1] && all[2] == a[2]);
        assert(all.skip(3) =~= a.skip(3) + seq![slash()] + b);
        lemma_decoded_at_slash(a.skip(3), b);
        assert(percent_decoded(all) =~= percent_decoded(a) + seq![slash()] + percent_decoded(b));
    } else {
        assert(all[0] == a[0]);
        assert(all.drop_first() =~= a.drop_first() + seq![slash()] + b);
        lemma_decoded_at_slash(a.drop_first(), b);
        if a.len() >= 3 {
            assert(all[1] == a[1] && all[2] == a[2]);
        } else if a.len() == 2 {
            assert(all[1] == a[1] && all[2] == slash());
        } else {
            assert(all[1] == slash());
        }
        assert(percent_decoded(all) =~= percent_decoded(a) + seq![slash()] + percent_decoded(b));
    }
}

proof fn lemma_walked_in_two(from: Seq<Seq<u8>>, a: Seq<Seq<u8>>, b: Seq<Seq<u8>>)
    ensures
        walked(from, a + b) == (match walked(from, a) {
            Some(middle) => walked(middle, b),
            None => None,
        }),
    decreases a.len(),
{
    let all = a + b;
    if a.len() == 0 {
        assert(all =~= b);
    } else {
        assert(all[0] == a[0]);
        assert(all.drop_first() =~= a.drop_first() + b);
        if a[0] == here() {
            lemma_walked_in_two(from, a.drop_first(), b);
        } else if a[0] == above() {
            if from.len() > 0 {
                lemma_walked_in_two(from.drop_last(), a.drop_first(), b);
            }
        } else {
            lemma_walked_in_two(from.push(a[0]), a.drop_first(), b);
        }
    }
}

/// A path with a slash in it is walked along piece by piece: what stands behind the slash is read
/// from where what stands before it leads.
pub proof fn law_paths_are_walked_along_piece_by_piece(
    base: Seq<Seq<u8>>,
    a: Seq<char>,
    b: Seq<char>,
)
    requires
        a.len() > 0,
        b.len() > 0 ==> b[0] != '/' && b[0] != '%',
    ensures
        normalized(base, a + seq!['/'] + b) == (match normalized(base, a) {
            Some(middle) => normalized(middle, b),
            None => None,
        }),
{
    reveal_strlit("/");
    lemma_ascii_bytes("/"@);
    assert("/"@ =~= seq!['/']);
    assert(encode_utf8(seq!['/']) =~= seq![slash()]);
    lemma_encode_concat(a, seq!['/']);
    lemma_encode_concat(a + seq!['/'], b);
    let x = percent_decoded(encode_utf8(a));
    let y = percent_decoded(encode_utf8(b));
    lemma_decoded_at_slash(encode_utf8(a), encode_utf8(b));
    let all = x + seq![slash()] + y;
    assert(percent_decoded(encode_utf8(a + seq!['/'] + b)) == all);
    lemma_split_at_slash(x, y);
    if valid_utf8(x) && valid_utf8(y) {
        vstd::utf8::encode_utf8_valid_utf8("/"@);
        vstd::utf8::valid_utf8_concat(x, seq![slash()]);
        vstd::utf8::valid_utf8_concat(x + seq![slash()], y);
    }
    assert(all.contains(0) <==> x.contains(0) || y.contains(0)) by {
        if x.contains(0) {
            let k = choose|k: int| 0 <= k < x.len() && x[k] == 0;
            assert(all[k] == 0);
        }
        if y.contains(0) {
            let k = choose|k: int| 0 <= k < y.len() && y[k] == 0;
            assert(all[x.len() + 1 + k] == 0);
        }
        if all.contains(0) {
            let k = choose|k: int| 0 <= k < all.len() && all[k] == 0;
            if k < x.len() {
                assert(x[k] == 0);
            } else if k > x.len() {
                assert(y[k - x.len() - 1] == 0);
            }
        }
    }
    lemma_fields_at_separator(x, slash(), y, is_slash());
    let start = if x.len() > 0 && x[0] == slash() {
        Seq::<Seq<u8>>::empty()
    } else {
        base
    };
    lemma_walked_in_two(start, components(x), components(y));
    lemma_decoded_is_not_empty(encode_utf8(a));
    vstd::utf8::encode_utf8_first_scalar(a);
    assert(encode_utf8(a).len() > 0);
    assert(all[0] == x[0]);
    if b.len() > 0 {
        lemma_first_byte(b);
    } else {
        assert(encode_utf8(b) =~= Seq::<u8>::empty());
        assert(y =~= Seq::<u8>::empty());
    }
}

proof fn lemma_decoded_is_not_empty(bytes: Seq<u8>)
    ensures
        bytes.len() > 0 ==> percent_decoded(bytes).len() > 0,
{
}

/// Text that begins neither with a slash nor with a percent sign is decoded to bytes that do not
/// begin with a slash.
proof fn lemma_first_byte(b: Seq<char>)
    requires
        b.len() > 0,
        b[0] != '/',
        b[0] != '%',
    ensures
        ({
            let y = percent_decoded(encode_utf8(b));
            y.len() == 0 || y[0] != slash()
        }),
{
    let bytes = encode_utf8(b);
    let first = seq![b[0]];
    assert(b =~= first + b.drop_first());
    lemma_encode_concat(first, b.drop_first());
    if '\0' <= b[0] <= '\u{7f}' {
        lemma_ascii_bytes(first);
        assert(bytes[0] == b[0] as u8);
    } else {
        let first_char = b[0];
        let c = first_char as u32;
        vstd::utf8::char_is_scalar(first_char);
        vstd::utf8::char_u32_cast(first_char, c);
        assert(c > 0x7f) by {
            if c <= 0x7f {
                assert(first_char == c as char);
                assert('\0' <= first_char <= '\u{7f}');
            }
        }
        let two = ((c >> 6) & 0x1F) as u8;
        let three = ((c >> 12) & 0x0F) as u8;
        let four = ((c >> 18) & 0x7) as u8;
        assert((0xC0u8 | two) >= 128) by (bit_vector);
        assert((0xE0u8 | three) >= 128) by (bit_vector);
        assert((0xF0u8 | four) >= 128) by (bit_vector);
        assert(!vstd::utf8::has_width_1_encoding(c));
        assert(bytes[0] >= 128);
    }
}

/// One name leads down, a point stays, and two points lead up, but not out of the library. A path
/// that begins with a slash is read from the library root.
pub proof fn law_steps_of_a_path(base: Seq<Seq<u8>>, name: Seq<char>)
    requires
        name.len() > 0,
        forall|i: int|
            0 <= i < name.len() ==> '\0' < #[trigger] name[i] <= '\u{7f}' && name[i] != '/' && name[i]
                != '%',
    ensures
        name == seq!['.'] ==> normalized(base, name) == Some(base),
        name == seq!['.', '.'] && base.len() > 0 ==> normalized(base, name) == Some(
            base.drop_last(),
        ),
        name == seq!['.', '.'] && base.len() == 0 ==> normalized(base, name) is None,
        name != seq!['.'] && name != seq!['.', '.'] ==> normalized(base, name) == Some(
            base.push(ascii_bytes(name)),
        ),
        normalized(base, seq!['/'] + name) == normalized(Seq::empty(), name),
        normalized(base, Seq::empty()) == Some(base),
{
    let bytes = ascii_bytes(name);
    lemma_ascii_bytes(name);
    assert forall|i: int| 0 <= i < bytes.len() implies #[trigger] bytes[i] != 37 && bytes[i]
        != slash() && bytes[i] != 0 by {
        assert(name[i] != '%' && name[i] != '/' && name[i] != '\0');
    }
    lemma_nothing_to_decode(bytes);
    vstd::utf8::encode_utf8_valid_utf8(name);
    assert forall|i: int| 0 <= i < bytes.len() implies !is_slash()(#[trigger] bytes[i]) by {}
    lemma_field_alone(bytes, is_slash());
    assert(components(bytes) == seq![bytes]);
    assert(seq![bytes].drop_first() =~= Seq::<Seq<u8>>::empty());
    assert(bytes == here() <==> name == seq!['.']) by {
        if bytes == here() {
            assert(bytes[0] == 46 && name.len() == 1);
            assert(name =~= seq!['.']);
        }
        if name == seq!['.'] {
            assert(bytes =~= here());
        }
    }
    assert(bytes == above() <==> name == seq!['.', '.']) by {
        if bytes == above() {
            assert(bytes[0] == 46 && bytes[1] == 46 && name.len() == 2);
            assert(name =~= seq!['.', '.']);
        }
        if name == seq!['.', '.'] {
            assert(bytes =~= above());
        }
    }
    reveal_with_fuel(walked, 2);
    assert(normalized(base, name) == walked(base, seq![bytes]));
    let rooted = seq!['/'] + name;
    assert forall|i: int| 0 <= i < rooted.len() implies '\0' <= #[trigger] rooted[i] <= '\u{7f}' by {
        if i > 0 {
            assert(rooted[i] == name[i - 1]);
        }
    }
    lemma_ascii_bytes(rooted);
    vstd::utf8::encode_utf8_valid_utf8(rooted);
    let all = ascii_bytes(rooted);
    let none = Seq::<u8>::empty();
    assert(all =~= none + seq![slash()] + bytes);
    assert forall|i: int| 0 <= i < all.len() implies #[trigger] all[i] != 37 && all[i] != 0 by {
        if i > 0 {
            assert(all[i] == bytes[i - 1]);
        }
    }
    lemma_nothing_to_decode(all);
    lemma_fields_at_separator(none, slash(), bytes, is_slash());
    assert(components(none) =~= Seq::<Seq<u8>>::empty());
    assert(components(all) =~= components(bytes));
    assert(encode_utf8(Seq::<char>::empty()) =~= none);
    assert(percent_decoded(none) =~= none);
}

proof fn lemma_nothing_to_decode(bytes: Seq<u8>)
    requires
        forall|i: int| 0 <= i < bytes.len() ==> #[trigger] bytes[i] != 37,
    ensures
        percent_decoded(bytes) == bytes,
    decreases bytes.len(),
{
    if bytes.len() > 0 {
        let rest = bytes.drop_first();
        assert forall|i: int| 0 <= i < rest.len() implies #[trigger] rest[i] != 37 by {
            assert(rest[i] == bytes[i + 1]);
        }
        lemma_nothing_to_decode(rest);
        assert(bytes[0] != 37);
        assert(percent_decoded(bytes) =~= bytes);
    } else {
        assert(percent_decoded(bytes) =~= bytes);
    }
}

} // verus!
