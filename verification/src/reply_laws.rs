//! What holds of the replies to requests: what they hold, and where they lead.

use vstd::prelude::*;
use vstd::utf8::{decode_utf8, encode_utf8, valid_utf8};
use crate::catalog::{
    coherent, extended, is_extensionless, landing_of, lemma_positions_where, positions_beneath,
    positions_extensionless, resolved_target, CatalogView, DocumentView, Landing, ScanError,
};
use crate::catalog_laws::law_only_catalog_paths_are_documents;
use crate::markdown::{kind_of, media_type, AssetKind, ImageFormat};
use crate::page_laws::{leads_to, lemma_leads_to};
use crate::pages::{answers_landing, shelf_content, status_code, ErrorView, LandingReply};
use crate::pathing::{encoded_path, normalized, percent_decoded};
use crate::pathing_laws::{law_encoded_paths_are_read_back, lemma_decode_path, utf8_names};
use crate::paths::{lies_beneath, no_nul, ordinary, written};
use crate::places_laws::{
    law_ordinary_paths_have_their_names_as_steps, law_places_of_a_library,
};
use crate::reading::{chosen_document, lemma_chosen_is_listed};
use crate::server::{
    accepted_length, added_headers, answers_found, answers_missing, answers_request,
    asset_header_texts, disposition, header_char, is_present, is_read, nothing_content,
    opened_document, quoted_name, readable_file, readable_path, requested_asset, requested_target,
    security_texts, static_header_texts, unavailable_content, unread_content, unrendered_content,
    CatalogLoadError, FoundFile, HeaderText, IoFailure, MarkdownReadError, MissingReply,
    ReaderSession, StaticFile, ASSET_CHUNK_BYTES,
};
use crate::server_laws::law_every_reply_is_secured;
use crate::text::begins_with;
use crate::walk_laws::law_documents_are_found_under_their_paths;

verus! {

// ---------------------------------------------------------------------------
// Files
// ---------------------------------------------------------------------------

/// A place of the library may be read exactly where a file is there; what is not there may not be.
pub proof fn law_files_of_the_library_may_be_read(
    root: Seq<u8>,
    path: Seq<Seq<u8>>,
    file: FoundFile,
)
    requires
        root.len() > 0,
        root[0] == 47,
        ordinary(path),
        file.canonical@ == root + seq![47u8] + written(path),
    ensures
        readable_file(root, Some(file)) <==> file.is_file,
        !readable_file(root, None),
{
    law_places_of_a_library(root, path, path);
}

/// A file may be read only where its names go on from those of the library: not beside it, nor
/// above it.
pub proof fn law_files_elsewhere_may_not_be_read(
    root: Seq<Seq<u8>>,
    path: Seq<Seq<u8>>,
    file: FoundFile,
)
    requires
        ordinary(root),
        ordinary(path),
        file.canonical@ == seq![47u8] + written(path),
    ensures
        readable_file(seq![47u8] + written(root), Some(file)) <==> file.is_file && root.len()
            <= path.len() && path.take(root.len() as int) == root,
{
    law_ordinary_paths_have_their_names_as_steps(root);
    law_ordinary_paths_have_their_names_as_steps(path);
    let r = seq![seq![47u8]] + root;
    let p = seq![seq![47u8]] + path;
    if begins_with(p, r) {
        assert forall|i: int| 0 <= i < root.len() implies path[i] == root[i] by {
            assert(p.take(r.len() as int)[i + 1] == r[i + 1]);
        }
        assert(path.take(root.len() as int) =~= root);
    }
    if root.len() <= path.len() && path.take(root.len() as int) == root {
        assert forall|i: int| 0 <= i < root.len() implies path[i] == root[i] by {
            assert(path.take(root.len() as int)[i] == root[i]);
        }
        assert(p.take(r.len() as int) =~= r);
    }
}

/// A page is read up to 16 MiB, and only as UTF-8; a larger file is not read at all. An asset is sent
/// in pieces of 64 KiB.
pub proof fn law_pages_are_read_up_to_their_limit(
    contents: Seq<u8>,
    read: Result<String, MarkdownReadError>,
    length: u64,
)
    requires
        is_read(contents, read),
    ensures
        read is Ok <==> contents.len() <= 16 * 1024 * 1024 && valid_utf8(contents),
        read matches Ok(text) ==> encode_utf8(text@) == contents,
        read matches Err(error) ==> (error == MarkdownReadError::TooLarge || error
            == MarkdownReadError::InvalidUtf8) && (error == MarkdownReadError::TooLarge
            <==> contents.len() > 16 * 1024 * 1024),
        accepted_length(length) is Ok <==> length <= 16 * 1024 * 1024,
        accepted_length(length) matches Err(error) ==> error == MarkdownReadError::TooLarge,
        ASSET_CHUNK_BYTES == 64 * 1024,
{
    if valid_utf8(contents) {
        vstd::utf8::decode_utf8_encode_utf8(contents);
    }
}

/// The number of the reply where a file cannot be read: that it is not found where it is not there
/// or may not be looked at, that it is too large, that it cannot be read as text, or an error of the
/// server.
pub proof fn law_unread_files_are_answered(reason: String)
    ensures
        ({
            let absent = MarkdownReadError::Io { kind: IoFailure::NotFound, reason };
            let denied = MarkdownReadError::Io { kind: IoFailure::PermissionDenied, reason };
            let failed = MarkdownReadError::Io { kind: IoFailure::Other, reason };
            &&& status_code(unread_content(absent).code) == 404
            &&& status_code(unread_content(denied).code) == 404
            &&& status_code(unread_content(failed).code) == 500
            &&& status_code(unread_content(MarkdownReadError::TooLarge).code) == 413
            &&& status_code(unread_content(MarkdownReadError::InvalidUtf8).code) == 422
            &&& unread_content(failed).message == "mdfolio failed to read the Markdown file: "@
                + reason@
            &&& unread_content(absent).message == unread_content(failed).message
            &&& unread_content(denied).message == unread_content(failed).message
            &&& unread_content(MarkdownReadError::TooLarge).message
                == "mdfolio failed to read the Markdown file: "@
                + "this Markdown page exceeds the 16 MiB reading limit"@
            &&& unread_content(MarkdownReadError::InvalidUtf8).message
                == "mdfolio failed to read the Markdown file: "@
                + "this Markdown page is not valid UTF-8"@
        }),
{
}

/// What is said where there is nothing at an address, where a page cannot be rendered, and where the
/// library cannot be shown.
pub proof fn law_failures_are_answered(
    reason: String,
    path: Vec<u8>,
    place: Seq<char>,
)
    requires
        path@ == encode_utf8(place),
    ensures
        status_code(nothing_content().code) == 404,
        nothing_content().heading == "Page not found"@,
        nothing_content().message == "There is nothing at this address in the current folio."@,
        status_code(unrendered_content(reason@).code) == 500,
        unrendered_content(reason@).heading == "Rendering failed"@,
        unrendered_content(reason@).message == "The page renderer stopped unexpectedly: "@ + reason@,
        ({
            let task = CatalogLoadError::Task(reason);
            let other = CatalogLoadError::Scan(ScanError::NotDirectory(path));
            let unseen = CatalogLoadError::Scan(ScanError::Inspect { path, source: reason });
            let start = "mdfolio failed to refresh the Markdown library: "@;
            &&& status_code(unavailable_content(task).code) == 503
            &&& status_code(unavailable_content(other).code) == 503
            &&& status_code(unavailable_content(unseen).code) == 503
            &&& unavailable_content(task).heading == "Library unavailable"@
            &&& unavailable_content(task).message == start
                + ("the catalog scan stopped unexpectedly: "@ + reason@)
            &&& unavailable_content(other).message == start + ("scan root is not a directory: "@
                + place)
            &&& unavailable_content(unseen).message == start + ("cannot inspect "@ + place + ": "@
                + reason@)
        }),
{
    vstd::utf8::encode_utf8_decode_utf8(place);
    vstd::utf8::encode_utf8_valid_utf8(place);
}

// ---------------------------------------------------------------------------
// Requests
// ---------------------------------------------------------------------------

/// A library with one collection opens with a redirect, which leads to a document of that
/// collection; any other opens with its shelf.
pub proof fn law_libraries_open(reply: LandingReply, c: CatalogView)
    requires
        coherent(c),
        answers_landing(reply, c),
    ensures
        match landing_of(c) {
            Landing::Document(id) => reply matches LandingReply::Redirect(location) && leads_to(
                c,
                location@,
                id as int,
            ),
            Landing::Shelf => reply matches LandingReply::Shelf(shelf) && shelf@ == shelf_content(c),
        },
{
    if let Landing::Document(id) = landing_of(c) {
        lemma_leads_to(c, id as int);
    }
}

/// What a target stands for is a document.
proof fn lemma_resolved(documents: Seq<DocumentView>, target: Seq<Seq<u8>>)
    requires
        documents.len() <= usize::MAX,
    ensures
        resolved_target(documents, target) matches Some(d) ==> 0 <= d < documents.len(),
{
    law_only_catalog_paths_are_documents(documents, target);
    law_only_catalog_paths_are_documents(documents, extended(target, "md"@));
    law_only_catalog_paths_are_documents(documents, extended(target, "markdown"@));
    let like = positions_extensionless(documents, target);
    if like.len() > 0 {
        lemma_positions_where(documents, |d: DocumentView| is_extensionless(d, target), 0);
    }
    let beneath = positions_beneath(documents, target);
    lemma_chosen_is_listed(documents, beneath, target);
    if let Some(id) = chosen_document(documents, beneath, target) {
        let k = choose|k: int| 0 <= k < beneath.len() && beneath[k] == id;
        lemma_positions_where(documents, |d: DocumentView| lies_beneath(d.path, target), k);
    }
}

/// A link that did not find its target is answered with a redirect to the document that the target
/// stands for by now, and else with a page that names what was asked for.
pub proof fn law_missing_targets_are_answered(
    reply: MissingReply,
    c: CatalogView,
    path: Seq<Seq<u8>>,
)
    requires
        coherent(c),
        c.documents.len() <= usize::MAX,
        ordinary(path),
        utf8_names(path),
        no_nul(path),
        answers_missing(reply, c, encoded_path(path)),
    ensures
        match resolved_target(c.documents, path) {
            Some(d) => reply matches MissingReply::Redirect(location) && leads_to(c, location@, d),
            None => reply matches MissingReply::NotFound(page) && status_code(page@.code) == 404
                && page@.heading == "Page not found"@ && page@.message
                == "No readable Markdown or allowed attachment matched “"@ + decode_utf8(
                written(path),
            ) + "”."@,
        },
{
    let none = Seq::<Seq<u8>>::empty();
    law_encoded_paths_are_read_back(none, path);
    assert(none + path =~= path);
    lemma_readable(path);
    if let Some(d) = resolved_target(c.documents, path) {
        lemma_resolved(c.documents, path);
        lemma_leads_to(c, d);
    }
}

proof fn lemma_readable(path: Seq<Seq<u8>>)
    requires
        ordinary(path),
        utf8_names(path),
    ensures
        percent_decoded(encode_utf8(encoded_path(path))) == written(path),
        valid_utf8(written(path)),
        readable_path(encoded_path(path)) == decode_utf8(written(path)),
{
    let rest = Seq::<u8>::empty();
    lemma_decode_path(path, rest);
    assert(encode_utf8(encoded_path(path)) + rest =~= encode_utf8(encoded_path(path)));
    assert(percent_decoded(rest) =~= rest);
    assert(written(path) + rest =~= written(path));
    crate::pathing_laws::lemma_written(path);
}

/// A path whose encoding gives no text is shown as it was asked for.
pub proof fn law_unreadable_paths_are_shown_as_asked(path: Seq<char>)
    ensures
        !valid_utf8(percent_decoded(encode_utf8(path))) ==> readable_path(path) == path,
        valid_utf8(percent_decoded(encode_utf8(path))) ==> encode_utf8(readable_path(path))
            == percent_decoded(encode_utf8(path)),
{
    if valid_utf8(percent_decoded(encode_utf8(path))) {
        vstd::utf8::decode_utf8_encode_utf8(percent_decoded(encode_utf8(path)));
    }
}

/// A request for the page of a document is answered with that document. A request for any other
/// place of the library is answered that there is no such page.
pub proof fn law_pages_are_answered(
    reply: Result<ReaderSession, ErrorView>,
    c: CatalogView,
    path: Seq<Seq<u8>>,
)
    requires
        coherent(c),
        ordinary(path),
        utf8_names(path),
        no_nul(path),
        answers_request(reply, c, encoded_path(path)),
    ensures
        reply is Ok <==> exists|d: int|
            0 <= d < c.documents.len() && (#[trigger] c.documents[d]).path == path,
        reply matches Ok(session) ==> session.library() == c && 0 <= session.chosen()
            < c.documents.len() && c.documents[session.chosen()].path == path,
        reply matches Err(page) ==> status_code(page@.code) == 404 && page@.heading
            == "Page not found"@ && page@.message == "That Markdown file is not in this folio."@,
{
    let none = Seq::<Seq<u8>>::empty();
    law_encoded_paths_are_read_back(none, path);
    assert(none + path =~= path);
    if exists|d: int| 0 <= d < c.documents.len() && (#[trigger] c.documents[d]).path == path {
        let d = choose|d: int| 0 <= d < c.documents.len() && (#[trigger] c.documents[d]).path == path;
        law_documents_are_found_under_their_paths(c, d);
    }
}

/// A request that leaves the library is answered that it does.
pub proof fn law_requests_that_leave_the_library_are_refused(
    reply: Result<ReaderSession, ErrorView>,
    c: CatalogView,
    rest: Seq<char>,
)
    requires
        answers_request(reply, c, seq!['.', '.', '/'] + rest),
        rest.len() > 0 ==> rest[0] != '/' && rest[0] != '%',
    ensures
        reply matches Err(page) && status_code(page@.code) == 404 && page@.heading
            == "Page not found"@ && page@.message == "That path leaves the selected library."@,
        requested_asset(seq!['.', '.', '/'] + rest) is None,
        requested_target(c, seq!['.', '.', '/'] + rest) is None,
        opened_document(c, seq!['.', '.', '/'] + rest) is None,
{
    let up = seq!['.', '.'];
    let none = Seq::<Seq<u8>>::empty();
    assert(seq!['.', '.', '/'] + rest =~= up + seq!['/'] + rest);
    crate::link_laws::law_paths_are_walked_along_piece_by_piece(none, up, rest);
    crate::link_laws::law_steps_of_a_path(none, up);
}

/// When the file of a page was looked for, it is read where it lies if it may be, and else the page
/// is not there.
pub proof fn law_found_files_are_answered(
    reply: Result<Vec<u8>, ErrorView>,
    root: Seq<u8>,
    found: Option<FoundFile>,
)
    requires
        answers_found(reply, root, found),
    ensures
        reply is Ok <==> readable_file(root, found),
        reply matches Ok(path) ==> found matches Some(file) && file.canonical@ == path@
            && file.is_file,
        reply matches Err(page) ==> status_code(page@.code) == 404 && page@.heading
            == "Page unavailable"@ && page@.message
            == "The file moved or is no longer readable beneath this library."@,
{
}

/// A request for an image or a PDF of the library is one for its path; no other asset is given.
pub proof fn law_assets_are_asked_for_by_their_path(path: Seq<Seq<u8>>, text: Seq<char>)
    requires
        ordinary(path),
        utf8_names(path),
        no_nul(path),
    ensures
        kind_of(path) is Some ==> requested_asset(encoded_path(path)) == Some(path),
        kind_of(path) is None ==> requested_asset(encoded_path(path)) is None,
        requested_asset(text) matches Some(target) ==> kind_of(target) is Some && normalized(
            Seq::empty(),
            text,
        ) == Some(target),
{
    let none = Seq::<Seq<u8>>::empty();
    law_encoded_paths_are_read_back(none, path);
    assert(none + path =~= path);
}

// ---------------------------------------------------------------------------
// Headers
// ---------------------------------------------------------------------------

/// A header, by its name and its value.
pub open spec fn says(header: HeaderText, name: Seq<char>, value: Seq<char>) -> bool {
    header.name == name && header.value == value
}

/// An asset is sent with its type, and is not stored. Nothing else is said of an image, but that an
/// SVG image is sandboxed.
pub proof fn law_images_are_sent_as_they_are(path: Seq<Seq<u8>>, format: ImageFormat)
    ensures
        ({
            let kind = AssetKind::Image(format);
            let texts = asset_header_texts(path, kind);
            &&& says(texts[0], "content-type"@, media_type(kind))
            &&& says(texts[1], "cache-control"@, "no-store"@)
            &&& format != ImageFormat::Svg ==> texts.len() == 2
            &&& format == ImageFormat::Svg ==> texts.len() == 3 && says(
                texts[2],
                "content-security-policy"@,
                "sandbox; default-src 'none'; style-src 'unsafe-inline'"@,
            )
        }),
{
}

/// A PDF is saved under its own name, with an underscore for each quotation mark and each backslash.
pub proof fn law_pdfs_are_saved_under_their_name(
    directory: Seq<Seq<u8>>,
    name: Seq<char>,
    saved: Seq<char>,
)
    requires
        forall|i: int|
            0 <= i < name.len() ==> (#[trigger] name[i] >= ' ' && name[i] != '\u{7f}') || name[i]
                == '\t',
        saved.len() == name.len(),
        forall|i: int|
            0 <= i < name.len() ==> #[trigger] saved[i] == (if name[i] == '"' || name[i] == '\\' {
                '_'
            } else {
                name[i]
            }),
    ensures
        ({
            let texts = asset_header_texts(directory.push(encode_utf8(name)), AssetKind::Pdf);
            &&& texts.len() == 3
            &&& says(texts[0], "content-type"@, media_type(AssetKind::Pdf))
            &&& says(texts[1], "cache-control"@, "no-store"@)
            &&& says(
                texts[2],
                "content-disposition"@,
                "attachment; filename=\""@ + saved + "\""@,
            )
        }),
{
    let path = directory.push(encode_utf8(name));
    assert(path.last() == encode_utf8(name));
    vstd::utf8::encode_utf8_decode_utf8(name);
    vstd::utf8::encode_utf8_valid_utf8(name);
    assert(quoted_name(name) =~= saved);
    reveal_strlit("attachment; filename=\"");
    reveal_strlit("\"");
    let value = disposition(path);
    let before = "attachment; filename=\""@;
    assert forall|i: int| 0 <= i < value.len() implies header_char(#[trigger] value[i]) by {
        if before.len() <= i < before.len() + name.len() {
            assert(value[i] == saved[i - before.len()]);
            assert(name[i - before.len()] == name[i - before.len()]);
        }
    }
}

/// A PDF whose name is not text is saved under a name of its own. Where the name holds a control, it
/// is not said how the PDF is saved.
pub proof fn law_other_pdfs_are_sent(directory: Seq<Seq<u8>>, bytes: Seq<u8>, name: Seq<char>, i: int)
    requires
        !valid_utf8(bytes),
        0 <= i < name.len(),
        (name[i] < ' ' && name[i] != '\t') || name[i] == '\u{7f}',
    ensures
        ({
            let unnamed = asset_header_texts(directory.push(bytes), AssetKind::Pdf);
            let controlled = asset_header_texts(directory.push(encode_utf8(name)), AssetKind::Pdf);
            &&& unnamed.len() == 3
            &&& says(
                unnamed[2],
                "content-disposition"@,
                "attachment; filename=\""@ + "attachment.pdf"@ + "\""@,
            )
            &&& controlled.len() == 2
        }),
{
    let path = directory.push(bytes);
    assert(path.last() == bytes);
    reveal_strlit("attachment; filename=\"");
    reveal_strlit("attachment.pdf");
    reveal_strlit("\"");
    let own = "attachment.pdf"@;
    assert(quoted_name(own) =~= own);
    let value = disposition(path);
    let before = "attachment; filename=\""@;
    assert forall|k: int| 0 <= k < value.len() implies header_char(#[trigger] value[k]) by {
        if before.len() <= k < before.len() + own.len() {
            assert(value[k] == own[k - before.len()]);
        }
    }
    let other = directory.push(encode_utf8(name));
    assert(other.last() == encode_utf8(name));
    vstd::utf8::encode_utf8_decode_utf8(name);
    vstd::utf8::encode_utf8_valid_utf8(name);
    let told = disposition(other);
    assert(told[before.len() + i] == quoted_name(name)[i]);
    assert(!header_char(told[before.len() + i]));
}

/// What comes with the reader is sent with its type, and is checked again each time.
pub proof fn law_static_files_have_their_type(file: StaticFile)
    ensures
        ({
            let texts = static_header_texts(file);
            &&& texts.len() == 2
            &&& says(
                texts[0],
                "content-type"@,
                match file {
                    StaticFile::Style => "text/css; charset=utf-8"@,
                    StaticFile::Script => "text/javascript; charset=utf-8"@,
                    StaticFile::Favicon => "image/svg+xml"@,
                },
            )
            &&& says(texts[1], "cache-control"@, "no-cache"@)
        }),
{
}

/// The four headers that keep a page to itself.
pub open spec fn keeps_to_itself(header: HeaderText) -> bool {
    ||| says(header, "x-content-type-options"@, "nosniff"@)
    ||| says(
        header,
        "content-security-policy"@,
        "default-src 'self'; img-src 'self' http: https:; style-src 'self'; script-src 'self'; connect-src 'none'; object-src 'none'; base-uri 'none'; frame-ancestors 'none'"@,
    )
    ||| says(header, "referrer-policy"@, "no-referrer"@)
    ||| says(header, "x-frame-options"@, "DENY"@)
}

/// A reply gets each of the four headers that it does not have yet, and no other.
pub proof fn law_replies_keep_to_themselves(present: Seq<String>, header: HeaderText)
    ensures
        added_headers(present, 4).contains(header) <==> keeps_to_itself(header) && !is_present(
            present,
            header.name,
        ),
{
    let added = added_headers(present, 4);
    if added.contains(header) {
        lemma_added_is_known(present, 4, header);
        law_every_reply_is_secured(present, 0);
    }
    if keeps_to_itself(header) && !is_present(present, header.name) {
        law_every_reply_is_secured(present, 0);
        law_every_reply_is_secured(present, 1);
        law_every_reply_is_secured(present, 2);
        law_every_reply_is_secured(present, 3);
    }
}

proof fn lemma_added_is_known(present: Seq<String>, n: int, header: HeaderText)
    requires
        0 <= n <= 4,
        added_headers(present, n).contains(header),
    ensures
        exists|k: int| 0 <= k < n && #[trigger] security_texts()[k] == header,
    decreases n,
{
    if n > 0 {
        let before = added_headers(present, n - 1);
        let last = security_texts()[n - 1];
        let all = added_headers(present, n);
        let i = choose|i: int| 0 <= i < all.len() && all[i] == header;
        if header != last {
            assert(before[i] == header);
            lemma_added_is_known(present, n - 1, header);
        }
    }
}

} // verus!
