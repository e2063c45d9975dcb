use std::sync::Arc;

use mdfolio::assembly::{RootInspection, WalkEntry};
use mdfolio::catalog::{Catalog, ScanError};
use mdfolio::discovery::EntryKind;
use mdfolio::pages::{
    error_view, landing_reply, navigation_for, shelf_view, LandingReply, Status,
};
use mdfolio::pathing::document_url;
use mdfolio::paths::LibraryPath;
use mdfolio::places::is_within;
use mdfolio::server::{
    accept_length, catalog_unavailable, confined_path, missing_reply, not_found, read_failed,
    read_markdown, rendering_failed, requested_path, security_headers, static_headers,
    status_for_io_error, AssetRequest, CatalogLoadError, FoundFile, Header, IoFailure,
    MarkdownReadError, MissingReply, ReaderSession, Route, StaticFile, MAX_MARKDOWN_BYTES,
};
use mdfolio::walk::Walk;

fn path(written: &str) -> LibraryPath {
    LibraryPath::parse(written).unwrap()
}

fn scan(files: &[(&str, &str)], repositories: &[&str]) -> Arc<Catalog> {
    let mut walk = Walk::new();
    for (name, contents) in files {
        let document = path(name);
        while let Some(directory) = walk.question(&document) {
            let is_repository = repositories.contains(&directory.to_text().as_str());
            walk = walk.with_finding(directory, is_repository);
        }
        walk = walk.with_step(WalkEntry::Entry {
            kind: EntryKind::File,
            path: document,
            contents: Ok(contents.as_bytes().to_vec()),
        });
    }
    let root = RootInspection::Found { path: b"/library".to_vec(), is_directory: true };
    Arc::new(Catalog::scan(b"/library", root, &walk).unwrap())
}

const FILES: [(&str, &str); 4] = [
    ("README.md", "# A Quiet Book\n\n![cover](images/cover.svg)"),
    ("images/cover.svg", "<svg xmlns=\"http://www.w3.org/2000/svg\"></svg>"),
    ("manual.pdf", "%PDF-fixture"),
    ("_mdfolio/static-style.md", "# Reserved-looking document"),
];

fn fixture() -> Arc<Catalog> {
    scan(&FILES, &[""])
}

fn with(more: &[(&'static str, &'static str)]) -> Vec<(&'static str, &'static str)> {
    let mut files = FILES.to_vec();
    files.extend_from_slice(more);
    files
}

fn value<'a>(headers: &'a [Header], name: &str) -> Option<&'a str> {
    headers.iter().find(|header| header.name == name).map(|header| header.value.as_str())
}

fn secured(mut headers: Vec<Header>) -> Vec<Header> {
    let present: Vec<String> = headers.iter().map(|header| header.name.to_owned()).collect();
    headers.extend(security_headers(&present));
    headers
}

fn found(canonical: &str) -> Option<FoundFile> {
    Some(FoundFile { canonical: canonical.as_bytes().to_vec(), is_file: true })
}

#[test]
fn landing_redirects_to_the_root_readme() {
    let LandingReply::Redirect(location) = landing_reply(&fixture()) else {
        panic!("one repository opens directly");
    };
    assert_eq!(location, "/_mdfolio/doc/README.md");
}

#[test]
fn svg_assets_are_confined_and_sandboxed() {
    let request = AssetRequest::open("images/cover.svg").unwrap();
    assert!(confined_path(b"/library", found("/library/images/cover.svg")).is_some());
    let headers = secured(request.headers());
    assert!(value(&headers, "content-security-policy").unwrap().starts_with("sandbox"));
    assert_eq!(
        headers.iter().filter(|header| header.name == "content-security-policy").count(),
        1
    );
}

#[test]
fn uppercase_svg_assets_keep_the_exact_type_and_sandbox() {
    let request = AssetRequest::open("images/COVER.SVG").unwrap();
    let headers = secured(request.headers());
    assert_eq!(value(&headers, "content-type"), Some("image/svg+xml"));
    assert!(value(&headers, "content-security-policy").unwrap().starts_with("sandbox"));
    assert_eq!(value(&headers, "cache-control"), Some("no-store"));
}

#[test]
fn pdf_assets_are_downloads() {
    let request = AssetRequest::open("manual.pdf").unwrap();
    let headers = request.headers();
    assert_eq!(value(&headers, "content-type"), Some("application/pdf"));
    assert_eq!(
        value(&headers, "content-disposition"),
        Some("attachment; filename=\"manual.pdf\"")
    );
}

#[test]
fn attachment_names_are_made_safe() {
    let headers = AssetRequest::open("a/b \"c\\d é.pdf").unwrap().headers();
    assert_eq!(
        value(&headers, "content-disposition"),
        Some("attachment; filename=\"b _c_d é.pdf\"")
    );
    let headers = AssetRequest::open("a%0Ab.pdf").unwrap().headers();
    assert_eq!(value(&headers, "content-disposition"), None);
    let headers = AssetRequest::open("a%09b.pdf").unwrap().headers();
    assert!(value(&headers, "content-disposition").is_some());
    let headers = AssetRequest::open("a%7Fb.pdf").unwrap().headers();
    assert_eq!(value(&headers, "content-disposition"), None);
}

#[test]
fn document_route_requires_catalog_membership() {
    let error = ReaderSession::open(fixture(), "secret.md").unwrap_err();
    assert_eq!(error.code, Status::NotFound);
    assert_eq!(error.code.code(), 404);
    assert!(error.message.contains("not in this folio"));

    let error = ReaderSession::open(fixture(), "../README.md").unwrap_err();
    assert_eq!(error.message, "That path leaves the selected library.");
}

#[test]
fn denied_asset_extension_is_not_served() {
    assert!(AssetRequest::open("page.html").is_none());
}

#[test]
fn reserved_namespace_does_not_collide_with_document_paths() {
    let session = ReaderSession::open(fixture(), "_mdfolio/static-style.md").unwrap();
    let page = session.page(String::new());
    assert!(page.page_title.contains("Reserved-looking document"));
}

#[test]
fn asset_symlink_outside_the_root_is_denied() {
    assert_eq!(confined_path(b"/library", found("/outside/outside.png")), None);
    assert_eq!(confined_path(b"/library", None), None);
}

#[test]
fn asset_symlink_inside_the_root_is_allowed() {
    assert_eq!(
        confined_path(b"/library", found("/library/images/original.png")),
        Some(b"/library/images/original.png".to_vec())
    );
    let directory = FoundFile { canonical: b"/library/images".to_vec(), is_file: false };
    assert_eq!(confined_path(b"/library", Some(directory)), None);
}

#[test]
fn encoded_asset_traversal_is_denied() {
    assert!(AssetRequest::open("%2E%2E/secret.pdf").is_none());
    assert!(AssetRequest::open("../secret.pdf").is_none());
    assert_eq!(*AssetRequest::open("a/../b.pdf").unwrap().relative_path(), path("b.pdf"));
}

#[test]
fn empty_catalog_renders_a_valid_shelf() {
    let shelf = shelf_view(&scan(&[], &[]));
    assert!(shelf.empty);
    assert!(!shelf.show_filter);
    assert!(!shelf.has_diagnostics);
    assert!(shelf.collections.is_empty());
    assert_eq!(shelf.page_title, "mdfolio — repository shelf");
    assert_eq!(shelf.body_class, "shelf-page");
    assert_eq!(shelf.root_path, "/library");
    assert!(matches!(landing_reply(&scan(&[], &[])), LandingReply::Shelf(_)));
}

#[test]
fn shelf_request_discovers_a_new_repository() {
    let catalog = scan(&with(&[("new-repo/README.md", "# New Collection")]), &["", "new-repo"]);
    let shelf = shelf_view(&catalog);
    assert_eq!(shelf.collections.len(), 2);
    assert_eq!(shelf.collections[1].name, "new-repo");
    assert_eq!(shelf.collections[1].href, "/_mdfolio/doc/new-repo/README.md");
    assert_eq!(shelf.collections[1].filter_value, "new-repo new-repo");
    assert!(!shelf.collections[1].has_qualifier);
}

#[test]
fn shelves_list_loose_documents_last_and_filter_long_lists() {
    let files = [
        ("a/Kit/x.md", ""),
        ("b/kit/x.md", ""),
        ("c/x.md", ""),
        ("d/x.md", ""),
        ("loose/x.md", ""),
    ];
    let shelf = shelf_view(&scan(&files, &["a/Kit", "b/kit", "c", "d"]));
    assert_eq!(shelf.collections.len(), 5);
    assert!(shelf.show_filter);
    assert!(!shelf.empty);
    assert_eq!(shelf.collections[0].qualifier, "a");
    assert!(shelf.collections[0].has_qualifier);
    assert_eq!(shelf.collections[0].filter_value, "kit a/kit");
    assert_eq!(shelf.collections[4].name, "Loose folios");
    assert_eq!(shelf.collections[4].filter_value, "loose folios");
    assert_eq!(shelf.collections[4].href, "/_mdfolio/doc/loose/x.md");
    assert!(!shelf_view(&scan(&files[1..], &["b/kit", "c", "d"])).show_filter);
}

#[test]
fn pages_show_the_catalog_they_were_opened_from() {
    let mut files = FILES.to_vec();
    files[0] = ("README.md", "# Revised Book\n\nRead the [new page](new-page).");
    files.push(("new-page.md", "# Newly Added"));
    let catalog = scan(&files, &[""]);
    let session = ReaderSession::open(Arc::clone(&catalog), "README.md").unwrap();
    let page = session.page("<p>body</p>".to_owned());
    assert_eq!(page.page_title, "Revised Book — mdfolio");
    assert_eq!(page.body_class, "reader-page");
    assert_eq!(page.library_name, "library");
    assert!(!page.show_shelf_link);
    assert_eq!(page.document_path, "README.md");
    assert_eq!(page.article_html, "<p>body</p>");
    assert_eq!(page.navigation.len(), 3);
    assert_eq!(page.navigation[1].title, "Newly Added");
    assert_eq!(page.navigation[1].href, "/_mdfolio/doc/new-page.md");
    assert_eq!(page.navigation[1].filter_value, "newly added new-page.md");
    let current: Vec<bool> = page.navigation.iter().map(|entry| entry.current).collect();
    assert_eq!(current, [true, false, false]);

    files[4] = ("renamed.md", "# Newly Added");
    let catalog = scan(&files, &[""]);
    assert!(ReaderSession::open(Arc::clone(&catalog), "new-page.md").is_err());
    assert!(ReaderSession::open(Arc::clone(&catalog), "renamed.md").is_ok());
    assert!(navigation_for(&catalog, 99).is_empty());
}

#[test]
fn loose_pages_stand_in_the_loose_collection() {
    let catalog = scan(&[("kit/a.md", ""), ("b.md", ""), ("c.md", "")], &["kit"]);
    let session = ReaderSession::open(Arc::clone(&catalog), "c.md").unwrap();
    assert_eq!(session.document().relative_path, path("c.md"));
    let page = session.page(String::new());
    assert_eq!(page.library_name, "Loose folios");
    assert!(page.show_shelf_link);
    let paths: Vec<&str> = page.navigation.iter().map(|entry| entry.path.as_str()).collect();
    assert_eq!(paths, ["b.md", "c.md"]);
}

#[test]
fn pages_are_read_only_inside_the_library() {
    let session = ReaderSession::open(fixture(), "README.md").unwrap();
    assert_eq!(
        session.confine(found("/library/README.md")).unwrap(),
        b"/library/README.md".to_vec()
    );
    let error = session.confine(found("/elsewhere/README.md")).unwrap_err();
    assert_eq!(error.heading, "Page unavailable");
    assert_eq!(error.status, "404");
    assert!(session.confine(None).is_err());
}

#[test]
fn refreshing_a_missing_target_redirects_when_the_document_appears() {
    let MissingReply::NotFound(error) = missing_reply(&fixture(), "future") else {
        panic!("nothing is there yet");
    };
    assert_eq!(error.code, Status::NotFound);
    assert_eq!(
        error.message,
        "No readable Markdown or allowed attachment matched “future”."
    );

    let catalog = scan(&with(&[("future.md", "# Future")]), &[""]);
    let MissingReply::Redirect(location) = missing_reply(&catalog, "future") else {
        panic!("the document is there");
    };
    assert_eq!(location, "/_mdfolio/doc/future.md");
    assert!(matches!(missing_reply(&catalog, "../future"), MissingReply::NotFound(_)));
}

#[test]
fn failed_refreshes_return_service_unavailable_without_stale_content() {
    let error = ScanError::Inspect { path: b"/library".to_vec(), source: "gone".to_owned() };
    let page = catalog_unavailable(&CatalogLoadError::Scan(error));
    assert_eq!(page.code, Status::ServiceUnavailable);
    assert_eq!(page.code.code(), 503);
    assert_eq!(page.heading, "Library unavailable");
    assert_eq!(
        page.message,
        "mdfolio failed to refresh the Markdown library: cannot inspect /library: gone"
    );
    assert!(!page.message.contains("A Quiet Book"));
    let page = catalog_unavailable(&CatalogLoadError::Task("panicked".to_owned()));
    assert_eq!(
        page.message,
        "mdfolio failed to refresh the Markdown library: the catalog scan stopped unexpectedly: panicked"
    );
}

#[test]
fn removed_event_endpoint_is_not_found() {
    let page = not_found();
    assert_eq!(page.code, Status::NotFound);
    assert_eq!(page.page_title, "Page not found — mdfolio");
    assert_eq!(page.message, "There is nothing at this address in the current folio.");
}

#[test]
fn markdown_reads_are_bounded() {
    let error = read_markdown(&vec![b'x'; MAX_MARKDOWN_BYTES as usize + 1]).unwrap_err();

    assert_eq!(error.status(), Status::PayloadTooLarge);
    assert_eq!(error.status().code(), 413);
    assert!(read_markdown(&vec![b'x'; MAX_MARKDOWN_BYTES as usize]).is_ok());
    assert_eq!(accept_length(MAX_MARKDOWN_BYTES), Ok(()));
    assert_eq!(accept_length(MAX_MARKDOWN_BYTES + 1), Err(MarkdownReadError::TooLarge));
}

#[test]
fn reading_errors_have_a_status_and_a_reason() {
    assert_eq!(read_markdown(b"\xff"), Err(MarkdownReadError::InvalidUtf8));
    assert_eq!(read_markdown("é".as_bytes()), Ok("é".to_owned()));
    let page = read_failed(&MarkdownReadError::InvalidUtf8);
    assert_eq!(page.code.code(), 422);
    assert_eq!(page.status, "422");
    assert_eq!(
        page.message,
        "mdfolio failed to read the Markdown file: this Markdown page is not valid UTF-8"
    );
    let page = read_failed(&MarkdownReadError::TooLarge);
    assert_eq!(
        page.message,
        "mdfolio failed to read the Markdown file: this Markdown page exceeds the 16 MiB reading limit"
    );
    let error = MarkdownReadError::Io { kind: IoFailure::Other, reason: "disk".to_owned() };
    assert_eq!(error.status(), Status::InternalServerError);
    assert_eq!(error.message(), "disk");
    assert_eq!(status_for_io_error(IoFailure::NotFound), Status::NotFound);
    assert_eq!(status_for_io_error(IoFailure::PermissionDenied), Status::NotFound);
    let page = rendering_failed("panic");
    assert_eq!(page.code.code(), 500);
    assert_eq!(page.message, "The page renderer stopped unexpectedly: panic");
    let page = error_view(Status::NotFound, "H", "M");
    assert_eq!(page.body_class, "error-page");
}

#[test]
fn security_headers_do_not_weaken_the_policy_of_pages() {
    let headers = security_headers(&Vec::new());
    let csp = value(&headers, "content-security-policy").unwrap();
    assert!(csp.contains("script-src 'self'"));
    assert!(csp.contains("connect-src 'none'"));
    assert!(!csp.contains("'unsafe-inline'"));
    assert_eq!(value(&headers, "x-content-type-options"), Some("nosniff"));
    assert_eq!(value(&headers, "referrer-policy"), Some("no-referrer"));
    assert_eq!(value(&headers, "x-frame-options"), Some("DENY"));
    assert_eq!(security_headers(&vec!["x-frame-options".to_owned()]).len(), 3);
}

#[test]
fn addresses_open_their_documents() {
    let catalog = scan(
        &[
            ("notes/a quiet day é.md", ""),
            ("100%25.md", ""),
            ("100%.md", ""),
            ("a%20b.md", ""),
            ("a b.md", ""),
        ],
        &[],
    );
    assert_eq!(document_url(&path("a%20b.md")), "/_mdfolio/doc/a%2520b.md");
    for document in catalog.documents() {
        let address = document_url(&document.relative_path);
        let asked = requested_path(&address, Route::Document).unwrap();
        let session = ReaderSession::open(Arc::clone(&catalog), &asked).unwrap();
        assert_eq!(session.document().id, document.id);
        assert_eq!(session.document().relative_path, document.relative_path);
    }
}

#[test]
fn addresses_ask_for_paths_as_they_stand_there() {
    let asked = requested_path("/_mdfolio/doc/a%20b.md", Route::Document);
    assert_eq!(asked.as_deref(), Some("a%20b.md"));
    let asked = requested_path("/_mdfolio/asset/a/b.png", Route::Asset);
    assert_eq!(asked.as_deref(), Some("a/b.png"));
    let asked = requested_path("/_mdfolio/missing/x", Route::Missing);
    assert_eq!(asked.as_deref(), Some("x"));
    assert_eq!(requested_path("/_mdfolio/doc", Route::Document), None);
    assert_eq!(requested_path("/_mdfolio/doc/a.md", Route::Asset), None);
    let request = AssetRequest::open("100%2525.png").unwrap();
    assert_eq!(*request.relative_path(), path("100%25.png"));
}

#[test]
fn missing_targets_are_named_in_words() {
    let message = |asked: &str| match missing_reply(&fixture(), asked) {
        MissingReply::NotFound(view) => view.message,
        MissingReply::Redirect(location) => panic!("{location}"),
    };
    assert_eq!(
        message("a%20b"),
        "No readable Markdown or allowed attachment matched “a b”."
    );
    assert_eq!(
        message("%FF"),
        "No readable Markdown or allowed attachment matched “%FF”."
    );
}

#[test]
fn a_file_within_a_directory_of_the_library_is_within_the_library() {
    assert!(is_within(b"/library/a/b.png", b"/library/a"));
    assert!(is_within(b"/library/a", b"/library"));
    assert!(is_within(b"/library/a/b.png", b"/library"));
}

#[test]
fn files_of_the_reader_have_their_type() {
    for (file, content_type) in [
        (StaticFile::Style, "text/css; charset=utf-8"),
        (StaticFile::Script, "text/javascript; charset=utf-8"),
        (StaticFile::Favicon, "image/svg+xml"),
    ] {
        let headers = static_headers(file);
        assert_eq!(value(&headers, "content-type"), Some(content_type));
        assert_eq!(value(&headers, "cache-control"), Some("no-cache"));
    }
}
