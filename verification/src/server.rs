//! What the server decides: which files a request may reach, what is read of them, and which
//! headers a reply has.

use vstd::prelude::*;
use vstd::utf8::{decode_utf8, encode_utf8, valid_utf8};
use std::sync::Arc;
use crate::catalog::{
    document_at, document_views, resolved_target, scan_reason, Catalog, CatalogView, Document,
    DocumentId, ScanError,
};
use crate::markdown::{asset_kind, kind_of, media_type, AssetKind, ImageFormat};
use crate::pages::{
    error_content, error_view, reader_content, reader_view, ErrorContent, ErrorView, ReaderView,
    Status,
};
use crate::pathing::{
    document_address, document_url, normalize_library_path, normalized, percent_decode,
    percent_decoded, APP_PREFIX,
};
use crate::paths::LibraryPath;
use crate::places::{is_within, lies_within};
use crate::text::{
    begins_with, chars_of, slice_begins_with, text_eq, text_from_utf8, text_of,
};

verus! {

broadcast use vstd::string::group_string_axioms;

/// The largest Markdown file that is read.
pub const MAX_MARKDOWN_BYTES: u64 = 16777216;

/// The size of the pieces in which an asset is sent.
pub const ASSET_CHUNK_BYTES: usize = 65536;

// ---------------------------------------------------------------------------
// Confinement
// ---------------------------------------------------------------------------

/// A file that a request asks for, where it really lies.
#[derive(Debug)]
pub struct FoundFile {
    pub canonical: Vec<u8>,
    pub is_file: bool,
}

/// Whether a file may be read: it is there, it is a file, and it really lies in the library.
pub open spec fn readable_file(root: Seq<u8>, found: Option<FoundFile>) -> bool {
    found matches Some(file) && lies_within(file.canonical@, root) && file.is_file
}

/// Where a file may be read, if it may be.
#[must_use]
pub fn confined_path(root: &[u8], found: Option<FoundFile>) -> (res: Option<Vec<u8>>)
    ensures
        res is Some <==> readable_file(root@, found),
        res matches Some(path) ==> path@ == found->0.canonical@,
{
    match found {
        Some(file) => if is_within(file.canonical.as_slice(), root) && file.is_file {
            Some(file.canonical)
        } else {
            None
        },
        None => None,
    }
}

// ---------------------------------------------------------------------------
// Reading
// ---------------------------------------------------------------------------

/// Why the file system refuses.
#[derive(Clone, Copy, Debug, PartialEq, Eq, Structural)]
pub enum IoFailure {
    NotFound,
    PermissionDenied,
    Other,
}

/// Why a Markdown file cannot be read.
#[derive(Debug, PartialEq, Eq)]
pub enum MarkdownReadError {
    Io { kind: IoFailure, reason: String },
    TooLarge,
    InvalidUtf8,
}

/// The status of a reply about an error of the file system.
pub open spec fn io_status(kind: IoFailure) -> Status {
    match kind {
        IoFailure::NotFound => Status::NotFound,
        IoFailure::PermissionDenied => Status::NotFound,
        IoFailure::Other => Status::InternalServerError,
    }
}

/// The status of a reply about an error of the file system.
#[must_use]
pub fn status_for_io_error(kind: IoFailure) -> (res: Status)
    ensures
        res == io_status(kind),
{
    match kind {
        IoFailure::NotFound => Status::NotFound,
        IoFailure::PermissionDenied => Status::NotFound,
        IoFailure::Other => Status::InternalServerError,
    }
}

/// The status of a reply about a file that cannot be read.
pub open spec fn read_status(error: MarkdownReadError) -> Status {
    match error {
        MarkdownReadError::Io { kind, reason } => io_status(kind),
        MarkdownReadError::TooLarge => Status::PayloadTooLarge,
        MarkdownReadError::InvalidUtf8 => Status::UnprocessableEntity,
    }
}

/// The reason why a file cannot be read, in words.
pub open spec fn read_reason(error: MarkdownReadError) -> Seq<char> {
    match error {
        MarkdownReadError::Io { kind, reason } => reason@,
        MarkdownReadError::TooLarge => "this Markdown page exceeds the 16 MiB reading limit"@,
        MarkdownReadError::InvalidUtf8 => "this Markdown page is not valid UTF-8"@,
    }
}

impl MarkdownReadError {
    /// The status of a reply about the error.
    #[must_use]
    pub fn status(&self) -> (res: Status)
        ensures
            res == read_status(*self),
    {
        match self {
            MarkdownReadError::Io { kind, reason: _ } => status_for_io_error(*kind),
            MarkdownReadError::TooLarge => Status::PayloadTooLarge,
            MarkdownReadError::InvalidUtf8 => Status::UnprocessableEntity,
        }
    }

    /// The error in words.
    #[must_use]
    pub fn message(&self) -> (res: String)
        ensures
            res@ == read_reason(*self),
    {
        match self {
            MarkdownReadError::Io { kind: _, reason } => reason.as_str().to_owned(),
            MarkdownReadError::TooLarge =>
                "this Markdown page exceeds the 16 MiB reading limit".to_owned(),
            MarkdownReadError::InvalidUtf8 => "this Markdown page is not valid UTF-8".to_owned(),
        }
    }
}

/// Whether a file of this length is read at all.
pub open spec fn accepted_length(length: u64) -> Result<(), MarkdownReadError> {
    if length > MAX_MARKDOWN_BYTES {
        Err(MarkdownReadError::TooLarge)
    } else {
        Ok(())
    }
}

/// Whether a file of this length is read at all.
pub fn accept_length(length: u64) -> (res: Result<(), MarkdownReadError>)
    ensures
        res == accepted_length(length),
{
    if length > MAX_MARKDOWN_BYTES {
        Err(MarkdownReadError::TooLarge)
    } else {
        Ok(())
    }
}

/// Whether this is what is read from a file: its Markdown, or that it is too large, or else that
/// it is not UTF-8.
pub open spec fn is_read(contents: Seq<u8>, read: Result<String, MarkdownReadError>) -> bool {
    &&& contents.len() > MAX_MARKDOWN_BYTES ==> read == Err::<String, MarkdownReadError>(
        MarkdownReadError::TooLarge,
    )
    &&& contents.len() <= MAX_MARKDOWN_BYTES && !valid_utf8(contents) ==> read == Err::<
        String,
        MarkdownReadError,
    >(MarkdownReadError::InvalidUtf8)
    &&& contents.len() <= MAX_MARKDOWN_BYTES && valid_utf8(contents) ==> (read matches Ok(text)
        && text@ == decode_utf8(contents))
}

/// The Markdown in a file, of which at most one byte more than the limit was read.
pub fn read_markdown(contents: &[u8]) -> (res: Result<String, MarkdownReadError>)
    ensures
        is_read(contents@, res),
{
    if contents.len() > MAX_MARKDOWN_BYTES as usize {
        return Err(MarkdownReadError::TooLarge);
    }
    match text_from_utf8(contents) {
        Some(text) => Ok(text.to_owned()),
        None => Err(MarkdownReadError::InvalidUtf8),
    }
}

// ---------------------------------------------------------------------------
// Requests
// ---------------------------------------------------------------------------

/// Why a library cannot be shown.
#[derive(Debug)]
pub enum CatalogLoadError {
    Scan(ScanError),
    Task(String),
}

impl CatalogLoadError {
    /// The error in words.
    pub open spec fn reason(&self) -> Seq<char> {
        match self {
            CatalogLoadError::Scan(error) => scan_reason(*error),
            CatalogLoadError::Task(reason) => "the catalog scan stopped unexpectedly: "@ + reason@,
        }
    }

    /// The error in words.
    #[must_use]
    pub fn message(&self) -> (res: String)
        ensures
            res@ == self.reason(),
    {
        match self {
            CatalogLoadError::Scan(error) => error.message(),
            CatalogLoadError::Task(reason) =>
                "the catalog scan stopped unexpectedly: ".to_owned().concat(reason.as_str()),
        }
    }
}

/// The page where the library cannot be shown.
pub open spec fn unavailable_content(error: CatalogLoadError) -> ErrorContent {
    error_content(
        Status::ServiceUnavailable,
        "Library unavailable"@,
        "mdfolio failed to refresh the Markdown library: "@ + error.reason(),
    )
}

/// The reply where the library cannot be shown.
#[must_use]
pub fn catalog_unavailable(error: &CatalogLoadError) -> (res: ErrorView)
    ensures
        res@ == unavailable_content(*error),
{
    let message: String = "mdfolio failed to refresh the Markdown library: ".to_owned().concat(
        error.message().as_str(),
    );
    error_view(Status::ServiceUnavailable, "Library unavailable", message.as_str())
}

/// The page where there is nothing at an address.
pub open spec fn nothing_content() -> ErrorContent {
    error_content(
        Status::NotFound,
        "Page not found"@,
        "There is nothing at this address in the current folio."@,
    )
}

/// The reply where there is nothing at an address.
#[must_use]
pub fn not_found() -> (res: ErrorView)
    ensures
        res@ == nothing_content(),
{
    error_view(
        Status::NotFound,
        "Page not found",
        "There is nothing at this address in the current folio.",
    )
}

/// The addresses under which paths of the library are requested.
#[derive(Clone, Copy, Debug, PartialEq, Eq, Structural)]
pub enum Route {
    Document,
    Asset,
    Missing,
}

/// What the addresses of a route begin with.
pub open spec fn route_prefix(route: Route) -> Seq<char> {
    match route {
        Route::Document => APP_PREFIX@ + "/doc/"@,
        Route::Asset => APP_PREFIX@ + "/asset/"@,
        Route::Missing => APP_PREFIX@ + "/missing/"@,
    }
}

/// The path that an address of a route asks for, as it stands there: still encoded.
pub open spec fn asked_path(address: Seq<char>, route: Route) -> Option<Seq<char>> {
    if begins_with(address, route_prefix(route)) {
        Some(address.skip(route_prefix(route).len() as int))
    } else {
        None
    }
}

/// The path that an address of a route asks for, as it stands there. It is decoded only once, by
/// whatever reads it as a path of the library.
#[must_use]
pub fn requested_path(address: &str, route: Route) -> (res: Option<String>)
    ensures
        res is Some <==> asked_path(address@, route) is Some,
        res matches Some(path) ==> Some(path@) == asked_path(address@, route),
{
    let kind: &str = match route {
        Route::Document => "/doc/",
        Route::Asset => "/asset/",
        Route::Missing => "/missing/",
    };
    let prefix: String = APP_PREFIX.to_owned().concat(kind);
    let prefix: Vec<char> = chars_of(prefix.as_str());
    let chars: Vec<char> = chars_of(address);
    if !slice_begins_with(chars.as_slice(), prefix.as_slice()) {
        return None;
    }
    let path: &[char] = vstd::slice::slice_subrange(chars.as_slice(), prefix.len(), chars.len());
    assert(path@ =~= address@.skip(prefix@.len() as int));
    Some(text_of(path))
}

/// A requested path in words: decoded, where that gives text.
pub open spec fn readable_path(path: Seq<char>) -> Seq<char> {
    let decoded = percent_decoded(encode_utf8(path));
    if valid_utf8(decoded) {
        decode_utf8(decoded)
    } else {
        path
    }
}

/// The reply to a request for a target that a link did not find.
#[derive(Debug)]
pub enum MissingReply {
    Redirect(String),
    NotFound(ErrorView),
}

/// The document that a requested path stands for by now.
pub open spec fn requested_target(c: CatalogView, path: Seq<char>) -> Option<int> {
    match normalized(Seq::empty(), path) {
        Some(target) => resolved_target(c.documents, target),
        None => None,
    }
}

/// Whether a reply is that to a request for a target that a link did not find: where it is there by
/// now, a redirect to it.
pub open spec fn answers_missing(reply: MissingReply, c: CatalogView, path: Seq<char>) -> bool {
    match requested_target(c, path) {
        Some(d) => reply matches MissingReply::Redirect(location) && location@ == document_address(
            c.documents[d].path,
        ),
        None => reply matches MissingReply::NotFound(page) && page@ == error_content(
            Status::NotFound,
            "Page not found"@,
            "No readable Markdown or allowed attachment matched “"@ + readable_path(path) + "”."@,
        ),
    }
}

/// The reply to a request for a target that a link did not find, by its path as it stands in an
/// address.
#[must_use]
pub fn missing_reply(catalog: &Catalog, path: &str) -> (res: MissingReply)
    ensures
        answers_missing(res, catalog@, path@),
{
    let top: LibraryPath = LibraryPath::empty();
    assert(top@ =~= Seq::empty());
    if let Some(target) = normalize_library_path(&top, path) {
        if let Some(document) = catalog.resolve_document_target(&target) {
            return MissingReply::Redirect(document_url(&document.relative_path));
        }
    }
    let asked: String = match percent_decode(path) {
        Some(text) => text,
        None => path.to_owned(),
    };
    let message: String = "No readable Markdown or allowed attachment matched “".to_owned().concat(
        asked.as_str(),
    ).concat("”.");
    MissingReply::NotFound(error_view(Status::NotFound, "Page not found", message.as_str()))
}

/// The document at a requested path, as it stands in an address.
pub open spec fn opened_document(c: CatalogView, path: Seq<char>) -> Option<int> {
    match normalized(Seq::empty(), path) {
        Some(target) => document_at(c.documents, target),
        None => None,
    }
}

/// Whether this is what a request for the document at a path comes to: the document, or a page that
/// says why there is none.
pub open spec fn answers_request(
    reply: Result<ReaderSession, ErrorView>,
    c: CatalogView,
    path: Seq<char>,
) -> bool {
    match normalized(Seq::empty(), path) {
        None => reply matches Err(page) && page@ == error_content(
            Status::NotFound,
            "Page not found"@,
            "That path leaves the selected library."@,
        ),
        Some(target) => match document_at(c.documents, target) {
            None => reply matches Err(page) && page@ == error_content(
                Status::NotFound,
                "Page not found"@,
                "That Markdown file is not in this folio."@,
            ),
            Some(d) => reply matches Ok(session) && session.library() == c && session.chosen() == d
                && 0 <= d < c.documents.len() && c.documents[d].path == target,
        },
    }
}

/// Whether this is what a request comes to when its file was looked for: where the file may be
/// read, or a page that says that it may not.
pub open spec fn answers_found(
    reply: Result<Vec<u8>, ErrorView>,
    root: Seq<u8>,
    found: Option<FoundFile>,
) -> bool {
    match reply {
        Ok(path) => readable_file(root, found) && path@ == found->0.canonical@,
        Err(page) => !readable_file(root, found) && page@ == error_content(
            Status::NotFound,
            "Page unavailable"@,
            "The file moved or is no longer readable beneath this library."@,
        ),
    }
}

/// A request for a document, from when the document is known to be in the library.
#[derive(Debug)]
pub struct ReaderSession {
    catalog: Arc<Catalog>,
    document: DocumentId,
}

impl ReaderSession {
    /// The document is one of the catalog.
    #[verifier::type_invariant]
    pub closed spec fn well_formed(&self) -> bool {
        self.document < self.catalog@.documents.len()
    }

    /// The catalog that the document is in.
    pub closed spec fn library(&self) -> CatalogView {
        self.catalog@
    }

    /// The document.
    pub closed spec fn chosen(&self) -> int {
        self.document as int
    }

    /// The request for the document at a path, as it stands in an address, or the reply where
    /// there is none.
    pub fn open(catalog: Arc<Catalog>, path: &str) -> (res: Result<ReaderSession, ErrorView>)
        ensures
            answers_request(res, catalog@, path@),
    {
        let top: LibraryPath = LibraryPath::empty();
        assert(top@ =~= Seq::empty());
        let target: LibraryPath = match normalize_library_path(&top, path) {
            Some(target) => target,
            None => {
                return Err(
                    error_view(
                        Status::NotFound,
                        "Page not found",
                        "That path leaves the selected library.",
                    ),
                );
            },
        };
        let document: DocumentId = match catalog.document_by_path(&target) {
            Some(document) => document.id,
            None => {
                return Err(
                    error_view(
                        Status::NotFound,
                        "Page not found",
                        "That Markdown file is not in this folio.",
                    ),
                );
            },
        };
        Ok(ReaderSession { catalog, document })
    }

    /// The document.
    #[must_use]
    pub fn document(&self) -> (res: &Document)
        ensures
            0 <= self.chosen() < self.library().documents.len(),
            res@ == self.library().documents[self.chosen()],
            res.id == self.chosen(),
    {
        proof {
            use_type_invariant(self);
        }
        let documents: &[Document] = self.catalog.documents();
        proof {
            use_type_invariant(&*self.catalog);
            assert(document_views(documents@)[self.document as int]
                == documents@[self.document as int]@);
            assert(self.catalog@.documents[self.document as int].id == self.document);
        }
        &documents[self.document]
    }

    /// Where the file of the document may be read, or the reply where it may not be.
    pub fn confine(&self, found: Option<FoundFile>) -> (res: Result<Vec<u8>, ErrorView>)
        ensures
            answers_found(res, self.library().root, found),
    {
        match confined_path(self.catalog.root(), found) {
            Some(path) => Ok(path),
            None => Err(
                error_view(
                    Status::NotFound,
                    "Page unavailable",
                    "The file moved or is no longer readable beneath this library.",
                ),
            ),
        }
    }

    /// The page that shows the document.
    #[must_use]
    pub fn page(&self, article_html: String) -> (res: ReaderView)
        ensures
            res@ == reader_content(self.library(), self.chosen(), article_html@),
    {
        reader_view(&self.catalog, self.document(), article_html)
    }
}

/// The page where a Markdown file cannot be read.
pub open spec fn unread_content(error: MarkdownReadError) -> ErrorContent {
    error_content(
        read_status(error),
        "Page unavailable"@,
        "mdfolio failed to read the Markdown file: "@ + read_reason(error),
    )
}

/// The reply where a Markdown file cannot be read.
#[must_use]
pub fn read_failed(error: &MarkdownReadError) -> (res: ErrorView)
    ensures
        res@ == unread_content(*error),
{
    let message: String = "mdfolio failed to read the Markdown file: ".to_owned().concat(
        error.message().as_str(),
    );
    error_view(error.status(), "Page unavailable", message.as_str())
}

/// The page where a page cannot be rendered.
pub open spec fn unrendered_content(reason: Seq<char>) -> ErrorContent {
    error_content(
        Status::InternalServerError,
        "Rendering failed"@,
        "The page renderer stopped unexpectedly: "@ + reason,
    )
}

/// The reply where a page cannot be rendered.
#[must_use]
pub fn rendering_failed(reason: &str) -> (res: ErrorView)
    ensures
        res@ == unrendered_content(reason@),
{
    let message: String = "The page renderer stopped unexpectedly: ".to_owned().concat(reason);
    error_view(Status::InternalServerError, "Rendering failed", message.as_str())
}

// ---------------------------------------------------------------------------
// Headers
// ---------------------------------------------------------------------------

/// A header of a reply.
#[derive(Debug)]
pub struct Header {
    pub name: &'static str,
    pub value: String,
}

/// The name and the value of a header.
pub struct HeaderText {
    pub name: Seq<char>,
    pub value: Seq<char>,
}

impl View for Header {
    type V = HeaderText;

    open spec fn view(&self) -> HeaderText {
        HeaderText { name: self.name@, value: self.value@ }
    }
}

/// The names and the values of headers.
pub open spec fn header_texts(headers: Seq<Header>) -> Seq<HeaderText> {
    headers.map_values(|header: Header| header@)
}

/// A header.
fn header(name: &'static str, value: &str) -> (res: Header)
    ensures
        res@ == (HeaderText { name: name@, value: value@ }),
{
    Header { name, value: value.to_owned() }
}

/// Whether a character may stand in the value of a header: no control but the tab.
pub open spec fn header_char(c: char) -> bool {
    (c >= ' ' && c != '\u{7f}') || c == '\t'
}

/// Whether text may be the value of a header.
pub open spec fn header_value(text: Seq<char>) -> bool {
    forall|i: int| 0 <= i < text.len() ==> header_char(#[trigger] text[i])
}

/// `axum::http::HeaderValue::from_str`: succeeds for text without controls, the tab aside.
/// Every byte of a character outside ASCII is accepted.
#[verifier::external_body]
fn is_header_value(text: &str) -> (res: bool)
    ensures
        res == header_value(text@),
{
    axum::http::HeaderValue::from_str(text).is_ok()
}

/// A file name with quotation marks and backslashes replaced.
pub open spec fn quoted_name(name: Seq<char>) -> Seq<char> {
    name.map_values(
        |c: char|
            if c == '"' || c == '\\' {
                '_'
            } else {
                c
            },
    )
}

/// The name under which an attachment is saved.
pub open spec fn attachment_name(path: Seq<Seq<u8>>) -> Seq<char> {
    if path.len() > 0 && valid_utf8(path.last()) {
        decode_utf8(path.last())
    } else {
        "attachment.pdf"@
    }
}

/// What tells a browser to save an attachment.
pub open spec fn disposition(path: Seq<Seq<u8>>) -> Seq<char> {
    "attachment; filename=\""@ + quoted_name(attachment_name(path)) + "\""@
}

/// A file name with quotation marks and backslashes replaced.
fn quote_name(name: &str) -> (res: String)
    ensures
        res@ == quoted_name(name@),
{
    let chars: Vec<char> = chars_of(name);
    let mut out: Vec<char> = Vec::new();
    let mut i: usize = 0;
    while i < chars.len()
        invariant
            i <= chars.len(),
            out@.len() == i,
            forall|j: int| 0 <= j < i ==> out@[j] == quoted_name(chars@)[j],
        decreases chars.len() - i,
    {
        let c: char = chars[i];
        if c == '"' || c == '\\' {
            out.push('_');
        } else {
            out.push(c);
        }
        i += 1;
    }
    assert(out@ =~= quoted_name(chars@));
    text_of(out.as_slice())
}

/// What tells a browser to save an attachment.
fn disposition_of(path: &LibraryPath) -> (res: String)
    ensures
        res@ == disposition(path@),
{
    let name: String = match path.file_name() {
        Some(name) => match text_from_utf8(name) {
            Some(text) => text.to_owned(),
            None => "attachment.pdf".to_owned(),
        },
        None => "attachment.pdf".to_owned(),
    };
    "attachment; filename=\"".to_owned().concat(quote_name(name.as_str()).as_str()).concat("\"")
}

/// The policy under which an SVG image is shown by itself.
pub const SVG_POLICY: &'static str = "sandbox; default-src 'none'; style-src 'unsafe-inline'";

/// The headers of an asset: its type, that it is not stored, and for a PDF that it is saved, for
/// an SVG image that it is sandboxed.
pub open spec fn asset_header_texts(path: Seq<Seq<u8>>, kind: AssetKind) -> Seq<HeaderText> {
    let common = seq![
        HeaderText { name: "content-type"@, value: media_type(kind) },
        HeaderText { name: "cache-control"@, value: "no-store"@ },
    ];
    if kind == AssetKind::Pdf {
        if header_value(disposition(path)) {
            common.push(
                HeaderText { name: "content-disposition"@, value: disposition(path) },
            )
        } else {
            common
        }
    } else if kind == AssetKind::Image(ImageFormat::Svg) {
        common.push(HeaderText { name: "content-security-policy"@, value: SVG_POLICY@ })
    } else {
        common
    }
}

/// The asset that a requested path stands for, as it stands in an address: none where the path
/// leaves the library or is neither that of an image nor that of a PDF.
pub open spec fn requested_asset(path: Seq<char>) -> Option<Seq<Seq<u8>>> {
    match normalized(Seq::empty(), path) {
        Some(target) => if kind_of(target) is Some {
            Some(target)
        } else {
            None
        },
        None => None,
    }
}

/// A request for an image or an attachment.
#[derive(Debug)]
pub struct AssetRequest {
    relative_path: LibraryPath,
    kind: AssetKind,
}

impl AssetRequest {
    /// The kind is that of the path.
    #[verifier::type_invariant]
    pub closed spec fn well_formed(&self) -> bool {
        kind_of(self.relative_path@) == Some(self.kind)
    }

    /// The path that is requested.
    pub closed spec fn target(&self) -> Seq<Seq<u8>> {
        self.relative_path@
    }

    /// The request for the asset at a path, as it stands in an address.
    pub fn open(path: &str) -> (res: Option<AssetRequest>)
        ensures
            res is Some <==> requested_asset(path@) is Some,
            res matches Some(request) ==> Some(request.target()) == requested_asset(path@),
    {
        let top: LibraryPath = LibraryPath::empty();
        assert(top@ =~= Seq::empty());
        match normalize_library_path(&top, path) {
            Some(relative_path) => match asset_kind(&relative_path) {
                Some(kind) => Some(AssetRequest { relative_path, kind }),
                None => None,
            },
            None => None,
        }
    }

    /// The path that is requested.
    #[must_use]
    pub fn relative_path(&self) -> (res: &LibraryPath)
        ensures
            res@ == self.target(),
    {
        &self.relative_path
    }

    /// The headers of the reply.
    #[must_use]
    pub fn headers(&self) -> (res: Vec<Header>)
        ensures
            kind_of(self.target()) matches Some(kind) && header_texts(res@) == asset_header_texts(
                self.target(),
                kind,
            ),
    {
        proof {
            use_type_invariant(self);
        }
        let mut headers: Vec<Header> = Vec::new();
        headers.push(header("content-type", self.kind.content_type()));
        headers.push(header("cache-control", "no-store"));
        if self.kind.is_pdf() {
            let value: String = disposition_of(&self.relative_path);
            if is_header_value(value.as_str()) {
                headers.push(header("content-disposition", value.as_str()));
            }
        } else if self.kind.is_svg() {
            headers.push(header("content-security-policy", SVG_POLICY));
        }
        assert(header_texts(headers@) =~= asset_header_texts(self.target(), self.kind));
        headers
    }
}

/// The files that come with the reader.
#[derive(Clone, Copy, Debug, PartialEq, Eq, Structural)]
pub enum StaticFile {
    Style,
    Script,
    Favicon,
}

/// The media type of a file that comes with the reader.
pub open spec fn static_type(file: StaticFile) -> Seq<char> {
    match file {
        StaticFile::Style => "text/css; charset=utf-8"@,
        StaticFile::Script => "text/javascript; charset=utf-8"@,
        StaticFile::Favicon => "image/svg+xml"@,
    }
}

/// The headers of a file that comes with the reader: its type, and that it is checked again.
pub open spec fn static_header_texts(file: StaticFile) -> Seq<HeaderText> {
    seq![
        HeaderText { name: "content-type"@, value: static_type(file) },
        HeaderText { name: "cache-control"@, value: "no-cache"@ },
    ]
}

/// The headers of a file that comes with the reader.
#[must_use]
pub fn static_headers(file: StaticFile) -> (res: Vec<Header>)
    ensures
        header_texts(res@) == static_header_texts(file),
{
    let content_type: &'static str = match file {
        StaticFile::Style => "text/css; charset=utf-8",
        StaticFile::Script => "text/javascript; charset=utf-8",
        StaticFile::Favicon => "image/svg+xml",
    };
    let mut headers: Vec<Header> = Vec::new();
    headers.push(header("content-type", content_type));
    headers.push(header("cache-control", "no-cache"));
    assert(header_texts(headers@) =~= static_header_texts(file));
    headers
}

/// The policy under which pages are shown.
pub const PAGE_POLICY: &'static str = "default-src 'self'; img-src 'self' http: https:; style-src 'self'; script-src 'self'; connect-src 'none'; object-src 'none'; base-uri 'none'; frame-ancestors 'none'";

/// The headers that every reply has, with the values that they have where nothing else is set.
pub open spec fn security_texts() -> Seq<HeaderText> {
    seq![
        HeaderText { name: "x-content-type-options"@, value: "nosniff"@ },
        HeaderText { name: "content-security-policy"@, value: PAGE_POLICY@ },
        HeaderText { name: "referrer-policy"@, value: "no-referrer"@ },
        HeaderText { name: "x-frame-options"@, value: "DENY"@ },
    ]
}

/// Whether a name is among those present.
pub open spec fn is_present(present: Seq<String>, name: Seq<char>) -> bool {
    exists|i: int| 0 <= i < present.len() && (#[trigger] present[i])@ == name
}

/// The first `n` of the headers that every reply has, without those that are present.
pub open spec fn added_headers(present: Seq<String>, n: int) -> Seq<HeaderText>
    decreases n,
{
    if n <= 0 {
        Seq::empty()
    } else if is_present(present, security_texts()[n - 1].name) {
        added_headers(present, n - 1)
    } else {
        added_headers(present, n - 1).push(security_texts()[n - 1])
    }
}

/// Whether a name is among those present.
fn has_name(present: &Vec<String>, name: &str) -> (res: bool)
    ensures
        res == is_present(present@, name@),
{
    let mut i: usize = 0;
    while i < present.len()
        invariant
            i <= present.len(),
            forall|j: int| 0 <= j < i ==> (#[trigger] present@[j])@ != name@,
        decreases present.len() - i,
    {
        if text_eq(present[i].as_str(), name) {
            assert(present@[i as int]@ == name@);
            return true;
        }
        i += 1;
    }
    false
}

/// The headers that are added to a reply that has those present.
#[must_use]
pub fn security_headers(present: &Vec<String>) -> (res: Vec<Header>)
    ensures
        header_texts(res@) == added_headers(present@, 4),
{
    let mut headers: Vec<Header> = Vec::new();
    let ghost mut before = headers@;
    reveal_with_fuel(added_headers, 5);
    assert(header_texts(headers@) =~= added_headers(present@, 0));
    if !has_name(present, "x-content-type-options") {
        headers.push(header("x-content-type-options", "nosniff"));
    }
    assert(header_texts(headers@) =~= added_headers(present@, 1));
    proof {
        before = headers@;
    }
    if !has_name(present, "content-security-policy") {
        headers.push(header("content-security-policy", PAGE_POLICY));
        assert(header_texts(headers@) =~= header_texts(before).push(headers@.last()@));
    }
    assert(header_texts(headers@) =~= added_headers(present@, 2));
    proof {
        before = headers@;
    }
    if !has_name(present, "referrer-policy") {
        headers.push(header("referrer-policy", "no-referrer"));
        assert(header_texts(headers@) =~= header_texts(before).push(headers@.last()@));
    }
    assert(header_texts(headers@) =~= added_headers(present@, 3));
    proof {
        before = headers@;
    }
    if !has_name(present, "x-frame-options") {
        headers.push(header("x-frame-options", "DENY"));
        assert(header_texts(headers@) =~= header_texts(before).push(headers@.last()@));
    }
    assert(header_texts(headers@) =~= added_headers(present@, 4));
    headers
}

} // verus!
