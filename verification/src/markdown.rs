//! What a page of Markdown may show: where its links and images lead, which files count as
//! assets, and what is left of its HTML.

use vstd::prelude::*;
use std::borrow::Cow;
use std::collections::HashSet;
use std::sync::Arc;
use crate::catalog::{resolved_target, Catalog, Document, DocumentView};
use crate::discovery::{spells, spells_word};
use crate::pathing::{
    asset_address, asset_url, document_address, document_url, missing_address, missing_url,
    normalize_library_path, normalized, APP_PREFIX,
};
use crate::paths::{path_extension, LibraryPath};
use crate::text::{
    begins_with, chars_eq_ignore_case, chars_of, index_of_char, is_char, lower_text,
    slice_begins_with, text_eq, text_of, text_views, until,
};

verus! {

broadcast use vstd::string::group_string_axioms;

// ---------------------------------------------------------------------------
// Assets
// ---------------------------------------------------------------------------

/// The image formats that a page may show.
#[derive(Clone, Copy, Debug, PartialEq, Eq, Structural)]
pub enum ImageFormat {
    Png,
    Jpeg,
    Gif,
    Svg,
    Webp,
    Avif,
}

/// The files besides Markdown that a library serves.
#[derive(Clone, Copy, Debug, PartialEq, Eq, Structural)]
pub enum AssetKind {
    Image(ImageFormat),
    Pdf,
}

/// The media type of an asset.
pub open spec fn media_type(kind: AssetKind) -> Seq<char> {
    match kind {
        AssetKind::Image(ImageFormat::Png) => "image/png"@,
        AssetKind::Image(ImageFormat::Jpeg) => "image/jpeg"@,
        AssetKind::Image(ImageFormat::Gif) => "image/gif"@,
        AssetKind::Image(ImageFormat::Svg) => "image/svg+xml"@,
        AssetKind::Image(ImageFormat::Webp) => "image/webp"@,
        AssetKind::Image(ImageFormat::Avif) => "image/avif"@,
        AssetKind::Pdf => "application/pdf"@,
    }
}

impl AssetKind {
    /// The media type of the asset.
    #[must_use]
    pub fn content_type(self) -> (res: &'static str)
        ensures
            res@ == media_type(self),
    {
        match self {
            AssetKind::Image(ImageFormat::Png) => "image/png",
            AssetKind::Image(ImageFormat::Jpeg) => "image/jpeg",
            AssetKind::Image(ImageFormat::Gif) => "image/gif",
            AssetKind::Image(ImageFormat::Svg) => "image/svg+xml",
            AssetKind::Image(ImageFormat::Webp) => "image/webp",
            AssetKind::Image(ImageFormat::Avif) => "image/avif",
            AssetKind::Pdf => "application/pdf",
        }
    }

    /// Whether the asset is a PDF.
    #[must_use]
    pub fn is_pdf(self) -> (res: bool)
        ensures
            res == (self == AssetKind::Pdf),
    {
        match self {
            AssetKind::Pdf => true,
            AssetKind::Image(_) => false,
        }
    }

    /// Whether the asset is an SVG image.
    #[must_use]
    pub fn is_svg(self) -> (res: bool)
        ensures
            res == (self == AssetKind::Image(ImageFormat::Svg)),
    {
        match self {
            AssetKind::Image(ImageFormat::Svg) => true,
            _ => false,
        }
    }
}

/// The image format that an extension stands for, in any case.
pub open spec fn image_format(extension: Seq<u8>) -> Option<ImageFormat> {
    if spells(extension, "png"@) {
        Some(ImageFormat::Png)
    } else if spells(extension, "jpg"@) || spells(extension, "jpeg"@) {
        Some(ImageFormat::Jpeg)
    } else if spells(extension, "gif"@) {
        Some(ImageFormat::Gif)
    } else if spells(extension, "svg"@) {
        Some(ImageFormat::Svg)
    } else if spells(extension, "webp"@) {
        Some(ImageFormat::Webp)
    } else if spells(extension, "avif"@) {
        Some(ImageFormat::Avif)
    } else {
        None
    }
}

/// The asset that an extension stands for.
pub open spec fn extension_kind(extension: Seq<u8>) -> Option<AssetKind> {
    match image_format(extension) {
        Some(format) => Some(AssetKind::Image(format)),
        None => if spells(extension, "pdf"@) {
            Some(AssetKind::Pdf)
        } else {
            None
        },
    }
}

/// The asset that a path stands for by its extension.
pub open spec fn kind_of(path: Seq<Seq<u8>>) -> Option<AssetKind> {
    match path_extension(path) {
        None => None,
        Some(extension) => extension_kind(extension),
    }
}

/// Whether a path has the extension of an image.
pub open spec fn image_path(path: Seq<Seq<u8>>) -> bool {
    kind_of(path) is Some && kind_of(path) != Some(AssetKind::Pdf)
}

/// Whether a path has the extension of a PDF.
pub open spec fn pdf_path(path: Seq<Seq<u8>>) -> bool {
    kind_of(path) == Some(AssetKind::Pdf)
}

/// The image format that an extension stands for.
fn format_of(extension: &[u8]) -> (res: Option<ImageFormat>)
    ensures
        res == image_format(extension@),
{
    if spells_word(extension, "png") {
        Some(ImageFormat::Png)
    } else if spells_word(extension, "jpg") || spells_word(extension, "jpeg") {
        Some(ImageFormat::Jpeg)
    } else if spells_word(extension, "gif") {
        Some(ImageFormat::Gif)
    } else if spells_word(extension, "svg") {
        Some(ImageFormat::Svg)
    } else if spells_word(extension, "webp") {
        Some(ImageFormat::Webp)
    } else if spells_word(extension, "avif") {
        Some(ImageFormat::Avif)
    } else {
        None
    }
}

/// The asset that an extension stands for.
pub(crate) fn kind_of_extension(extension: &[u8]) -> (res: Option<AssetKind>)
    ensures
        res == extension_kind(extension@),
{
    match format_of(extension) {
        Some(format) => Some(AssetKind::Image(format)),
        None => if spells_word(extension, "pdf") {
            Some(AssetKind::Pdf)
        } else {
            None
        },
    }
}

/// The asset that a path stands for: an image or a PDF, by its extension.
#[must_use]
pub fn asset_kind(path: &LibraryPath) -> (res: Option<AssetKind>)
    ensures
        res == kind_of(path@),
{
    match path.extension() {
        None => None,
        Some(extension) => kind_of_extension(extension),
    }
}

/// Whether a path has the extension of an image.
pub fn is_image(path: &LibraryPath) -> (res: bool)
    ensures
        res == image_path(path@),
{
    match asset_kind(path) {
        Some(AssetKind::Image(_)) => true,
        _ => false,
    }
}

/// Whether a path has the extension of a PDF.
pub fn is_pdf(path: &LibraryPath) -> (res: bool)
    ensures
        res == pdf_path(path@),
{
    match asset_kind(path) {
        Some(AssetKind::Pdf) => true,
        _ => false,
    }
}

// ---------------------------------------------------------------------------
// Parts of a URL
// ---------------------------------------------------------------------------

/// The marks that end the part of a URL in which a scheme can stand.
pub open spec fn is_delimiter() -> spec_fn(char) -> bool {
    |c: char| c == '/' || c == '#' || c == '?'
}

/// Whether a character is an ASCII letter.
pub open spec fn ascii_letter(c: char) -> bool {
    'a' <= c <= 'z' || 'A' <= c <= 'Z'
}

/// Whether text is written as a scheme is: a letter, then letters, digits, `+`, `-` and `.`.
pub open spec fn scheme_text(s: Seq<char>) -> bool {
    &&& s.len() > 0
    &&& ascii_letter(s[0])
    &&& forall|i: int|
        0 < i < s.len() ==> ascii_letter(#[trigger] s[i]) || '0' <= s[i] <= '9' || s[i] == '+'
            || s[i] == '-' || s[i] == '.'
}

/// The scheme of a URL: what stands before its first colon, if that is written as a scheme and
/// neither a slash nor a query nor a fragment comes before the colon.
pub open spec fn scheme_of(url: Seq<char>) -> Option<Seq<char>> {
    let colon = until(url, is_char(':'));
    if colon < url.len() && colon < until(url, is_delimiter()) && scheme_text(
        url.take(colon as int),
    ) {
        Some(url.take(colon as int))
    } else {
        None
    }
}

/// What stands before the fragment of a URL.
pub open spec fn before_fragment(url: Seq<char>) -> Seq<char> {
    url.take(until(url, is_char('#')) as int)
}

/// The fragment of a URL: what follows its first `#`.
pub open spec fn fragment_of(url: Seq<char>) -> Option<Seq<char>> {
    let hash = until(url, is_char('#'));
    if hash < url.len() {
        Some(url.skip(hash as int + 1))
    } else {
        None
    }
}

/// The path of a URL that has no scheme: what stands before its query and its fragment.
pub open spec fn path_of(url: Seq<char>) -> Seq<char> {
    before_fragment(url).take(until(before_fragment(url), is_char('?')) as int)
}

/// A fragment as it stands in a URL, with the `#` before it.
pub open spec fn fragment_text(fragment: Option<Seq<char>>) -> Seq<char> {
    match fragment {
        Some(fragment) => seq!['#'] + fragment,
        None => Seq::empty(),
    }
}

/// Whether text is written as a scheme is.
fn is_scheme_text(s: &[char]) -> (res: bool)
    ensures
        res == scheme_text(s@),
{
    if s.len() == 0 {
        return false;
    }
    let mut i: usize = 0;
    while i < s.len()
        invariant
            i <= s.len(),
            i > 0 ==> ascii_letter(s@[0]),
            forall|j: int|
                0 < j < i ==> ascii_letter(#[trigger] s@[j]) || '0' <= s@[j] <= '9' || s@[j] == '+'
                    || s@[j] == '-' || s@[j] == '.',
        decreases s.len() - i,
    {
        let c: char = s[i];
        let letter: bool = ('a' <= c && c <= 'z') || ('A' <= c && c <= 'Z');
        let other: bool = ('0' <= c && c <= '9') || c == '+' || c == '-' || c == '.';
        if !letter && !(i > 0 && other) {
            return false;
        }
        i += 1;
    }
    true
}

/// The index of the first slash, query mark or fragment mark, or the length where there is none.
fn index_of_delimiter(s: &[char]) -> (res: usize)
    ensures
        res == until(s@, is_delimiter()),
        res <= s@.len(),
{
    let mut i: usize = 0;
    while i < s.len() && s[i] != '/' && s[i] != '#' && s[i] != '?'
        invariant
            i <= s.len(),
            forall|j: int| 0 <= j < i ==> !is_delimiter()(#[trigger] s@[j]),
        decreases s.len() - i,
    {
        i += 1;
    }
    proof {
        crate::text::lemma_until_is(s@, is_delimiter(), i as nat);
    }
    i
}

/// The scheme of a URL.
fn scheme_chars(url: &[char]) -> (res: Option<&[char]>)
    ensures
        res is Some <==> scheme_of(url@) is Some,
        res matches Some(scheme) ==> Some(scheme@) == scheme_of(url@),
{
    let colon: usize = index_of_char(url, ':');
    if colon < url.len() && colon < index_of_delimiter(url) {
        let scheme: &[char] = vstd::slice::slice_subrange(url, 0, colon);
        assert(scheme@ =~= url@.take(colon as int));
        if is_scheme_text(scheme) {
            return Some(scheme);
        }
    }
    None
}

/// The scheme of a URL, as it is written there.
pub fn external_scheme(url: &str) -> (res: Option<String>)
    ensures
        res is Some <==> scheme_of(url@) is Some,
        res matches Some(scheme) ==> Some(scheme@) == scheme_of(url@),
{
    let chars: Vec<char> = chars_of(url);
    match scheme_chars(chars.as_slice()) {
        Some(scheme) => Some(text_of(scheme)),
        None => None,
    }
}

/// A URL parted at its first `#`.
fn part_fragment(url: &[char]) -> (res: (&[char], Option<&[char]>))
    ensures
        res.0@ == before_fragment(url@),
        res.1 is Some <==> fragment_of(url@) is Some,
        res.1 matches Some(fragment) ==> Some(fragment@) == fragment_of(url@),
{
    let hash: usize = index_of_char(url, '#');
    let before: &[char] = vstd::slice::slice_subrange(url, 0, hash);
    assert(before@ =~= url@.take(hash as int));
    if hash < url.len() {
        let fragment: &[char] = vstd::slice::slice_subrange(url, hash + 1, url.len());
        assert(fragment@ =~= url@.skip(hash as int + 1));
        (before, Some(fragment))
    } else {
        (before, None)
    }
}

/// A URL parted at its first `#`: what stands before it, and the fragment behind it.
pub fn split_fragment(url: &str) -> (res: (String, Option<String>))
    ensures
        res.0@ == before_fragment(url@),
        res.1 is Some <==> fragment_of(url@) is Some,
        res.1 matches Some(fragment) ==> Some(fragment@) == fragment_of(url@),
{
    let chars: Vec<char> = chars_of(url);
    let (before, fragment) = part_fragment(chars.as_slice());
    let fragment: Option<String> = match fragment {
        Some(fragment) => Some(text_of(fragment)),
        None => None,
    };
    (text_of(before), fragment)
}

/// What stands before the first `?`.
fn before_query(s: &[char]) -> (res: &[char])
    ensures
        res@ == s@.take(until(s@, is_char('?')) as int),
{
    let mark: usize = index_of_char(s, '?');
    let path: &[char] = vstd::slice::slice_subrange(s, 0, mark);
    assert(path@ =~= s@.take(mark as int));
    path
}

/// Whether text is a word, the case of ASCII letters aside.
pub open spec fn is_word(text: Seq<char>, word: Seq<char>) -> bool {
    lower_text(text) == lower_text(word)
}

/// Whether text is a word, the case of ASCII letters aside.
fn chars_are_word(text: &[char], word: &str) -> (res: bool)
    ensures
        res == is_word(text@, word@),
{
    let word: Vec<char> = chars_of(word);
    chars_eq_ignore_case(text, word.as_slice())
}

/// Whether text begins with a prefix.
fn chars_begin_with(text: &[char], prefix: &str) -> (res: bool)
    ensures
        res == begins_with(text@, prefix@),
{
    let prefix: Vec<char> = chars_of(prefix);
    slice_begins_with(text, prefix.as_slice())
}

/// Whether a URL is an address of the application: the prefix alone, or followed by a path, a
/// query or a fragment. A name of the library that only begins like the prefix is none.
pub open spec fn application_address(url: Seq<char>) -> bool {
    begins_with(url, APP_PREFIX@) && (url.len() == APP_PREFIX@.len() || is_delimiter()(
        url[APP_PREFIX@.len() as int],
    ))
}

/// Whether a URL is an address of the application.
fn is_application_address(url: &[char]) -> (res: bool)
    ensures
        res == application_address(url@),
{
    let prefix: Vec<char> = chars_of(APP_PREFIX);
    let n: usize = prefix.len();
    slice_begins_with(url, prefix.as_slice()) && (url.len() == n || url[n] == '/' || url[n] == '#'
        || url[n] == '?')
}

// ---------------------------------------------------------------------------
// Links and images
// ---------------------------------------------------------------------------

/// The schemes that an image may have.
pub open spec fn web_scheme(scheme: Seq<char>) -> bool {
    is_word(scheme, "http"@) || is_word(scheme, "https"@)
}

/// The schemes that a link may have.
pub open spec fn link_scheme(scheme: Seq<char>) -> bool {
    web_scheme(scheme) || is_word(scheme, "mailto"@)
}

/// The address of what a link target stands for: a document, an asset, or something that is
/// not there.
pub open spec fn target_address(documents: Seq<DocumentView>, target: Seq<Seq<u8>>) -> Seq<char> {
    match resolved_target(documents, target) {
        Some(d) => document_address(documents[d].path),
        None => if kind_of(target) is Some {
            asset_address(target)
        } else {
            missing_address(target)
        },
    }
}

/// The URL that takes the place of a link's in a page that lies in `directory`; an empty one
/// where the link leads nowhere. Addresses of the application, fragments, and links to the web
/// or to mail stay as they are. A link within the library loses its query and keeps its
/// fragment.
pub open spec fn rewritten_link(
    documents: Seq<DocumentView>,
    directory: Seq<Seq<u8>>,
    url: Seq<char>,
) -> Seq<char> {
    if application_address(url) || begins_with(url, "#"@) {
        url
    } else if scheme_of(url) is Some {
        if link_scheme(scheme_of(url)->0) {
            url
        } else {
            Seq::empty()
        }
    } else if begins_with(url, "//"@) {
        Seq::empty()
    } else if path_of(url).len() == 0 {
        fragment_text(fragment_of(url))
    } else {
        match normalized(directory, path_of(url)) {
            None => Seq::empty(),
            Some(target) => target_address(documents, target) + fragment_text(fragment_of(url)),
        }
    }
}

/// The URL that takes the place of an image's in a page that lies in `directory`; an empty one
/// where the image may not be shown. What begins like an address of the application and images on
/// the web stay as they are; within the library only what has the extension of an image is shown.
pub open spec fn rewritten_image(directory: Seq<Seq<u8>>, url: Seq<char>) -> Seq<char> {
    if begins_with(url, APP_PREFIX@) {
        url
    } else if scheme_of(url) is Some {
        if web_scheme(scheme_of(url)->0) {
            url
        } else {
            Seq::empty()
        }
    } else if begins_with(url, "//"@) {
        Seq::empty()
    } else {
        match normalized(directory, path_of(url)) {
            None => Seq::empty(),
            Some(target) => if image_path(target) {
                asset_address(target)
            } else {
                Seq::empty()
            },
        }
    }
}

/// What becomes of an attribute of an element: the target of a link and the source of an image
/// are rewritten, and dropped where nothing is left of them. Any other attribute stays.
pub open spec fn filtered_attribute(
    documents: Seq<DocumentView>,
    directory: Seq<Seq<u8>>,
    element: Seq<char>,
    attribute: Seq<char>,
    value: Seq<char>,
) -> Option<Seq<char>> {
    let rewritten = if element == "a"@ && attribute == "href"@ {
        Some(rewritten_link(documents, directory, value))
    } else if element == "img"@ && attribute == "src"@ {
        Some(rewritten_image(directory, value))
    } else {
        None
    };
    match rewritten {
        None => Some(value),
        Some(url) => if url.len() == 0 {
            None
        } else {
            Some(url)
        },
    }
}

/// What becomes of the links of a page, as a function of the URL.
pub open spec fn link_rule(
    documents: Seq<DocumentView>,
    directory: Seq<Seq<u8>>,
) -> spec_fn(Seq<char>) -> Seq<char> {
    |url: Seq<char>| rewritten_link(documents, directory, url)
}

/// What becomes of the images of a page, as a function of the URL.
pub open spec fn image_rule(directory: Seq<Seq<u8>>) -> spec_fn(Seq<char>) -> Seq<char> {
    |url: Seq<char>| rewritten_image(directory, url)
}

/// What becomes of the attributes of a page, as a function of element, attribute and value.
pub open spec fn attribute_rule(
    documents: Seq<DocumentView>,
    directory: Seq<Seq<u8>>,
) -> spec_fn(Seq<char>, Seq<char>, Seq<char>) -> Option<Seq<char>> {
    |element: Seq<char>, attribute: Seq<char>, value: Seq<char>|
        filtered_attribute(documents, directory, element, attribute, value)
}

/// The directory of a page.
pub open spec fn page_directory(path: Seq<Seq<u8>>) -> Seq<Seq<u8>> {
    if path.len() == 0 {
        path
    } else {
        path.drop_last()
    }
}

/// Where the links of one page lead: they are resolved against the documents of a catalog, as
/// seen from the directory of the page.
#[derive(Debug)]
pub struct LinkResolver {
    catalog: Arc<Catalog>,
    current_directory: LibraryPath,
}

impl LinkResolver {
    /// The documents that links can lead to.
    pub closed spec fn documents(&self) -> Seq<DocumentView> {
        self.catalog@.documents
    }

    /// The directory of the page.
    pub closed spec fn directory(&self) -> Seq<Seq<u8>> {
        self.current_directory@
    }

    /// The resolver for the links of a document.
    #[must_use]
    pub fn new(catalog: Arc<Catalog>, document: &Document) -> (res: LinkResolver)
        ensures
            res.documents() == catalog@.documents,
            res.directory() == page_directory(document@.path),
    {
        let current_directory: LibraryPath = match document.relative_path.parent() {
            Some(parent) => parent,
            None => LibraryPath::empty(),
        };
        assert(current_directory@ =~= page_directory(document@.path));
        LinkResolver { catalog, current_directory }
    }

    /// The URL that takes the place of a link's.
    pub fn rewrite_link(&self, url: &str) -> (res: String)
        ensures
            res@ == rewritten_link(self.documents(), self.directory(), url@),
    {
        let chars: Vec<char> = chars_of(url);
        if is_application_address(chars.as_slice()) || chars_begin_with(chars.as_slice(), "#") {
            return url.to_owned();
        }
        if let Some(scheme) = scheme_chars(chars.as_slice()) {
            if chars_are_word(scheme, "http") || chars_are_word(scheme, "https") || chars_are_word(
                scheme,
                "mailto",
            ) {
                return url.to_owned();
            }
            return String::new();
        }
        if chars_begin_with(chars.as_slice(), "//") {
            return String::new();
        }
        let (path_and_query, fragment) = part_fragment(chars.as_slice());
        let ending: String = match fragment {
            Some(fragment) => {
                proof {
                    reveal_strlit("#");
                    assert("#"@ =~= seq!['#']);
                }
                "#".to_owned().concat(text_of(fragment).as_str())
            },
            None => String::new(),
        };
        assert(ending@ == fragment_text(fragment_of(url@)));
        let path: &[char] = before_query(path_and_query);
        if path.len() == 0 {
            return ending;
        }
        let path: String = text_of(path);
        let target: LibraryPath = match normalize_library_path(
            &self.current_directory,
            path.as_str(),
        ) {
            Some(target) => target,
            None => {
                return String::new();
            },
        };
        let address: String = match self.catalog.resolve_document_target(&target) {
            Some(document) => document_url(&document.relative_path),
            None => if is_pdf(&target) || is_image(&target) {
                asset_url(&target)
            } else {
                missing_url(&target)
            },
        };
        address.concat(ending.as_str())
    }

    /// The URL that takes the place of an image's.
    pub fn rewrite_image(&self, url: &str) -> (res: String)
        ensures
            res@ == rewritten_image(self.directory(), url@),
    {
        let chars: Vec<char> = chars_of(url);
        if chars_begin_with(chars.as_slice(), APP_PREFIX) {
            return url.to_owned();
        }
        if let Some(scheme) = scheme_chars(chars.as_slice()) {
            if chars_are_word(scheme, "http") || chars_are_word(scheme, "https") {
                return url.to_owned();
            }
            return String::new();
        }
        if chars_begin_with(chars.as_slice(), "//") {
            return String::new();
        }
        let (path_and_query, _fragment) = part_fragment(chars.as_slice());
        let path: String = text_of(before_query(path_and_query));
        match normalize_library_path(&self.current_directory, path.as_str()) {
            Some(target) => if is_image(&target) {
                asset_url(&target)
            } else {
                String::new()
            },
            None => String::new(),
        }
    }

    /// What becomes of an attribute of an element.
    pub fn filter_attribute(&self, element: &str, attribute: &str, value: &str) -> (res: Option<
        String,
    >)
        ensures
            ({
                let kept = filtered_attribute(
                    self.documents(),
                    self.directory(),
                    element@,
                    attribute@,
                    value@,
                );
                &&& res is Some <==> kept is Some
                &&& res matches Some(url) ==> Some(url@) == kept
            }),
    {
        let url: String = if text_eq(element, "a") && text_eq(attribute, "href") {
            self.rewrite_link(value)
        } else if text_eq(element, "img") && text_eq(attribute, "src") {
            self.rewrite_image(value)
        } else {
            return Some(value.to_owned());
        };
        if url.as_str().as_bytes().len() == 0 {
            assert(url@.len() == 0);
            None
        } else {
            Some(url)
        }
    }
}

// ---------------------------------------------------------------------------
// HTML
// ---------------------------------------------------------------------------

/// An element, and the attributes that it may have besides the usual ones.
#[derive(Debug)]
pub struct ElementRule {
    pub element: String,
    pub attributes: Vec<String>,
}

/// What HTML may hold besides the elements and attributes that are always allowed.
#[derive(Debug)]
pub struct HtmlPolicy {
    pub schemes: Vec<String>,
    pub elements: Vec<String>,
    pub attributes: Vec<String>,
    pub element_attributes: Vec<ElementRule>,
}

/// The view of an element rule.
pub struct ElementRuleView {
    pub element: Seq<char>,
    pub attributes: Seq<Seq<char>>,
}

/// The view of a policy.
pub struct HtmlPolicyView {
    pub schemes: Seq<Seq<char>>,
    pub elements: Seq<Seq<char>>,
    pub attributes: Seq<Seq<char>>,
    pub element_attributes: Seq<ElementRuleView>,
}

impl View for ElementRule {
    type V = ElementRuleView;

    open spec fn view(&self) -> ElementRuleView {
        ElementRuleView { element: self.element@, attributes: text_views(self.attributes@) }
    }
}

impl View for HtmlPolicy {
    type V = HtmlPolicyView;

    open spec fn view(&self) -> HtmlPolicyView {
        HtmlPolicyView {
            schemes: text_views(self.schemes@),
            elements: text_views(self.elements@),
            attributes: text_views(self.attributes@),
            element_attributes: self.element_attributes@.map_values(|rule: ElementRule| rule@),
        }
    }
}

/// What a page may hold: links to the web and to mail, folding sections, keys and check boxes,
/// classes and anchors, and sized images.
pub open spec fn page_policy() -> HtmlPolicyView {
    HtmlPolicyView {
        schemes: seq!["http"@, "https"@, "mailto"@],
        elements: seq!["details"@, "summary"@, "kbd"@, "input"@],
        attributes: seq!["class"@, "id"@],
        element_attributes: seq![
            ElementRuleView {
                element: "input"@,
                attributes: seq!["type"@, "checked"@, "disabled"@],
            },
            ElementRuleView {
                element: "img"@,
                attributes: seq!["width"@, "height"@, "align"@, "loading"@],
            },
        ],
    }
}

/// A word behind the others.
fn push_word(words: Vec<String>, word: &str) -> (res: Vec<String>)
    ensures
        text_views(res@) == text_views(words@).push(word@),
{
    let mut words: Vec<String> = words;
    words.push(word.to_owned());
    assert(text_views(words@) =~= text_views(words@.drop_last()).push(word@));
    words
}

/// The policy for pages.
#[must_use]
pub fn html_policy() -> (res: HtmlPolicy)
    ensures
        res@ == page_policy(),
{
    let none: Vec<String> = Vec::new();
    let schemes: Vec<String> = push_word(push_word(push_word(none, "http"), "https"), "mailto");
    let none: Vec<String> = Vec::new();
    let elements: Vec<String> = push_word(
        push_word(push_word(push_word(none, "details"), "summary"), "kbd"),
        "input",
    );
    let none: Vec<String> = Vec::new();
    let attributes: Vec<String> = push_word(push_word(none, "class"), "id");
    let none: Vec<String> = Vec::new();
    let input: ElementRule = ElementRule {
        element: "input".to_owned(),
        attributes: push_word(push_word(push_word(none, "type"), "checked"), "disabled"),
    };
    let none: Vec<String> = Vec::new();
    let image: ElementRule = ElementRule {
        element: "img".to_owned(),
        attributes: push_word(
            push_word(push_word(push_word(none, "width"), "height"), "align"),
            "loading",
        ),
    };
    let element_attributes: Vec<ElementRule> = vec![input, image];
    let policy: HtmlPolicy = HtmlPolicy { schemes, elements, attributes, element_attributes };
    proof {
        let want = page_policy();
        assert(policy@.schemes =~= want.schemes);
        assert(policy@.elements =~= want.elements);
        assert(policy@.attributes =~= want.attributes);
        assert(input@.attributes =~= want.element_attributes[0].attributes);
        assert(image@.attributes =~= want.element_attributes[1].attributes);
        assert(policy@.element_attributes =~= want.element_attributes);
    }
    policy
}

/// What `ammonia` leaves of HTML under a policy, with a rule for what becomes of each attribute
/// that the policy lets through.
pub uninterp spec fn cleaned_html(
    html: Seq<char>,
    policy: HtmlPolicyView,
    rule: spec_fn(Seq<char>, Seq<char>, Seq<char>) -> Option<Seq<char>>,
) -> Seq<char>;

/// `ammonia::Builder::clean`, on a builder that starts from the defaults: `url_schemes` holds
/// the policy's schemes alone, its elements and attributes are added to the allowed ones, and
/// `attribute_filter` asks the resolver. The result depends on nothing but the HTML, the policy
/// and what the resolver makes of attributes. Which HTML is left is not stated here. The builder
/// refuses contradictory settings with a panic; the policy for pages holds none.
#[verifier::external_body]
fn clean_html(html: &str, policy: &HtmlPolicy, resolver: Arc<LinkResolver>) -> (res: String)
    requires
        policy@ == page_policy(),
    ensures
        res@ == cleaned_html(
            html@,
            policy@,
            attribute_rule(resolver.documents(), resolver.directory()),
        ),
{
    let schemes: HashSet<&str> = policy.schemes.iter().map(|scheme| scheme.as_str()).collect();
    let mut builder = ammonia::Builder::default();
    builder.url_schemes(schemes);
    builder.add_tags(&policy.elements);
    builder.add_generic_attributes(&policy.attributes);
    for rule in policy.element_attributes.iter() {
        builder.add_tag_attributes(rule.element.as_str(), &rule.attributes);
    }
    builder.attribute_filter(move |element, attribute, value| {
        resolver.filter_attribute(element, attribute, value).map(Cow::Owned)
    });
    builder.clean(html).to_string()
}

/// The HTML of a page, with what the policy for pages does not allow taken out, and with its
/// links and images rewritten.
#[must_use]
pub fn sanitize_html(rendered: &str, resolver: Arc<LinkResolver>) -> (res: String)
    ensures
        res@ == cleaned_html(
            rendered@,
            page_policy(),
            attribute_rule(resolver.documents(), resolver.directory()),
        ),
{
    let policy: HtmlPolicy = html_policy();
    clean_html(rendered, &policy, resolver)
}

} // verus!
