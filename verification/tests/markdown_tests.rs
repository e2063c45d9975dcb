use std::sync::Arc;

use comrak::options::Render;
use mdfolio::assembly::{RootInspection, WalkEntry};
use mdfolio::catalog::Catalog;
use mdfolio::discovery::{Boundaries, EntryKind};
use mdfolio::markdown::{
    asset_kind, external_scheme, is_image, is_pdf, sanitize_html, split_fragment, AssetKind,
    ImageFormat, LinkResolver,
};
use mdfolio::pathing::encode_relative_path;
use mdfolio::paths::LibraryPath;
use mdfolio::rendering::{markdown_settings, MarkdownRenderer, KEEPS_RAW_HTML};
use mdfolio::server::ReaderSession;
use mdfolio::walk::Walk;

fn path(written: &str) -> LibraryPath {
    LibraryPath::parse(written).unwrap()
}

fn walk_of(entries: Vec<WalkEntry>, boundaries: &Boundaries) -> Walk {
    let mut walk = Walk::new();
    for entry in entries {
        if let WalkEntry::Entry { path, .. } = &entry {
            while let Some(directory) = walk.question(path) {
                let is_repository = boundaries.get(&directory).unwrap_or(false);
                walk = walk.with_finding(directory, is_repository);
            }
        }
        walk = walk.with_step(entry);
    }
    walk
}

fn catalog_of(files: &[(&str, &str)]) -> Arc<Catalog> {
    let mut boundaries = Boundaries::new();
    boundaries.insert(LibraryPath::empty(), true);
    boundaries.insert(path("docs"), false);
    let mut entries = Vec::new();
    for (name, contents) in files {
        entries.push(WalkEntry::Entry {
            kind: EntryKind::File,
            path: path(name),
            contents: Ok(contents.as_bytes().to_vec()),
        });
    }
    let root = RootInspection::Found { path: b"/library".to_vec(), is_directory: true };
    Arc::new(Catalog::scan(b"/library", root, &walk_of(entries, &boundaries)).unwrap())
}

fn fixture() -> Arc<Catalog> {
    catalog_of(&[
        ("README.md", "# Home"),
        ("guide.md", "# Guide"),
        ("Caps.MD", "# Capitals"),
        ("docs/README.md", "# Docs"),
    ])
}

fn resolver(catalog: &Arc<Catalog>, document: &str) -> Arc<LinkResolver> {
    let document = catalog.document_by_path(&path(document)).unwrap();
    Arc::new(LinkResolver::new(Arc::clone(catalog), document))
}

fn render(markdown: &str, catalog: &Arc<Catalog>, document: &str) -> String {
    let document = catalog.document_by_path(&path(document)).unwrap();
    MarkdownRenderer::new(Render::default()).render(markdown, document, Arc::clone(catalog))
}

#[test]
fn renders_gfm_highlighting_and_sanitizes_raw_html() {
    let catalog = fixture();
    let html = render(
        "- [x] done\n\n|a|b|\n|-|-|\n|1|2|\n\n```rust\nfn main() {}\n```\n\n<script>alert(1)</script>",
        &catalog,
        "README.md",
    );

    assert!(html.contains("type=\"checkbox\""));
    assert!(html.contains("<table>"));
    assert!(html.contains("syntax-highlighting"));
    assert!(!html.contains("<script"));
    let raw = "<p>before</p><script>alert(1)</script><p onclick=\"x()\">after</p>";
    assert_eq!(
        sanitize_html(raw, resolver(&catalog, "README.md")),
        "<p>before</p><p>after</p>"
    );
}

#[test]
fn rewrites_extensionless_directory_and_root_relative_links() {
    let catalog = fixture();
    let html = render(
        "[guide](guide) [caps](Caps) [docs](docs/) [home](/README.md)",
        &catalog,
        "README.md",
    );

    assert!(html.contains("href=\"/_mdfolio/doc/guide.md\""));
    assert!(html.contains("href=\"/_mdfolio/doc/Caps.MD\""));
    assert!(html.contains("href=\"/_mdfolio/doc/docs/README.md\""));
    assert!(html.contains("href=\"/_mdfolio/doc/README.md\""));
}

#[test]
fn allows_web_images_and_blocks_dangerous_schemes() {
    let catalog = fixture();
    let html = render(
        "![badge](HTTPS://img.shields.io/test.svg)\n\n[bad](javascript:alert(1))\n\n![local](images/cover.png)",
        &catalog,
        "README.md",
    );

    assert!(html.contains("src=\"HTTPS://img.shields.io/test.svg\""));
    assert!(html.contains("src=\"/_mdfolio/asset/images/cover.png\""));
    assert!(!html.contains("javascript:"));
}

#[test]
fn traversal_and_denied_attachments_do_not_become_asset_routes() {
    let catalog = fixture();
    let html = render("[escape](../secret.pdf) [html](page.html)", &catalog, "README.md");

    assert!(!html.contains("secret.pdf"));
    assert!(html.contains("/_mdfolio/missing/page.html"));
}

#[test]
fn each_reader_request_refreshes_body_membership_navigation_and_links() {
    let page = |readme: &str, other: &str, requested: &str| {
        let catalog = catalog_of(&[("README.md", readme), (other, "# Newly Added")]);
        let session = ReaderSession::open(Arc::clone(&catalog), requested).ok()?;
        let page = session.page(render(readme, &catalog, "README.md"));
        let titles: Vec<String> =
            page.navigation.iter().map(|entry| entry.title.clone()).collect();
        Some((page.article_html, titles))
    };

    let revised = "# Revised Book\n\nRead the [new page](new-page).";
    let (body, titles) = page(revised, "new-page.md", "README.md").unwrap();
    assert!(body.contains("<h1 id=\"revised-book\">Revised Book"));
    assert!(body.contains("href=\"/_mdfolio/doc/new-page.md\""));
    assert_eq!(titles, ["Revised Book", "Newly Added"]);

    let again = "# Revised Again\n\nRead the [renamed page](renamed).";
    let (body, _) = page(again, "renamed.md", "README.md").unwrap();
    assert!(body.contains("<h1 id=\"revised-again\">Revised Again"));
    assert!(body.contains("href=\"/_mdfolio/doc/renamed.md\""));
    assert!(!body.contains("/_mdfolio/doc/new-page.md"));

    assert!(page(again, "other.md", "renamed.md").is_none());
}

#[test]
fn pages_are_rendered_with_every_extension() {
    let catalog = fixture();
    let html = |markdown: &str| render(markdown, &catalog, "README.md");
    assert_eq!(html("# A Heading"), "<h1 id=\"a-heading\">A Heading<a href=\"#a-heading\" class=\"anchor\" rel=\"noopener noreferrer\"></a></h1>\n");
    assert_eq!(html("~~a~~"), "<p><del>a</del></p>\n");
    assert_eq!(html("\"a\" -- b"), "<p>“a” – b</p>\n");
    assert_eq!(html("A\n\n: B"), "<dl>\n<dt>A</dt>\n<dd>\n<p>B</p>\n</dd>\n</dl>\n");
    assert!(html("www.example.org").contains("<a href=\"http://www.example.org\""));
    assert!(html("a[^1]\n\n[^1]: note").contains("footnote"));
    assert!(html("```rust title=a id=b\nfn\n```").contains("<code class=\"language-rust\">"));
    assert_eq!(html("a <kbd>K</kbd>"), "<p>a K</p>\n");

    let settings = markdown_settings();
    assert!(settings.tagfilter && !settings.full_info_string);
    assert_eq!(settings.heading_prefix.as_deref(), Some(""));
}

#[test]
fn pages_are_rendered_from_where_they_lie() {
    let catalog = fixture();
    let markdown = "[a](README.md) ![b](b.png) [c](../guide) [d](javascript:x) ![e](e.pdf)";
    assert_eq!(
        render(markdown, &catalog, "docs/README.md"),
        "<p><a href=\"/_mdfolio/doc/docs/README.md\" rel=\"noopener noreferrer\">a</a> \
         <img src=\"/_mdfolio/asset/docs/b.png\" alt=\"b\"> \
         <a href=\"/_mdfolio/doc/guide.md\" rel=\"noopener noreferrer\">c</a> \
         <a rel=\"noopener noreferrer\">d</a> <img alt=\"e\"></p>\n"
    );
}

#[test]
fn links_to_names_that_begin_like_the_application_lead_to_them() {
    let catalog = catalog_of(&[("README.md", ""), ("_mdfolio-notes.md", ""), ("_mdfolio.md", "")]);
    let resolver = resolver(&catalog, "README.md");
    for (url, rewritten) in [
        ("/_mdfolio-notes.md", "/_mdfolio/doc/_mdfolio-notes.md"),
        ("/_mdfolio-notes", "/_mdfolio/doc/_mdfolio-notes.md"),
        ("/_mdfolio.md", "/_mdfolio/doc/_mdfolio.md"),
        ("/_mdfolios", "/_mdfolio/missing/_mdfolios"),
        ("/_mdfolio", "/_mdfolio"),
        ("/_mdfolio/shelf", "/_mdfolio/shelf"),
        ("/_mdfolio?a", "/_mdfolio?a"),
        ("/_mdfolio#a", "/_mdfolio#a"),
    ] {
        assert_eq!(resolver.rewrite_link(url), rewritten, "{url}");
    }
    assert_eq!(resolver.rewrite_image("/_mdfolio.png"), "/_mdfolio.png");
    assert_eq!(resolver.rewrite_image("/_mdfolio/a.png"), "/_mdfolio/a.png");
    assert_eq!(resolver.rewrite_image("/_mdfolio"), "/_mdfolio");
}

#[test]
fn rooted_links_find_their_documents_from_anywhere() {
    let catalog = fixture();
    let resolver = resolver(&catalog, "docs/README.md");
    for document in catalog.documents() {
        let link = format!("/{}", encode_relative_path(&document.relative_path));
        let address = format!("/_mdfolio/doc{link}");
        assert_eq!(resolver.rewrite_link(&link), address);
    }
}

#[test]
fn raw_html_is_kept_within_the_policy() {
    assert!(KEEPS_RAW_HTML);
    let catalog = fixture();
    let resolver = resolver(&catalog, "README.md");
    let html = sanitize_html(
        "<details class=\"c\" style=\"s\"><summary id=\"i\">S</summary><kbd>K</kbd></details>\
         <input type=\"checkbox\" checked=\"\" disabled=\"\" name=\"n\">\
         <img src=\"a.png\" width=\"1\" height=\"2\" loading=\"lazy\" onerror=\"x\">\
         <a href=\"guide\">g</a><a href=\"ftp://a\">f</a><iframe src=\"b\"></iframe>",
        resolver,
    );
    assert_eq!(
        html,
        "<details class=\"c\"><summary id=\"i\">S</summary><kbd>K</kbd></details>\
         <input type=\"checkbox\" checked=\"\" disabled=\"\">\
         <img src=\"/_mdfolio/asset/a.png\" width=\"1\" height=\"2\" loading=\"lazy\">\
         <a href=\"/_mdfolio/doc/guide.md\" rel=\"noopener noreferrer\">g</a>\
         <a rel=\"noopener noreferrer\">f</a>"
    );
}

#[test]
fn links_are_rewritten() {
    let catalog = fixture();
    let top = resolver(&catalog, "README.md");
    let docs = resolver(&catalog, "docs/README.md");
    for (url, rewritten) in [
        ("guide.md#part-2", "/_mdfolio/doc/guide.md#part-2"),
        ("guide.md?raw=1#a#b", "/_mdfolio/doc/guide.md#a#b"),
        ("#here", "#here"),
        ("", ""),
        ("?query", ""),
        ("?query#here", "#here"),
        ("//host/a.md", ""),
        ("/_mdfolio/shelf", "/_mdfolio/shelf"),
        ("Mailto:a@b.c", "Mailto:a@b.c"),
        ("http://a/../b", "http://a/../b"),
        ("javascript:alert(1)", ""),
        ("data:text/html,x", ""),
        ("manual.PDF", "/_mdfolio/asset/manual.PDF"),
        ("cover.jpeg", "/_mdfolio/asset/cover.jpeg"),
        ("nothing", "/_mdfolio/missing/nothing"),
        ("../up.md", ""),
        ("a%00b", ""),
        ("docs", "/_mdfolio/doc/docs/README.md"),
        ("1:2", "/_mdfolio/missing/1:2"),
        ("a/b:c", "/_mdfolio/missing/a/b:c"),
    ] {
        assert_eq!(top.rewrite_link(url), rewritten, "{url}");
        assert_eq!(top.rewrite_link(rewritten), rewritten, "{url}");
    }
    assert_eq!(docs.rewrite_link("../guide"), "/_mdfolio/doc/guide.md");
    assert_eq!(docs.rewrite_link("README.md"), "/_mdfolio/doc/docs/README.md");
}

#[test]
fn encoded_links_find_their_documents() {
    let catalog = catalog_of(&[("docs/README.md", ""), ("docs/a quiet day.md", ""), ("docs/a:b.md", "")]);
    let resolver = resolver(&catalog, "docs/README.md");
    let link = encode_relative_path(&path("a quiet day.md"));
    assert_eq!(link, "a%20quiet%20day.md");
    assert_eq!(resolver.rewrite_link(&link), "/_mdfolio/doc/docs/a%20quiet%20day.md");
    assert_eq!(resolver.rewrite_link("a:b.md"), "");
    assert_eq!(resolver.rewrite_link("./a:b.md"), "/_mdfolio/doc/docs/a:b.md");
}

#[test]
fn images_are_rewritten() {
    let catalog = fixture();
    let top = resolver(&catalog, "README.md");
    let docs = resolver(&catalog, "docs/README.md");
    for (url, rewritten) in [
        ("cover.svg?v=1#x", "/_mdfolio/asset/cover.svg"),
        ("/a/cover.Webp", "/_mdfolio/asset/a/cover.Webp"),
        ("manual.pdf", ""),
        ("guide.md", ""),
        ("mailto:a@b.c", ""),
        ("data:image/png;base64,x", ""),
        ("http://host/a", "http://host/a"),
        ("//host/a.png", ""),
        ("/_mdfolio/asset/a.png", "/_mdfolio/asset/a.png"),
        ("../a.png", ""),
        ("", ""),
    ] {
        assert_eq!(top.rewrite_image(url), rewritten, "{url}");
        assert_eq!(top.rewrite_image(rewritten), rewritten, "{url}");
    }
    assert_eq!(docs.rewrite_image("../a.png"), "/_mdfolio/asset/a.png");
}

#[test]
fn an_empty_image_stands_for_a_directory_that_is_named_like_one() {
    let catalog = catalog_of(&[("docs.png/page.md", "")]);
    let resolver = resolver(&catalog, "docs.png/page.md");
    assert_eq!(resolver.rewrite_image("x.txt"), "");
    assert_eq!(resolver.rewrite_image(""), "/_mdfolio/asset/docs.png");
}

#[test]
fn attributes_are_filtered() {
    let catalog = fixture();
    let resolver = resolver(&catalog, "README.md");
    let filter = |element: &str, attribute: &str, value: &str| {
        resolver.filter_attribute(element, attribute, value)
    };
    assert_eq!(filter("a", "href", "guide").as_deref(), Some("/_mdfolio/doc/guide.md"));
    assert_eq!(filter("a", "href", "javascript:x"), None);
    assert_eq!(filter("img", "src", "a.png").as_deref(), Some("/_mdfolio/asset/a.png"));
    assert_eq!(filter("img", "src", "a.pdf"), None);
    assert_eq!(filter("img", "href", "guide").as_deref(), Some("guide"));
    assert_eq!(filter("p", "class", "").as_deref(), Some(""));
}

#[test]
fn schemes_and_fragments_are_told_apart() {
    assert_eq!(external_scheme("HTTP://a").as_deref(), Some("HTTP"));
    assert_eq!(external_scheme("a+b-c.1:x").as_deref(), Some("a+b-c.1"));
    assert_eq!(external_scheme("1a:x"), None);
    assert_eq!(external_scheme(":x"), None);
    assert_eq!(external_scheme("a/b:c"), None);
    assert_eq!(external_scheme("a?b:c"), None);
    assert_eq!(external_scheme("a#b:c"), None);
    assert_eq!(external_scheme("é:c"), None);
    assert_eq!(external_scheme("plain"), None);
    assert_eq!(split_fragment("a#b#c"), ("a".to_owned(), Some("b#c".to_owned())));
    assert_eq!(split_fragment("a"), ("a".to_owned(), None));
    assert_eq!(split_fragment("a#"), ("a".to_owned(), Some(String::new())));
}

#[test]
fn assets_are_told_by_their_extension() {
    for (name, kind, content_type) in [
        ("a.png", AssetKind::Image(ImageFormat::Png), "image/png"),
        ("a.JPG", AssetKind::Image(ImageFormat::Jpeg), "image/jpeg"),
        ("a.jpeg", AssetKind::Image(ImageFormat::Jpeg), "image/jpeg"),
        ("a.gif", AssetKind::Image(ImageFormat::Gif), "image/gif"),
        ("a.SVG", AssetKind::Image(ImageFormat::Svg), "image/svg+xml"),
        ("a.webp", AssetKind::Image(ImageFormat::Webp), "image/webp"),
        ("a.avif", AssetKind::Image(ImageFormat::Avif), "image/avif"),
        ("a.Pdf", AssetKind::Pdf, "application/pdf"),
    ] {
        let path = path(name);
        assert_eq!(asset_kind(&path), Some(kind), "{name}");
        assert_eq!(kind.content_type(), content_type);
        assert_eq!(is_pdf(&path), kind.is_pdf());
        assert_eq!(is_image(&path), !kind.is_pdf());
        assert_eq!(kind.is_svg(), content_type == "image/svg+xml");
    }
    assert_eq!(asset_kind(&path("a.html")), None);
    assert_eq!(asset_kind(&path("png")), None);
    assert_eq!(asset_kind(&LibraryPath::empty()), None);
}
