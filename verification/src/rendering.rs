//! Rendering: from the Markdown of a document to the HTML of its page.

use vstd::prelude::*;
use std::sync::Arc;
use comrak::options::{Extension, Parse, Plugins, Render};
use comrak::plugins::syntect::SyntectAdapter;
use comrak::{markdown_to_html_with_plugins, Options};
use crate::catalog::{Catalog, Document, DocumentView};
use crate::markdown::{
    attribute_rule, cleaned_html, image_rule, link_rule, page_directory, page_policy, sanitize_html,
    LinkResolver,
};

verus! {

broadcast use vstd::string::group_string_axioms;

/// Whether pages keep raw HTML when they are rendered. What of it stays is decided when the HTML
/// is cleaned.
pub const KEEPS_RAW_HTML: bool = true;

/// `comrak::options::Render`: how `comrak` writes HTML.
#[verifier::external_type_specification]
#[verifier::external_body]
pub struct ExRender(comrak::options::Render);

/// `comrak::plugins::syntect::SyntectAdapter`: what highlights code.
#[verifier::external_type_specification]
#[verifier::external_body]
pub struct ExSyntectAdapter(comrak::plugins::syntect::SyntectAdapter);

/// How Markdown is read and rendered.
#[derive(Debug)]
pub struct MarkdownSettings {
    pub strikethrough: bool,
    pub tagfilter: bool,
    pub table: bool,
    pub autolink: bool,
    pub tasklist: bool,
    pub footnotes: bool,
    pub description_lists: bool,
    pub smart: bool,
    /// Whether all that follows the language of a code block is written out.
    pub full_info_string: bool,
    /// What stands before the text of a heading in its anchor; without it headings have none.
    pub heading_prefix: Option<String>,
}

/// The value of settings.
pub struct SettingsView {
    pub strikethrough: bool,
    pub tagfilter: bool,
    pub table: bool,
    pub autolink: bool,
    pub tasklist: bool,
    pub footnotes: bool,
    pub description_lists: bool,
    pub smart: bool,
    pub full_info_string: bool,
    pub heading_prefix: Option<Seq<char>>,
}

impl View for MarkdownSettings {
    type V = SettingsView;

    open spec fn view(&self) -> SettingsView {
        SettingsView {
            strikethrough: self.strikethrough,
            tagfilter: self.tagfilter,
            table: self.table,
            autolink: self.autolink,
            tasklist: self.tasklist,
            footnotes: self.footnotes,
            description_lists: self.description_lists,
            smart: self.smart,
            full_info_string: self.full_info_string,
            heading_prefix: match self.heading_prefix {
                Some(prefix) => Some(prefix@),
                None => None,
            },
        }
    }
}

/// How the pages of a library are rendered: with the extensions of GitHub's Markdown, footnotes,
/// description lists, plain anchors at headings and smart punctuation.
pub open spec fn page_settings() -> SettingsView {
    SettingsView {
        strikethrough: true,
        tagfilter: true,
        table: true,
        autolink: true,
        tasklist: true,
        footnotes: true,
        description_lists: true,
        smart: true,
        full_info_string: false,
        heading_prefix: Some(Seq::empty()),
    }
}

/// How the pages of a library are rendered.
#[must_use]
pub fn markdown_settings() -> (res: MarkdownSettings)
    ensures
        res@ == page_settings(),
{
    let settings: MarkdownSettings = MarkdownSettings {
        strikethrough: true,
        tagfilter: true,
        table: true,
        autolink: true,
        tasklist: true,
        footnotes: true,
        description_lists: true,
        smart: true,
        full_info_string: false,
        heading_prefix: Some(String::new()),
    };
    assert(settings@.heading_prefix->0 =~= Seq::empty());
    settings
}

/// The highlighter that `SyntectAdapter::new` makes for a theme.
pub uninterp spec fn highlighter_for(theme: Option<Seq<char>>) -> SyntectAdapter;

/// `SyntectAdapter::new`: a highlighter for a theme, or one that marks code with classes where
/// there is none. It depends on the theme alone.
#[verifier::external_body]
fn new_highlighter(theme: Option<&str>) -> (res: SyntectAdapter)
    ensures
        res == highlighter_for(
            match theme {
                Some(name) => Some(name@),
                None => None,
            },
        ),
{
    SyntectAdapter::new(theme)
}

/// What `comrak` makes of Markdown with these settings, with a highlighter that marks code with
/// classes, and with rules for what becomes of the URLs of links and images.
pub uninterp spec fn rendered_html(
    markdown: Seq<char>,
    settings: SettingsView,
    options: Render,
    links: spec_fn(Seq<char>) -> Seq<char>,
    images: spec_fn(Seq<char>) -> Seq<char>,
) -> Seq<char>;

/// `comrak::markdown_to_html_with_plugins`, with the given options for HTML and the settings in
/// place of the defaults; the rewriters of links and images ask a resolver each. The result
/// depends on nothing but the Markdown, the settings, the options and what the resolvers make of
/// URLs: the attributes of a code block are written in no fixed order where there are several, and
/// there is one at most without the full info string. Which HTML comes out is not stated here.
#[verifier::external_body]
fn markdown_html(
    markdown: &str,
    settings: MarkdownSettings,
    options: Render,
    highlighter: &SyntectAdapter,
    links: Arc<LinkResolver>,
    images: Arc<LinkResolver>,
) -> (res: String)
    requires
        !settings.full_info_string,
        *highlighter == highlighter_for(None),
    ensures
        res@ == rendered_html(
            markdown@,
            settings@,
            options,
            link_rule(links.documents(), links.directory()),
            image_rule(images.directory()),
        ),
{
    let MarkdownSettings { strikethrough, tagfilter, table, autolink, tasklist, footnotes,
        description_lists, smart, full_info_string, heading_prefix: header_id_prefix } = settings;
    let extension = Extension {
        strikethrough, tagfilter, table, autolink, tasklist, footnotes, description_lists,
        header_id_prefix,
        link_url_rewriter: Some(Arc::new(move |url: &str| links.rewrite_link(url))),
        image_url_rewriter: Some(Arc::new(move |url: &str| images.rewrite_image(url))),
        ..Default::default()
    };
    let parse = Parse { smart, ..Default::default() };
    let all = Options { extension, parse, render: Render { full_info_string, ..options } };
    let mut plugins = Plugins::default();
    plugins.render.codefence_syntax_highlighter = Some(highlighter);
    markdown_to_html_with_plugins(markdown, &all, &plugins)
}

/// The HTML of the page of the document at a path: its Markdown, rendered with the links and images
/// resolved from where the document lies, and cleaned.
pub open spec fn page_html(
    markdown: Seq<char>,
    options: Render,
    documents: Seq<DocumentView>,
    path: Seq<Seq<u8>>,
) -> Seq<char> {
    let directory = page_directory(path);
    cleaned_html(
        rendered_html(
            markdown,
            page_settings(),
            options,
            link_rule(documents, directory),
            image_rule(directory),
        ),
        page_policy(),
        attribute_rule(documents, directory),
    )
}

/// What renders the pages of a library.
#[derive(Debug)]
pub struct MarkdownRenderer {
    options: Render,
    highlighter: SyntectAdapter,
}

impl MarkdownRenderer {
    /// Code is marked with classes.
    #[verifier::type_invariant]
    pub closed spec fn well_formed(&self) -> bool {
        self.highlighter == highlighter_for(None)
    }

    /// The options for HTML.
    pub closed spec fn options(&self) -> Render {
        self.options
    }

    /// A renderer with these options for HTML.
    #[must_use]
    pub fn new(options: Render) -> (res: MarkdownRenderer)
        ensures
            res.options() == options,
    {
        MarkdownRenderer { options, highlighter: new_highlighter(None) }
    }

    /// The HTML of the page of a document.
    #[must_use]
    pub fn render(&self, markdown: &str, document: &Document, catalog: Arc<Catalog>) -> (res: String)
        ensures
            res@ == page_html(markdown@, self.options(), catalog@.documents, document@.path),
    {
        proof {
            use_type_invariant(self);
        }
        let resolver: Arc<LinkResolver> = Arc::new(LinkResolver::new(catalog, document));
        let rendered: String = markdown_html(
            markdown,
            markdown_settings(),
            self.options,
            &self.highlighter,
            Arc::clone(&resolver),
            Arc::clone(&resolver),
        );
        sanitize_html(rendered.as_str(), resolver)
    }
}

} // verus!
