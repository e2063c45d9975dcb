//! What holds of the pages that are made of Markdown.

use vstd::prelude::*;
use comrak::options::Render;
use crate::catalog::DocumentView;
use crate::markdown::{
    attribute_rule, cleaned_html, image_rule, link_rule, page_directory, page_policy,
    ElementRuleView, HtmlPolicyView,
};
use crate::rendering::{page_html, page_settings, rendered_html, SettingsView, KEEPS_RAW_HTML};

verus! {

/// Whether settings are those of pages: the extensions of GitHub's Markdown (strikethrough, tables,
/// links that are told by themselves, task lists, and the filter for tags), footnotes, description
/// lists, smart punctuation, and anchors at headings with nothing before their name.
pub open spec fn settings_of_pages(settings: SettingsView) -> bool {
    &&& settings.strikethrough && settings.table && settings.autolink && settings.tasklist
    &&& settings.tagfilter && settings.footnotes && settings.description_lists && settings.smart
    &&& !settings.full_info_string
    &&& settings.heading_prefix matches Some(prefix) && prefix.len() == 0
}

/// Whether a policy adds `word` to the elements that are allowed by default.
pub open spec fn element_added(policy: HtmlPolicyView, word: Seq<char>) -> bool {
    policy.elements.contains(word)
}

/// Whether a policy adds an attribute to those of an element.
pub open spec fn attribute_added(
    policy: HtmlPolicyView,
    element: Seq<char>,
    attribute: Seq<char>,
) -> bool {
    exists|i: int|
        0 <= i < policy.element_attributes.len() && (
        #[trigger] policy.element_attributes[i]).element == element
            && policy.element_attributes[i].attributes.contains(attribute)
}

/// Pages are rendered with their settings, and keep raw HTML until they are cleaned.
pub proof fn law_pages_have_their_settings()
    ensures
        settings_of_pages(page_settings()),
        KEEPS_RAW_HTML,
{
}

/// What a page may hold beside what is harmless anywhere: URLs of the web and of mail, sections to
/// unfold, keys and check boxes, and no other element; classes and anchors everywhere.
pub proof fn law_pages_hold_what_is_allowed(word: Seq<char>)
    ensures
        page_policy().schemes.contains(word) <==> word == "http"@ || word == "https"@ || word
            == "mailto"@,
        element_added(page_policy(), word) <==> word == "details"@ || word == "summary"@ || word
            == "kbd"@ || word == "input"@,
        page_policy().attributes.contains(word) <==> word == "class"@ || word == "id"@,
{
    let p = page_policy();
    assert(p.schemes[0] == "http"@ && p.schemes[1] == "https"@ && p.schemes[2] == "mailto"@);
    assert(p.elements[0] == "details"@ && p.elements[1] == "summary"@ && p.elements[2] == "kbd"@
        && p.elements[3] == "input"@);
    assert(p.attributes[0] == "class"@ && p.attributes[1] == "id"@);
}

/// A check box may say that it is one, that it is checked and that it is disabled; an image may have
/// a size, be aligned and be loaded late. No other element has an attribute of its own added.
pub proof fn law_elements_have_what_is_allowed(element: Seq<char>, attribute: Seq<char>)
    ensures
        attribute_added(page_policy(), element, attribute) <==> {
            ||| element == "input"@ && (attribute == "type"@ || attribute == "checked"@ || attribute
                == "disabled"@)
            ||| element == "img"@ && (attribute == "width"@ || attribute == "height"@ || attribute
                == "align"@ || attribute == "loading"@)
        },
{
    let rules = page_policy().element_attributes;
    let input: ElementRuleView = rules[0];
    let image: ElementRuleView = rules[1];
    assert(input.attributes[0] == "type"@ && input.attributes[1] == "checked"@
        && input.attributes[2] == "disabled"@);
    assert(image.attributes[0] == "width"@ && image.attributes[1] == "height"@
        && image.attributes[2] == "align"@ && image.attributes[3] == "loading"@);
    assert(rules.len() == 2);
}

/// The page of a document is its Markdown with the settings of pages, with its links and images seen
/// from the directory that the document lies in, and cleaned under the policy for pages with the same
/// links and images: neither the name of the document nor anything else has a part in it.
pub proof fn law_pages_are_rendered_where_they_lie(
    markdown: Seq<char>,
    options: Render,
    documents: Seq<DocumentView>,
    directory: Seq<Seq<u8>>,
    name: Seq<u8>,
)
    ensures
        page_directory(directory.push(name)) == directory,
        page_html(markdown, options, documents, directory.push(name)) == cleaned_html(
            rendered_html(
                markdown,
                page_settings(),
                options,
                link_rule(documents, directory),
                image_rule(directory),
            ),
            page_policy(),
            attribute_rule(documents, directory),
        ),
{
    assert(directory.push(name).drop_last() =~= directory);
}

/// The rules of a page are those for the URLs of links and images and for attributes.
pub proof fn law_rules_are_those_of_links(
    documents: Seq<DocumentView>,
    directory: Seq<Seq<u8>>,
    element: Seq<char>,
    attribute: Seq<char>,
    url: Seq<char>,
)
    ensures
        link_rule(documents, directory)(url) == crate::markdown::rewritten_link(
            documents,
            directory,
            url,
        ),
        image_rule(directory)(url) == crate::markdown::rewritten_image(directory, url),
        attribute_rule(documents, directory)(element, attribute, url)
            == crate::markdown::filtered_attribute(documents, directory, element, attribute, url),
{
}

} // verus!
