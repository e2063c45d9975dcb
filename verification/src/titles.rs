//! The title of a document: its first heading, as plain text.

use vstd::prelude::*;
use vstd::utf8::{decode_utf8, valid_utf8};
use comrak::nodes::NodeValue;
use crate::paths::{show, shown, stem_of, LibraryPath};
use crate::text::{
    chars_of, fields, index_of_char, is_char, is_space, is_white_space, joined, lemma_fields,
    lemma_joined_fields, lemma_run_is, lemma_until, lemma_until_is, run, text_from_utf8, text_of,
    trim, trim_end_char, trim_start, trimmed, trimmed_end_of, trimmed_start, until,
};

verus! {

broadcast use vstd::string::group_string_axioms;

/// How much of a file is searched for its title.
pub const TITLE_PREFIX_BYTES: usize = 65536;

// ---------------------------------------------------------------------------
// Lines
// ---------------------------------------------------------------------------

/// A line without the carriage return before its line feed.
pub open spec fn without_return(line: Seq<char>) -> Seq<char> {
    if line.len() > 0 && line.last() == '\r' {
        line.drop_last()
    } else {
        line
    }
}

/// The lines of a text. A line ends with a line feed, or a carriage return and a line feed; the
/// last one may end with the text.
pub open spec fn lines(s: Seq<char>) -> Seq<Seq<char>>
    decreases s.len(),
{
    if s.len() == 0 {
        Seq::empty()
    } else {
        let k = until(s, is_char('\n'));
        proof {
            lemma_until(s, is_char('\n'));
        }
        if k == s.len() {
            seq![s]
        } else {
            seq![without_return(s.take(k as int))] + lines(s.skip(k as int + 1))
        }
    }
}

// ---------------------------------------------------------------------------
// Headings
// ---------------------------------------------------------------------------

/// Whether a text is one or more of the same character.
pub open spec fn all_of(s: Seq<char>, c: char) -> bool {
    s.len() > 0 && forall|i: int| 0 <= i < s.len() ==> #[trigger] s[i] == c
}

/// Whether a line underlines the line before it.
pub open spec fn is_underline(line: Seq<char>) -> bool {
    all_of(trimmed(line), '=') || all_of(trimmed(line), '-')
}

/// The heading that a line makes of the line before it.
pub open spec fn setext_heading(previous: Option<Seq<char>>, line: Seq<char>) -> Option<Seq<char>> {
    match previous {
        Some(above) => if is_underline(line) && trimmed(above).len() > 0 {
            Some(trimmed(above))
        } else {
            None
        },
        None => None,
    }
}

/// The white space of ASCII.
pub open spec fn ascii_space(c: char) -> bool {
    c == ' ' || c == '\t' || c == '\n' || c == '\u{c}' || c == '\r'
}

/// The heading in a line of one to six number signs, white space and a text.
pub open spec fn atx_heading(line: Seq<char>) -> Option<Seq<char>> {
    let body = trimmed_start(line);
    let level = run(body, is_char('#'));
    if 1 <= level <= 6 && level < body.len() && ascii_space(body[level as int]) {
        let title = trimmed(trimmed_end_of(trimmed(body.skip(level as int)), is_char('#')));
        if title.len() > 0 {
            Some(title)
        } else {
            None
        }
    } else {
        None
    }
}

/// The heading that is complete with a line.
pub open spec fn heading_at(previous: Option<Seq<char>>, line: Seq<char>) -> Option<Seq<char>> {
    match setext_heading(previous, line) {
        Some(title) => Some(title),
        None => atx_heading(line),
    }
}

/// The first heading of a list of lines.
pub open spec fn first_heading(
    previous: Option<Seq<char>>,
    rest: Seq<Seq<char>>,
) -> Option<Seq<char>>
    decreases rest.len(),
{
    if rest.len() == 0 {
        None
    } else {
        match heading_at(previous, rest[0]) {
            Some(title) => Some(title),
            None => first_heading(Some(rest[0]), rest.drop_first()),
        }
    }
}

// ---------------------------------------------------------------------------
// Plain text
// ---------------------------------------------------------------------------

/// A text with every stretch of white space made one space, and none at its ends; nothing where
/// nothing else is left.
pub open spec fn collapsed(s: Seq<char>) -> Option<Seq<char>> {
    let words = fields(s, is_space());
    if words.len() == 0 {
        None
    } else {
        Some(joined(words, seq![' ']))
    }
}

/// The characters that may begin or end inline markup.
pub open spec fn markup_char(c: char) -> bool {
    c == '*' || c == '_' || c == '`' || c == '[' || c == ']' || c == '<' || c == '&' || c == '\\'
}

/// Whether a heading may hold inline markup.
pub open spec fn has_markup(s: Seq<char>) -> bool {
    exists|i: int| 0 <= i < s.len() && markup_char(#[trigger] s[i])
}

/// The digits of ASCII, as a predicate.
pub open spec fn is_digit() -> spec_fn(char) -> bool {
    |c: char| '0' <= c <= '9'
}

/// Whether a heading begins like a quotation or a list item.
pub open spec fn looks_like_block(s: Seq<char>) -> bool {
    let body = trimmed_start(s);
    let digits = run(body, is_digit()) as int;
    ||| body.len() >= 1 && body[0] == '>'
    ||| body.len() >= 2 && (body[0] == '-' || body[0] == '+') && body[1] == ' '
    ||| digits > 0 && digits + 1 < body.len() && (body[digits] == '.' || body[digits] == ')') && (
    body[digits + 1] == ' ' || body[digits + 1] == '\t')
}

/// A node of a parsed heading, as far as its text matters.
pub enum HeadingNode {
    Text(String),
    Code(String),
    SoftBreak,
    LineBreak,
    Other,
}

/// The value of a node.
pub enum HeadingNodeView {
    Text(Seq<char>),
    Code(Seq<char>),
    SoftBreak,
    LineBreak,
    Other,
}

impl View for HeadingNode {
    type V = HeadingNodeView;

    open spec fn view(&self) -> HeadingNodeView {
        match self {
            HeadingNode::Text(text) => HeadingNodeView::Text(text@),
            HeadingNode::Code(text) => HeadingNodeView::Code(text@),
            HeadingNode::SoftBreak => HeadingNodeView::SoftBreak,
            HeadingNode::LineBreak => HeadingNodeView::LineBreak,
            HeadingNode::Other => HeadingNodeView::Other,
        }
    }
}

/// The values of a list of nodes.
pub open spec fn node_views(nodes: Seq<HeadingNode>) -> Seq<HeadingNodeView> {
    Seq::new(nodes.len(), |i: int| nodes[i]@)
}

/// The nodes that `comrak::parse_document` makes of a text with the default options, from the
/// document down, in document order.
pub uninterp spec fn parsed_nodes(markdown: Seq<char>) -> Seq<HeadingNodeView>;

/// `comrak::parse_document` with the default options, and the nodes of the tree in document
/// order. Which nodes a text has is not stated; they are the same for the same text.
#[verifier::external_body]
fn parse_nodes(markdown: &str) -> (res: Vec<HeadingNode>)
    ensures
        node_views(res@) == parsed_nodes(markdown@),
{
    let arena = comrak::Arena::new();
    let root = comrak::parse_document(&arena, markdown, &comrak::Options::default());
    root.descendants().map(|node| match &node.data.borrow().value {
        NodeValue::Text(text) => HeadingNode::Text(text.to_string()),
        NodeValue::Code(code) => HeadingNode::Code(code.literal.clone()),
        NodeValue::SoftBreak => HeadingNode::SoftBreak,
        NodeValue::LineBreak => HeadingNode::LineBreak,
        _ => HeadingNode::Other,
    }).collect()
}

/// The text that a node adds.
pub open spec fn node_text(node: HeadingNodeView) -> Seq<char> {
    match node {
        HeadingNodeView::Text(text) => text,
        HeadingNodeView::Code(text) => text,
        HeadingNodeView::SoftBreak => seq![' '],
        HeadingNodeView::LineBreak => seq![' '],
        HeadingNodeView::Other => Seq::empty(),
    }
}

/// The text of a list of nodes.
pub open spec fn nodes_text(nodes: Seq<HeadingNodeView>) -> Seq<char>
    decreases nodes.len(),
{
    if nodes.len() == 0 {
        Seq::empty()
    } else {
        nodes_text(nodes.drop_last()) + node_text(nodes.last())
    }
}

/// The plain text of a heading.
pub open spec fn plain_title(heading: Seq<char>) -> Option<Seq<char>> {
    if !has_markup(heading) && !looks_like_block(heading) {
        collapsed(heading)
    } else {
        collapsed(nodes_text(parsed_nodes(heading)))
    }
}

/// The title of a text: the plain text of its first heading.
pub open spec fn title_of(markdown: Seq<char>) -> Option<Seq<char>> {
    match first_heading(None, lines(markdown)) {
        Some(heading) => plain_title(heading),
        None => None,
    }
}

/// The first bytes of a file, as many as are searched for the title.
pub open spec fn title_prefix(contents: Seq<u8>) -> Seq<u8> {
    if contents.len() <= TITLE_PREFIX_BYTES {
        contents
    } else {
        contents.take(TITLE_PREFIX_BYTES as int)
    }
}

/// The title in the contents of a file.
pub open spec fn title_in(contents: Seq<u8>) -> Option<Seq<char>> {
    title_of(shown(title_prefix(contents)))
}

/// A text with a space in place of every hyphen and underscore.
pub open spec fn spaced(s: Seq<char>) -> Seq<char> {
    s.map_values(|c: char| if c == '-' || c == '_' { ' ' } else { c })
}

/// The title of a document without one: the stem of its name.
pub open spec fn stem_title(path: Seq<Seq<u8>>) -> Seq<char> {
    if path.len() > 0 && valid_utf8(stem_of(path.last())) {
        spaced(decode_utf8(stem_of(path.last())))
    } else {
        "Untitled"@
    }
}

// ---------------------------------------------------------------------------
// Functions
// ---------------------------------------------------------------------------

/// Whether a text is one or more of the same character.
fn is_all_of(s: &[char], c: char) -> (res: bool)
    ensures
        res == all_of(s@, c),
{
    let mut i: usize = 0;
    while i < s.len()
        invariant
            i <= s@.len(),
            forall|j: int| 0 <= j < i ==> #[trigger] s@[j] == c,
        decreases s@.len() - i,
    {
        if s[i] != c {
            return false;
        }
        i += 1;
    }
    s.len() > 0
}

/// The heading that a line makes of the line before it.
fn setext_title<'a>(previous: Option<&'a [char]>, line: &[char]) -> (res: Option<&'a [char]>)
    ensures
        ({
            let p = match previous {
                Some(above) => Some(above@),
                None => None,
            };
            &&& res is Some <==> setext_heading(p, line@) is Some
            &&& res matches Some(title) ==> Some(title@) == setext_heading(p, line@)
        }),
{
    match previous {
        Some(above) => {
            let underline: &[char] = trim(line);
            let title: &[char] = trim(above);
            if (is_all_of(underline, '=') || is_all_of(underline, '-')) && title.len() > 0 {
                Some(title)
            } else {
                None
            }
        },
        None => None,
    }
}

/// The heading in a line that begins with number signs.
fn atx_title(line: &[char]) -> (res: Option<&[char]>)
    ensures
        res is Some <==> atx_heading(line@) is Some,
        res matches Some(title) ==> Some(title@) == atx_heading(line@),
{
    let body: &[char] = trim_start(line);
    let mut level: usize = 0;
    while level < body.len() && body[level] == '#'
        invariant
            level <= body@.len(),
            forall|j: int| 0 <= j < level ==> is_char('#')(#[trigger] body@[j]),
        decreases body@.len() - level,
    {
        level += 1;
    }
    proof {
        lemma_run_is(body@, is_char('#'), level as nat);
        assert(body@.subrange(level as int, body@.len() as int) =~= body@.skip(level as int));
    }
    if 1 <= level && level <= 6 && level < body.len() && (body[level] == ' ' || body[level] == '\t'
        || body[level] == '\n' || body[level] == '\u{c}' || body[level] == '\r') {
        let rest: &[char] = vstd::slice::slice_subrange(body, level, body.len());
        let title: &[char] = trim(trim_end_char(trim(rest), '#'));
        if title.len() > 0 {
            return Some(title);
        }
    }
    None
}

/// The title of a Markdown text, if it has one.
pub fn extract_title(markdown: &str) -> (res: Option<String>)
    ensures
        res is Some <==> title_of(markdown@) is Some,
        res matches Some(title) ==> Some(title@) == title_of(markdown@),
{
    let chars: Vec<char> = chars_of(markdown);
    let all: &[char] = chars.as_slice();
    let mut previous: Option<&[char]> = None;
    let mut pos: usize = 0;
    assert(all@.skip(0) =~= all@);
    while pos < all.len()
        invariant
            pos <= all@.len(),
            all@ == markdown@,
            first_heading(None, lines(all@)) == first_heading(
                (match previous {
                    Some(line) => Some(line@),
                    None => None,
                }),
                lines(all@.skip(pos as int)),
            ),
        decreases all@.len() - pos,
    {
        let ghost rest = all@.skip(pos as int);
        let ghost before = match previous {
            Some(line) => Some(line@),
            None => None,
        };
        let tail: &[char] = vstd::slice::slice_subrange(all, pos, all.len());
        assert(tail@ =~= rest);
        let k: usize = index_of_char(tail, '\n');
        let end: usize = if k < tail.len() && k > 0 && tail[k - 1] == '\r' {
            k - 1
        } else {
            k
        };
        let line: &[char] = vstd::slice::slice_subrange(tail, 0, end);
        let next: usize = if k < tail.len() {
            pos + k + 1
        } else {
            all.len()
        };
        proof {
            lemma_until(rest, is_char('\n'));
            if k < tail.len() {
                assert(line@ =~= without_return(rest.take(k as int)));
                assert(rest.skip(k + 1) =~= all@.skip(next as int));
                assert(lines(rest).drop_first() =~= lines(all@.skip(next as int)));
            } else {
                assert(line@ =~= rest);
                assert(all@.skip(next as int) =~= Seq::<char>::empty());
                assert(lines(rest).drop_first() =~= lines(all@.skip(next as int)));
            }
            assert(lines(rest)[0] == line@);
        }
        match setext_title(previous, line) {
            Some(title) => {
                assert(heading_at(before, line@) == Some(title@));
                return plain_inline_title(title);
            },
            None => {},
        }
        match atx_title(line) {
            Some(title) => {
                assert(heading_at(before, line@) == Some(title@));
                return plain_inline_title(title);
            },
            None => {},
        }
        previous = Some(line);
        pos = next;
    }
    assert(all@.skip(pos as int) =~= Seq::<char>::empty());
    None
}

/// Whether a heading may hold inline markup.
pub fn heading_has_inline_markup(markdown: &[char]) -> (res: bool)
    ensures
        res == has_markup(markdown@),
{
    let mut i: usize = 0;
    while i < markdown.len()
        invariant
            i <= markdown@.len(),
            forall|j: int| 0 <= j < i ==> !markup_char(#[trigger] markdown@[j]),
        decreases markdown@.len() - i,
    {
        let c: char = markdown[i];
        if c == '*' || c == '_' || c == '`' || c == '[' || c == ']' || c == '<' || c == '&' || c
            == '\\' {
            assert(markup_char(markdown@[i as int]));
            return true;
        }
        i += 1;
    }
    false
}

/// Whether a heading begins like a quotation or a list item. The parser takes such a marker for
/// a block of its own, so it is no part of the title.
pub fn heading_looks_like_block(markdown: &[char]) -> (res: bool)
    ensures
        res == looks_like_block(markdown@),
{
    let body: &[char] = trim_start(markdown);
    let mut digits: usize = 0;
    while digits < body.len() && '0' <= body[digits] && body[digits] <= '9'
        invariant
            digits <= body@.len(),
            forall|j: int| 0 <= j < digits ==> is_digit()(#[trigger] body@[j]),
        decreases body@.len() - digits,
    {
        digits += 1;
    }
    proof {
        lemma_run_is(body@, is_digit(), digits as nat);
    }
    if body.len() >= 1 && body[0] == '>' {
        return true;
    }
    if body.len() >= 2 && (body[0] == '-' || body[0] == '+') && body[1] == ' ' {
        return true;
    }
    digits > 0 && body.len() >= 2 && digits < body.len() - 1 && (body[digits] == '.' || body[digits]
        == ')') && (body[digits + 1] == ' ' || body[digits + 1] == '\t')
}

/// Makes every stretch of white space one space.
pub fn collapse_heading_whitespace(markdown: &[char]) -> (res: Option<String>)
    ensures
        res is Some <==> collapsed(markdown@) is Some,
        res matches Some(title) ==> Some(title@) == collapsed(markdown@),
{
    let ghost words = fields(markdown@, is_space());
    let mut title: String = String::new();
    let mut count: usize = 0;
    let mut i: usize = 0;
    assert(markdown@.skip(0) =~= markdown@);
    assert(words.take(0) =~= Seq::<Seq<char>>::empty());
    assert(words.skip(0) =~= words);
    while i < markdown.len()
        invariant
            i <= markdown@.len(),
            count <= i,
            words == fields(markdown@, is_space()),
            count <= words.len(),
            words.skip(count as int) == fields(markdown@.skip(i as int), is_space()),
            title@ == joined(words.take(count as int), seq![' ']),
        decreases markdown@.len() - i,
    {
        let ghost rest = markdown@.skip(i as int);
        let start: usize = i;
        while i < markdown.len() && !is_white_space(markdown[i])
            invariant
                start <= i <= markdown@.len(),
                forall|j: int| start <= j < i ==> !is_space()(#[trigger] markdown@[j]),
            decreases markdown@.len() - i,
        {
            i += 1;
        }
        let ghost k = (i - start) as nat;
        proof {
            assert forall|j: int| 0 <= j < k implies !is_space()(#[trigger] rest[j]) by {
                assert(rest[j] == markdown@[start + j]);
            }
            lemma_until_is(rest, is_space(), k);
            assert(rest.skip(k as int) =~= markdown@.skip(i as int));
        }
        if i > start {
            let ghost word = rest.take(k as int);
            proof {
                assert(!is_space()(rest[0]));
                assert(words.skip(count as int)[0] == word);
                assert(words.skip(count as int).drop_first() =~= words.skip(count + 1));
                assert(words.skip(count as int).drop_first() =~= fields(
                    rest.skip(k as int),
                    is_space(),
                ));
                assert(words.take(count + 1).drop_last() =~= words.take(count as int));
                assert(words.take(count + 1).last() == word);
            }
            if count > 0 {
                title.push(' ');
            }
            let piece: &[char] = vstd::slice::slice_subrange(markdown, start, i);
            assert(piece@ =~= word);
            title.append(text_of(piece).as_str());
            count += 1;
        } else {
            i += 1;
            assert(rest.drop_first() =~= markdown@.skip(i as int));
            assert(is_space()(rest[0]));
        }
    }
    assert(markdown@.skip(i as int) =~= Seq::<char>::empty());
    assert(words.skip(count as int).len() == 0);
    assert(words.take(count as int) =~= words);
    if count == 0 {
        None
    } else {
        Some(title)
    }
}

/// The text of a list of nodes.
pub fn collect_text(nodes: &Vec<HeadingNode>) -> (res: String)
    ensures
        res@ == nodes_text(node_views(nodes@)),
{
    let ghost views = node_views(nodes@);
    let mut title: String = String::new();
    let mut i: usize = 0;
    assert(views.take(0) =~= Seq::<HeadingNodeView>::empty());
    while i < nodes.len()
        invariant
            i <= nodes@.len(),
            views == node_views(nodes@),
            title@ == nodes_text(views.take(i as int)),
        decreases nodes@.len() - i,
    {
        assert(views.take(i + 1).drop_last() =~= views.take(i as int));
        assert(views.take(i + 1).last() == nodes@[i as int]@);
        let ghost before = title@;
        match &nodes[i] {
            HeadingNode::Text(text) => {
                title.append(text.as_str());
            },
            HeadingNode::Code(text) => {
                title.append(text.as_str());
            },
            HeadingNode::SoftBreak => {
                title.push(' ');
            },
            HeadingNode::LineBreak => {
                title.push(' ');
            },
            HeadingNode::Other => {},
        }
        assert(title@ =~= before + node_text(views[i as int]));
        i += 1;
    }
    assert(views.take(i as int) =~= views);
    title
}

/// The plain text of a heading: its markup is parsed where it may have any.
pub fn plain_inline_title(markdown: &[char]) -> (res: Option<String>)
    ensures
        res is Some <==> plain_title(markdown@) is Some,
        res matches Some(title) ==> Some(title@) == plain_title(markdown@),
{
    if !heading_has_inline_markup(markdown) && !heading_looks_like_block(markdown) {
        return collapse_heading_whitespace(markdown);
    }
    let nodes: Vec<HeadingNode> = parse_nodes(text_of(markdown).as_str());
    let title: String = collect_text(&nodes);
    collapse_heading_whitespace(chars_of(title.as_str()).as_slice())
}

/// The title in the contents of a file. Only the first `TITLE_PREFIX_BYTES` are searched.
pub fn read_title(contents: &[u8]) -> (res: Option<String>)
    ensures
        res is Some <==> title_in(contents@) is Some,
        res matches Some(title) ==> Some(title@) == title_in(contents@),
{
    let searched: &[u8] = if contents.len() <= TITLE_PREFIX_BYTES {
        contents
    } else {
        assert(contents@.subrange(0, TITLE_PREFIX_BYTES as int) =~= contents@.take(
            TITLE_PREFIX_BYTES as int,
        ));
        vstd::slice::slice_subrange(contents, 0, TITLE_PREFIX_BYTES)
    };
    extract_title(show(searched).as_str())
}

/// The title of a document without one.
pub fn file_stem_title(path: &LibraryPath) -> (res: String)
    ensures
        res@ == stem_title(path@),
{
    let stem: &[u8] = match path.file_stem() {
        Some(stem) => stem,
        None => {
            return "Untitled".to_owned();
        },
    };
    let text: &str = match text_from_utf8(stem) {
        Some(text) => text,
        None => {
            return "Untitled".to_owned();
        },
    };
    let chars: Vec<char> = chars_of(text);
    let mut res: String = String::new();
    let mut i: usize = 0;
    assert(spaced(chars@.take(0)) =~= Seq::<char>::empty());
    while i < chars.len()
        invariant
            i <= chars@.len(),
            res@ == spaced(chars@.take(i as int)),
        decreases chars@.len() - i,
    {
        let c: char = chars[i];
        let shown: char = if c == '-' || c == '_' {
            ' '
        } else {
            c
        };
        res.push(shown);
        i += 1;
        assert(spaced(chars@.take(i as int)) =~= spaced(chars@.take(i - 1)).push(shown));
    }
    assert(chars@.take(i as int) =~= text@);
    res
}

// ---------------------------------------------------------------------------
// Laws
// ---------------------------------------------------------------------------

/// A title is tidy: it is not empty, it has no white space at its ends, and single spaces
/// between its words. Making it tidy again changes nothing.
pub proof fn law_titles_are_tidy(markdown: Seq<char>)
    ensures
        title_of(markdown) matches Some(title) ==> title.len() > 0 && collapsed(title) == Some(
            title,
        ),
{
    match first_heading(None, lines(markdown)) {
        Some(heading) => {
            lemma_collapsed_is_tidy(heading);
            lemma_collapsed_is_tidy(nodes_text(parsed_nodes(heading)));
        },
        None => {},
    }
}

proof fn lemma_collapsed_is_tidy(s: Seq<char>)
    ensures
        collapsed(s) matches Some(title) ==> title.len() > 0 && collapsed(title) == Some(title),
{
    let words = fields(s, is_space());
    lemma_fields(s, is_space());
    assert(is_space()(' '));
    lemma_joined_fields(words, ' ', is_space());
}

/// Nothing after the first `TITLE_PREFIX_BYTES` of a file has any part in its title.
pub proof fn law_title_search_is_bounded(prefix: Seq<u8>, a: Seq<u8>, b: Seq<u8>)
    requires
        prefix.len() == TITLE_PREFIX_BYTES,
    ensures
        title_in(prefix + a) == title_in(prefix + b),
{
    assert((prefix + a).take(TITLE_PREFIX_BYTES as int) =~= prefix);
    assert((prefix + b).take(TITLE_PREFIX_BYTES as int) =~= prefix);
    if a.len() == 0 {
        assert(prefix + a =~= prefix);
    }
    if b.len() == 0 {
        assert(prefix + b =~= prefix);
    }
}

} // verus!
