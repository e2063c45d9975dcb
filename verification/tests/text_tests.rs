use mdfolio::order::{sorted_positions, SortKey};
use mdfolio::paths::{show, LibraryPath};
use mdfolio::places::is_within;
use mdfolio::text::{
    ascii_lowercase, bytes_eq_ignore_case, bytes_precede, chars_of, index_of_char, is_white_space,
    text_eq, text_of, trim, trim_end_char,
};
use mdfolio::titles::{
    collapse_heading_whitespace, collect_text, extract_title, file_stem_title,
    heading_has_inline_markup, heading_looks_like_block, plain_inline_title, read_title,
    HeadingNode, TITLE_PREFIX_BYTES,
};

fn title(markdown: &str) -> Option<String> {
    extract_title(markdown)
}

#[test]
fn white_space_is_that_of_unicode() {
    for c in '\0'..=char::MAX {
        assert_eq!(is_white_space(c), c.is_whitespace(), "{c:?}");
    }
}

#[test]
fn text_is_trimmed_and_compared_as_in_the_standard_library() {
    for text in ["", " ", " a b ", "\u{2003}é\t", "abc", "##a##", "ÄB cD"] {
        let chars = chars_of(text);
        assert_eq!(text_of(trim(&chars)), text.trim());
        assert_eq!(text_of(trim_end_char(&chars, '#')), text.trim_end_matches('#'));
        assert_eq!(ascii_lowercase(text), text.to_ascii_lowercase());
        assert_eq!(index_of_char(&chars, 'b'), text.chars().take_while(|c| *c != 'b').count());
        for other in ["", "abc", "ABC", "ab", "äb cd"] {
            assert_eq!(text_eq(text, other), text == other);
            assert_eq!(bytes_precede(text.as_bytes(), other.as_bytes()), text < other);
            assert_eq!(
                bytes_eq_ignore_case(text.as_bytes(), other.as_bytes()),
                text.eq_ignore_ascii_case(other)
            );
        }
    }
}

#[test]
fn bytes_are_shown_as_text() {
    assert_eq!(show("é".as_bytes()), "é");
    assert_eq!(show(b"a\xffb"), String::from_utf8_lossy(b"a\xffb"));
}

#[test]
fn sorting_is_stable() {
    let key = |priority: u8, depth: usize, text: &str| SortKey {
        priority,
        depth,
        text: text.to_owned(),
    };
    let keys = vec![
        key(1, 0, "b"),
        key(0, 2, "z"),
        key(1, 0, "a"),
        key(0, 1, "z"),
        key(1, 0, "a"),
        key(0, 2, "z"),
    ];
    assert_eq!(sorted_positions(&keys), [3, 1, 5, 2, 4, 0]);
    assert!(sorted_positions(&Vec::new()).is_empty());
    assert!(keys[3].precedes(&keys[1]));
    assert!(!keys[1].precedes(&keys[5]));

    let many: Vec<SortKey> = (0..100).map(|n: usize| key(0, (n * 37) % 101, "")).collect();
    let mut expected: Vec<usize> = (0..100).collect();
    expected.sort_by_key(|position| many[*position].depth);
    assert_eq!(sorted_positions(&many), expected);
}

#[test]
fn places_are_compared_as_paths_are() {
    for place in ["/a", "/a/b", "/a//b/", "/a/./b", "a/b", "./a", "a", "", "/", "/ab", "/a/../b"] {
        for directory in ["/", "/a", "/a/", "/a/b", "", ".", "a", "./a", "/a/."] {
            assert_eq!(
                is_within(place.as_bytes(), directory.as_bytes()),
                std::path::Path::new(place).starts_with(directory),
                "{place} in {directory}"
            );
        }
    }
}

#[test]
fn titles_are_found_in_headings() {
    assert_eq!(title("# One\n# Two").as_deref(), Some("One"));
    assert_eq!(title("text\n###### Six ##").as_deref(), Some("Six"));
    assert_eq!(title("####### Seven"), None);
    assert_eq!(title("#One"), None);
    assert_eq!(title("  # Indented").as_deref(), Some("Indented"));
    assert_eq!(title("Title\r\n---\r\n").as_deref(), Some("Title"));
    assert_eq!(title("\n---\n"), None);
    assert_eq!(title("a\n=-=\n"), None);
    assert_eq!(title("# `code` and  *more*").as_deref(), Some("code and more"));
    assert_eq!(title("#\tTab").as_deref(), Some("Tab"));
    assert_eq!(title(""), None);
}

#[test]
fn headings_are_reduced_to_plain_text() {
    let plain = |markdown: &str| plain_inline_title(&chars_of(markdown));
    assert_eq!(plain("a   b").as_deref(), Some("a b"));
    assert_eq!(plain("*a* \\* b").as_deref(), Some("a * b"));
    assert_eq!(plain("1) first").as_deref(), Some("first"));
    assert_eq!(plain("1.first").as_deref(), Some("1.first"));
    assert_eq!(plain("+ item").as_deref(), Some("item"));
    assert_eq!(plain("![](x.png)"), None);
    assert!(heading_has_inline_markup(&chars_of("a&b")));
    assert!(!heading_has_inline_markup(&chars_of("a-b")));
    assert!(heading_looks_like_block(&chars_of("  > a")));
    assert!(heading_looks_like_block(&chars_of("12.\ta")));
    assert!(!heading_looks_like_block(&chars_of("12")));
    assert!(!heading_looks_like_block(&chars_of("-a")));
    assert_eq!(collapse_heading_whitespace(&chars_of(" \t ")), None);
}

#[test]
fn the_text_of_nodes_is_collected() {
    let nodes = vec![
        HeadingNode::Other,
        HeadingNode::Text("a".to_owned()),
        HeadingNode::SoftBreak,
        HeadingNode::Code("b".to_owned()),
        HeadingNode::LineBreak,
    ];
    assert_eq!(collect_text(&nodes), "a b ");
}

#[test]
fn titles_are_searched_in_the_first_bytes_only() {
    let mut contents = vec![b'x'; TITLE_PREFIX_BYTES - 4];
    contents.extend_from_slice(b"\n# A");
    assert_eq!(read_title(&contents).as_deref(), Some("A"));
    contents.extend_from_slice(b"nother");
    assert_eq!(read_title(&contents).as_deref(), Some("A"));
    assert_eq!(read_title(b"# \xff").as_deref(), Some("\u{fffd}"));
}

#[test]
fn stems_stand_in_for_titles() {
    let stem = |written: &str| file_stem_title(&LibraryPath::parse(written).unwrap());
    assert_eq!(stem("a/my_first-note.md"), "my first note");
    assert_eq!(stem(""), "Untitled");
    let path = LibraryPath::from_names(vec![b"\xff.md".to_vec()]).unwrap();
    assert_eq!(file_stem_title(&path), "Untitled");
}
