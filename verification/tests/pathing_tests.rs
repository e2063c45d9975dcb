use mdfolio::pathing::{
    asset_url, document_url, encode_relative_path, missing_url, normalize_library_path,
};
use mdfolio::paths::LibraryPath;
use mdfolio::places::{is_within, last_extension, library_path, strip_directory};

fn path(written: &str) -> LibraryPath {
    LibraryPath::parse(written).unwrap()
}

#[test]
fn joins_and_normalizes_without_escaping_the_library() {
    assert_eq!(
        normalize_library_path(&path("docs/guide"), "../intro.md"),
        Some(path("docs/intro.md"))
    );
    assert_eq!(normalize_library_path(&path("docs"), "../../secret.md"), None);
    assert_eq!(normalize_library_path(&path("docs"), "/README.md"), Some(path("README.md")));
}

#[test]
fn document_urls_encode_each_path_segment() {
    assert_eq!(
        document_url(&path("notes/a quiet day.md")),
        "/_mdfolio/doc/notes/a%20quiet%20day.md"
    );
}

#[test]
fn every_kind_of_address_has_its_prefix() {
    assert_eq!(asset_url(&path("a/b.png")), "/_mdfolio/asset/a/b.png");
    assert_eq!(missing_url(&path("gone")), "/_mdfolio/missing/gone");
    assert_eq!(document_url(&LibraryPath::empty()), "/_mdfolio/doc/");
}

#[test]
fn every_byte_is_encoded_and_read_back() {
    for byte in 1u8..=127 {
        if byte == b'/' || byte == b'.' {
            continue;
        }
        let name = vec![byte, b'x'];
        let path = LibraryPath::from_names(vec![b"dir".to_vec(), name]).unwrap();
        let encoded = encode_relative_path(&path);
        assert_eq!(normalize_library_path(&LibraryPath::empty(), &encoded), Some(path));
    }
}

#[test]
fn marks_are_percent_encoded_in_upper_case() {
    let path = path("a#b?c%d/é[1]^`{|}.md");
    assert_eq!(
        encode_relative_path(&path),
        "a%23b%3Fc%25d/%C3%A9%5B1%5D%5E%60%7B%7C%7D.md"
    );
}

#[test]
fn names_that_are_not_utf8_are_left_out_of_addresses() {
    let path = LibraryPath::from_names(vec![b"a".to_vec(), vec![0xff], b"b".to_vec()]).unwrap();
    assert_eq!(encode_relative_path(&path), "a/b");
}

#[test]
fn encoded_steps_are_followed() {
    let top = LibraryPath::empty();
    assert_eq!(normalize_library_path(&top, "%2E%2E/secret.pdf"), None);
    assert_eq!(normalize_library_path(&top, "a%2Fb"), Some(path("a/b")));
    assert_eq!(normalize_library_path(&top, "a/./b/../c//d/"), Some(path("a/c/d")));
    assert_eq!(normalize_library_path(&top, "a%00b"), None);
    assert_eq!(normalize_library_path(&top, "%FF"), None);
    assert_eq!(normalize_library_path(&top, "100%"), Some(path("100%")));
    assert_eq!(normalize_library_path(&top, "%zz"), Some(path("%zz")));
    assert_eq!(normalize_library_path(&path("a"), "//b"), Some(path("b")));
    assert_eq!(normalize_library_path(&path("a"), ""), Some(path("a")));
}

#[test]
fn paths_of_the_library_hold_ordinary_names_only() {
    assert_eq!(LibraryPath::parse("/a"), None);
    assert_eq!(LibraryPath::parse("a/../b"), None);
    assert_eq!(LibraryPath::parse("./a//b/"), Some(path("a/b")));
    assert_eq!(LibraryPath::from_names(vec![b"..".to_vec()]), None);
    assert_eq!(LibraryPath::from_names(vec![b"a/b".to_vec()]), None);
    assert_eq!(LibraryPath::from_names(vec![Vec::new()]), None);
}

#[test]
fn names_part_into_stem_and_extension() {
    let parts = |name: &str| {
        let path = path(name);
        (
            path.file_stem().map(|stem| stem.to_vec()),
            path.extension().map(|extension| extension.to_vec()),
        )
    };
    assert_eq!(parts("a.tar.gz"), (Some(b"a.tar".to_vec()), Some(b"gz".to_vec())));
    assert_eq!(parts(".hidden"), (Some(b".hidden".to_vec()), None));
    assert_eq!(parts("dot."), (Some(b"dot".to_vec()), Some(Vec::new())));
    assert_eq!(parts(""), (None, None));
}

#[test]
fn paths_are_compared_by_their_names() {
    assert!(path("a/b").starts_with(&path("a")));
    assert!(!path("ab").starts_with(&path("a")));
    assert!(path("a").precedes(&path("a/b")));
    assert!(path("a/b").precedes(&path("a.b")));
    assert_eq!(path("a/b/c").relative_to(&path("a")), path("b/c"));
    assert_eq!(path("a/b").relative_to(&path("c")), path("a/b"));
    assert_eq!(path("a/b").parent(), Some(path("a")));
    assert_eq!(LibraryPath::empty().parent(), None);
}

#[test]
fn places_lie_within_a_directory_by_whole_steps() {
    assert!(is_within(b"/library/a.png", b"/library"));
    assert!(is_within(b"/library", b"/library/"));
    assert!(is_within(b"/library//./a", b"/library"));
    assert!(is_within(b"/anything", b"/"));
    assert!(!is_within(b"/library2/a.png", b"/library"));
    assert!(!is_within(b"library/a.png", b"/library"));
    assert!(!is_within(b"/", b"/library"));
    assert_eq!(library_path(b"/library", b"/library/a/b.md"), Some(path("a/b.md")));
    assert_eq!(library_path(b"/library", b"/library"), Some(LibraryPath::empty()));
    assert_eq!(library_path(b"/library", b"/elsewhere/b.md"), None);
    assert_eq!(library_path(b"/library", b"/library/../b.md"), None);
}

#[test]
fn the_rest_of_a_path_is_written_as_it_is() {
    let rest = |directory: &str, path: &str| {
        strip_directory(directory.as_bytes(), path.as_bytes())
            .map(|rest| String::from_utf8(rest).unwrap())
    };
    for (directory, path, expected) in [
        ("/library", "/library/a//b/./c.md", Some("a//b/./c.md")),
        ("/library", "/library//./a/", Some("a")),
        ("/library", "//library/a/.", Some("a")),
        ("/library/", "/library/../x.md", Some("../x.md")),
        ("/library", "/library", Some("")),
        ("/library", "/library/.", Some("")),
        ("/", "/a/b", Some("a/b")),
        ("", "/a/", Some("/a")),
        ("", "./a/.", Some("./a")),
        ("", "a/", Some("a")),
        ("a", "a/b", Some("b")),
        ("./a", "./a/.b", Some(".b")),
        ("/library", "/library2/a", None),
        ("/library", "library/a", None),
    ] {
        assert_eq!(rest(directory, path).as_deref(), expected, "{path}");
        let std_path = std::path::Path::new(path);
        let stripped = std_path.strip_prefix(directory).ok().and_then(|rest| rest.to_str());
        assert_eq!(stripped, expected, "{path}");
        let extension = last_extension(path.as_bytes());
        let std_extension = std_path.extension().and_then(|extension| extension.to_str());
        assert_eq!(extension.as_deref(), std_extension.map(str::as_bytes), "{path}");
    }
    assert_eq!(last_extension(b"a.md/.."), None);
    assert_eq!(last_extension(b".."), None);
    assert_eq!(last_extension(b"..md").as_deref(), Some(&b"md"[..]));
}
