use mdfolio::assembly::{qualify_duplicate_repository_names, RootInspection, WalkEntry};
use mdfolio::catalog::{Catalog, CatalogMode, Document, Landing, Repository, ScanError};
use mdfolio::reading::{choose_default_document, default_document_sort_key, path_sort_key};
use mdfolio::discovery::{
    ignore_error_path, is_hard_excluded, is_markdown_entry, is_markdown_path, keeps_entry,
    nearest_repository_root, parse_gitfile, probe_git_marker, Boundaries, EntryKind, GitMarker,
    GitProbe, RootSearch, WalkError, MAX_GITFILE_BYTES,
};
use mdfolio::pathing::normalize_library_path;
use mdfolio::paths::LibraryPath;
use mdfolio::walk::Walk;

/// A library that exists in memory only: its files, and directories without files.
struct Library {
    files: Vec<(String, Vec<u8>)>,
    directories: Vec<String>,
}

impl Library {
    fn new() -> Library {
        Library { files: Vec::new(), directories: Vec::new() }
    }

    fn write(mut self, path: &str, contents: &str) -> Library {
        self.files.push((path.to_owned(), contents.as_bytes().to_vec()));
        self
    }

    fn git(self, path: &str) -> Library {
        let head = if path.is_empty() {
            ".git/HEAD".to_owned()
        } else {
            format!("{path}/.git/HEAD")
        };
        self.write(&head, "ref: refs/heads/main\n")
    }

    fn directory(mut self, path: &str) -> Library {
        self.directories.push(path.to_owned());
        self
    }

    fn file(&self, path: &str) -> Option<&[u8]> {
        self.files.iter().find(|file| file.0 == path).map(|file| file.1.as_slice())
    }

    fn marker(&self, path: &str) -> GitMarker {
        if let Some(contents) = self.file(path) {
            return GitMarker::File { bytes: contents.len() as u64 };
        }
        let prefix = format!("{path}/");
        let is_directory = self.directories.iter().any(|directory| directory == path)
            || self.files.iter().any(|file| file.0.starts_with(&prefix));
        if is_directory {
            GitMarker::Directory
        } else {
            GitMarker::Absent
        }
    }

    fn is_git_boundary(&self, directory: &LibraryPath) -> bool {
        let marker = text(&directory.child(b".git"));
        match probe_git_marker(self.marker(&marker)) {
            GitProbe::NoRepository => false,
            GitProbe::AdminDirectory => self.file(&format!("{marker}/HEAD")).is_some(),
            GitProbe::Gitfile => {
                let contents = String::from_utf8(self.file(&marker).unwrap().to_vec()).unwrap();
                let Some(target) = parse_gitfile(&contents) else {
                    return false;
                };
                let admin = normalize_library_path(directory, &target).unwrap();
                self.file(&text(&admin.child(b"HEAD"))).is_some()
            }
        }
    }

    fn scan(&self) -> Catalog {
        let mut files: Vec<&(String, Vec<u8>)> = self.files.iter().collect();
        files.sort();
        let mut entries = Vec::new();
        let mut boundaries = Boundaries::new();
        for (name, contents) in files {
            let path = path(name);
            let kept = (0..path.len() - 1).all(|depth| keeps_entry(depth + 1, true, path.name(depth)))
                && keeps_entry(path.len(), false, path.name(path.len() - 1));
            if !kept {
                continue;
            }
            while let RootSearch::Unknown(directory) = nearest_repository_root(&path, &boundaries) {
                let is_repository = self.is_git_boundary(&directory);
                boundaries.insert(directory, is_repository);
            }
            entries.push(WalkEntry::Entry {
                kind: EntryKind::File,
                path,
                contents: Ok(contents.clone()),
            });
        }
        scan_entries(entries, &boundaries)
    }
}

fn walk_of(entries: Vec<WalkEntry>, boundaries: &Boundaries) -> Walk {
    let mut walk = Walk::new();
    for entry in entries {
        if let WalkEntry::Entry { path, .. } = &entry {
            while let Some(directory) = walk.question(path) {
                let is_repository = boundaries.get(&directory).unwrap_or(false);
                walk = walk.with_finding(directory, is_repository);
            }
        }
        walk = walk.with_step(entry);
    }
    walk
}

fn scan_entries(entries: Vec<WalkEntry>, boundaries: &Boundaries) -> Catalog {
    let inspection = RootInspection::Found { path: b"/library".to_vec(), is_directory: true };
    Catalog::scan(b"library", inspection, &walk_of(entries, boundaries)).unwrap()
}

fn path(written: &str) -> LibraryPath {
    LibraryPath::parse(written).unwrap()
}

fn text(path: &LibraryPath) -> String {
    path.to_text()
}

fn title(catalog: &Catalog, document: &str) -> String {
    catalog.document_by_path(&path(document)).unwrap().title.clone()
}

#[test]
fn empty_git_placeholder_is_not_a_repository_boundary() {
    let catalog = Library::new().directory(".git").write("README.md", "# Loose").scan();

    assert!(catalog.repositories().is_empty());
    assert_eq!(catalog.loose_documents().len(), 1);
}

#[test]
fn git_directory_with_head_is_a_repository_boundary() {
    let catalog = Library::new().git("project").write("project/README.md", "# Project").scan();

    assert_eq!(catalog.repositories().len(), 1);
    assert!(catalog.loose_documents().is_empty());
    assert_eq!(catalog.repositories()[0].root_relative, path("project"));
}

#[test]
fn valid_gitfile_is_a_repository_boundary() {
    let catalog = Library::new()
        .write("admin/worktree/HEAD", "ref: refs/heads/main\n")
        .write("project/.git", "gitdir: ../admin/worktree\n")
        .write("project/README.md", "# Worktree")
        .scan();

    assert_eq!(catalog.repositories().len(), 1);
    assert_eq!(catalog.repositories()[0].root_relative, path("project"));
}

#[test]
fn malformed_gitfile_is_not_a_repository_boundary() {
    let catalog = Library::new()
        .write("project/.git", "not a gitdir pointer\n")
        .write("project/README.md", "# Loose")
        .scan();

    assert!(catalog.repositories().is_empty());
    assert_eq!(catalog.loose_documents().len(), 1);
}

#[test]
fn root_repository_and_nested_repository_form_a_shelf() {
    let catalog = Library::new()
        .git("")
        .git("tools/nested")
        .write("README.md", "# Root")
        .write("tools/nested/README.md", "# Nested")
        .scan();

    assert_eq!(catalog.mode(), CatalogMode::Shelf);
    assert_eq!(catalog.repositories().len(), 2);
    assert_eq!(catalog.landing(), Landing::Shelf);
}

#[test]
fn shelf_groups_nearest_repositories_and_loose_files() {
    let catalog = Library::new()
        .git("work/alpha")
        .git("archive/alpha")
        .write("work/alpha/README.md", "# Current")
        .write("archive/alpha/readme.MD", "# Archived")
        .write("notes/today.md", "# Today")
        .scan();

    assert_eq!(catalog.mode(), CatalogMode::Shelf);
    assert_eq!(catalog.repositories().len(), 2);
    assert_eq!(catalog.loose_documents().len(), 1);
    assert!(catalog.repositories().iter().all(|repo| repo.qualifier.is_some()));
    assert_eq!(catalog.landing(), Landing::Shelf);
    assert_eq!(catalog.repositories()[0].qualifier.as_deref(), Some("archive"));
    assert_eq!(catalog.repositories()[1].qualifier.as_deref(), Some("work"));
    assert_eq!(catalog.collection_count(), 3);
}

#[test]
fn sole_repository_opens_its_readme() {
    let catalog = Library::new()
        .git("project")
        .write("project/guide.md", "# Guide")
        .write("project/README.md", "# Home")
        .scan();
    let Landing::Document(id) = catalog.landing() else {
        panic!("sole repository should open directly");
    };

    assert_eq!(catalog.document(id).unwrap().relative_path, path("project/README.md"));
    assert_eq!(catalog.repositories()[0].documents[0], id);
}

#[test]
fn readme_choice_is_case_insensitive_and_deterministic() {
    let catalog = Library::new()
        .git("")
        .write("guide.md", "# Guide")
        .write("readme.MD", "# Lower")
        .write("README.md", "# Exact")
        .scan();
    let Landing::Document(id) = catalog.landing() else {
        panic!("root repository should open directly");
    };

    assert_eq!(catalog.document(id).unwrap().relative_path, path("README.md"));
}

#[test]
fn hard_excludes_caches_but_keeps_hidden_authoring_directories() {
    let catalog = Library::new()
        .write("target/no.md", "# No")
        .write("node_modules/no.md", "# No")
        .write(".agents/yes.md", "# Yes")
        .scan();

    assert_eq!(catalog.documents().len(), 1);
    assert_eq!(catalog.documents()[0].relative_path, path(".agents/yes.md"));
}

#[test]
fn title_uses_first_heading_and_falls_back_to_stem() {
    let catalog = Library::new()
        .write("setext.md", "A Setext Title\n==============\n")
        .write("plain-note.md", "No heading here.")
        .write("formatted.md", "# **A Quiet** [Book](https://example.com)")
        .scan();

    assert_eq!(title(&catalog, "setext.md"), "A Setext Title");
    assert_eq!(title(&catalog, "plain-note.md"), "plain note");
    assert_eq!(title(&catalog, "formatted.md"), "A Quiet Book");
}

#[test]
fn atx_title_takes_precedence_over_a_setext_underline() {
    let catalog = Library::new().write("precedence.md", "# A##\n===\n").scan();

    assert_eq!(title(&catalog, "precedence.md"), "A");
}

#[test]
fn setext_title_wins_over_a_later_atx_heading() {
    let catalog = Library::new().write("setext-first.md", "Title\n===\n# Other\n").scan();

    assert_eq!(title(&catalog, "setext-first.md"), "Title");
}

#[test]
fn empty_atx_heading_falls_through_to_the_next_candidate() {
    let catalog = Library::new().write("empty-atx.md", "# \nTitle\n===\n").scan();

    assert_eq!(title(&catalog, "empty-atx.md"), "Title");
}

#[test]
fn list_and_quote_markers_in_headings_do_not_become_title_text() {
    let catalog = Library::new()
        .write("numbered.md", "# 1. Introduction\n")
        .write("dash.md", "# - item\n")
        .write("quote.md", "# > note\n")
        .scan();

    assert_eq!(title(&catalog, "numbered.md"), "Introduction");
    assert_eq!(title(&catalog, "dash.md"), "item");
    assert_eq!(title(&catalog, "quote.md"), "note");
}

#[test]
fn entity_reference_in_heading_decodes() {
    let catalog = Library::new().write("entities.md", "# Q&amp;A\n").scan();

    assert_eq!(title(&catalog, "entities.md"), "Q&A");
}

#[test]
fn image_only_first_heading_falls_back_to_the_stem() {
    let catalog = Library::new().write("image-only.md", "# ![](x.png)\n# Real\n").scan();

    assert_eq!(title(&catalog, "image-only.md"), "image only");
}

#[test]
fn title_scan_is_bounded_to_the_first_64_kib() {
    let mut markdown = "ordinary text ".repeat(6_000);
    markdown.push_str("\n# Too Late");
    let catalog = Library::new().write("late-heading.md", &markdown).scan();

    assert_eq!(catalog.documents()[0].title, "late heading");
}

#[test]
fn invalid_utf8_markdown_paths_are_diagnostic_only() {
    let hidden = LibraryPath::from_names(vec![vec![0xff, b'.', b'm', b'd']]).unwrap();
    let entries = vec![WalkEntry::Entry {
        kind: EntryKind::File,
        path: hidden,
        contents: Ok(b"# Hidden".to_vec()),
    }];

    let catalog = scan_entries(entries, &Boundaries::new());

    assert!(catalog.documents().is_empty());
    assert_eq!(catalog.diagnostics().len(), 1);
    assert!(catalog.diagnostics()[0].message.contains("not valid UTF-8"));
    assert_eq!(catalog.diagnostics()[0].path.as_deref(), Some(&b"\xff.md"[..]));
}

#[test]
fn empty_root_is_a_valid_empty_shelf() {
    let catalog = Library::new().scan();

    assert!(catalog.documents().is_empty());
    assert!(catalog.repositories().is_empty());
    assert_eq!(catalog.landing(), Landing::Shelf);
}

#[test]
fn repository_subdirectory_is_one_loose_library() {
    let catalog = Library::new().write("README.md", "# Focused docs").scan();

    assert_eq!(catalog.mode(), CatalogMode::SingleLibrary);
    assert!(catalog.repositories().is_empty());
    assert_eq!(catalog.loose_documents().len(), 1);
    let Landing::Document(id) = catalog.landing() else {
        panic!("one loose library should open directly");
    };
    assert_eq!(catalog.document(id).unwrap().relative_path, path("README.md"));
}

#[test]
fn a_root_that_cannot_be_inspected_is_an_error() {
    let none = Walk::new();
    let unreadable = RootInspection::Unreadable("no such directory".to_owned());
    let error = Catalog::scan(b"gone", unreadable, &none).unwrap_err();
    assert_eq!(
        error,
        ScanError::Inspect { path: b"gone".to_vec(), source: "no such directory".to_owned() }
    );
    assert_eq!(error.message(), "cannot inspect gone: no such directory");

    let file = RootInspection::Found { path: b"/a.md".to_vec(), is_directory: false };
    let error = Catalog::scan(b"a.md", file, &none).unwrap_err();
    assert_eq!(error, ScanError::NotDirectory(b"/a.md".to_vec()));
    assert_eq!(error.message(), "scan root is not a directory: /a.md");
}

#[test]
fn names_that_are_not_utf8_are_shown_with_replacements() {
    let error = ScanError::NotDirectory(vec![b'/', b'a', 0xff]);
    assert_eq!(error.message(), "scan root is not a directory: /a\u{fffd}");
}

#[test]
fn walk_failures_and_unreadable_files_are_diagnostics() {
    let entries = vec![
        WalkEntry::Failure {
            error: WalkError::WithDepth(Box::new(WalkError::WithPath(b"/library/a".to_vec()))),
            message: "denied".to_owned(),
        },
        WalkEntry::Failure { error: WalkError::Other, message: "broken".to_owned() },
        WalkEntry::Entry {
            kind: EntryKind::File,
            path: path("un_readable-page.md"),
            contents: Err("denied".to_owned()),
        },
    ];
    let catalog = scan_entries(entries, &Boundaries::new());

    assert_eq!(catalog.diagnostics().len(), 3);
    assert_eq!(catalog.diagnostics()[0].path.as_deref(), Some(&b"/library/a"[..]));
    assert_eq!(catalog.diagnostics()[0].message, "denied");
    assert_eq!(catalog.diagnostics()[1].path, None);
    assert_eq!(catalog.diagnostics()[2].message, "reading the title failed: denied");
    assert_eq!(catalog.documents()[0].title, "un readable page");
}

#[test]
fn only_markdown_files_are_documents() {
    let entry = |kind, name: &str| WalkEntry::Entry {
        kind,
        path: path(name),
        contents: Ok(Vec::new()),
    };
    let entries = vec![
        entry(EntryKind::Directory, "folder.md"),
        entry(EntryKind::Other, "socket.md"),
        entry(EntryKind::File, "page.txt"),
        entry(EntryKind::File, "page.MarkDown"),
    ];
    let catalog = scan_entries(entries, &Boundaries::new());

    assert_eq!(catalog.documents().len(), 1);
    assert_eq!(catalog.documents()[0].relative_path, path("page.MarkDown"));
    assert!(is_markdown_path(&path("a/b.MD")));
    assert!(!is_markdown_path(&path("a/.md")));
    assert!(is_markdown_entry(EntryKind::File, &path("b.md")));
    assert!(!is_markdown_entry(EntryKind::Directory, &path("b.md")));
}

#[test]
fn the_path_of_a_walk_error_is_the_first_one_in_it() {
    let partial = WalkError::Partial(vec![
        WalkError::Other,
        WalkError::WithLineNumber(Box::new(WalkError::Loop { child: b"b".to_vec() })),
        WalkError::WithPath(b"c".to_vec()),
    ]);
    assert_eq!(ignore_error_path(&partial), Some(b"b".to_vec()));
    assert_eq!(ignore_error_path(&WalkError::Partial(Vec::new())), None);
}

#[test]
fn excluded_directories_are_matched_in_any_case() {
    for name in [".git", "target", "node_modules", ".venv", ".direnv", "vendor", "Target"] {
        assert!(is_hard_excluded(name.as_bytes()), "{name}");
        assert!(!keeps_entry(1, true, name.as_bytes()), "{name}");
        assert!(keeps_entry(1, false, name.as_bytes()), "{name}");
        assert!(keeps_entry(0, true, name.as_bytes()), "{name}");
    }
    assert!(!is_hard_excluded(b"targets"));
}

#[test]
fn git_files_are_read_up_to_a_limit() {
    assert_eq!(
        probe_git_marker(GitMarker::File { bytes: MAX_GITFILE_BYTES }),
        GitProbe::Gitfile
    );
    assert_eq!(
        probe_git_marker(GitMarker::File { bytes: MAX_GITFILE_BYTES + 1 }),
        GitProbe::NoRepository
    );
    assert_eq!(probe_git_marker(GitMarker::Other), GitProbe::NoRepository);
    assert_eq!(probe_git_marker(GitMarker::Absent), GitProbe::NoRepository);
    assert_eq!(parse_gitfile("gitdir: /a/b\r\n").as_deref(), Some("/a/b"));
    assert_eq!(parse_gitfile("gitdir: \n"), None);
    assert_eq!(parse_gitfile("gitdir: a\nb\n"), None);
    assert_eq!(parse_gitfile("gitdir:a"), None);
}

#[test]
fn the_nearest_repository_is_found() {
    let mut boundaries = Boundaries::new();
    let document = path("a/b/c.md");
    let RootSearch::Unknown(first) = nearest_repository_root(&document, &boundaries) else {
        panic!("nothing is known yet");
    };
    assert_eq!(first, path("a/b"));
    boundaries.insert(path("a/b"), false);
    boundaries.insert(path("a"), true);
    boundaries.insert(LibraryPath::empty(), true);
    let RootSearch::Repository(root) = nearest_repository_root(&document, &boundaries) else {
        panic!("the directory above is a repository");
    };
    assert_eq!(root, path("a"));
    boundaries.insert(path("a"), false);
    boundaries.insert(LibraryPath::empty(), false);
    assert!(matches!(nearest_repository_root(&document, &boundaries), RootSearch::Loose));
}

#[test]
fn reading_order_puts_readme_and_index_first() {
    let key = |written: &str| {
        let key = default_document_sort_key(&path(written));
        (key.priority, key.depth, key.text)
    };
    assert_eq!(key("README.md"), (0, 1, "readme.md".to_owned()));
    assert_eq!(key("Readme.markdown"), (1, 1, "readme.markdown".to_owned()));
    assert_eq!(key("index.md"), (2, 1, "index.md".to_owned()));
    assert_eq!(key("INDEX.md"), (3, 1, "index.md".to_owned()));
    assert_eq!(key("docs/README.md"), (4, 2, "docs/readme.md".to_owned()));
    assert_eq!(path_sort_key(&path("Docs/ÄB.md")), "docs/Äb.md");
}

fn document(id: usize, written: &str) -> Document {
    Document { id, relative_path: path(written), title: String::new(), repository: None }
}

#[test]
fn the_default_document_is_the_first_in_reading_order() {
    let documents = [
        document(0, "kit/zeta.md"),
        document(1, "kit/deep/README.md"),
        document(2, "kit/index.md"),
        document(3, "kit/alpha.md"),
    ];
    assert_eq!(choose_default_document(&documents, &[0, 1, 2, 3], &path("kit")), Some(2));
    assert_eq!(choose_default_document(&documents, &[0, 1, 3], &path("kit")), Some(3));
    assert_eq!(choose_default_document(&documents, &[], &path("kit")), None);
}

#[test]
fn repositories_of_one_name_get_their_directory() {
    let repository = |id: usize, root: &str, name: &str| Repository {
        id,
        root_relative: path(root),
        name: name.to_owned(),
        qualifier: None,
        documents: Vec::new(),
        default_document: None,
    };
    let mut repositories = vec![
        repository(0, "Kit", "Kit"),
        repository(1, "a/b/kit", "kit"),
        repository(2, "a/tool", "tool"),
    ];
    qualify_duplicate_repository_names(&mut repositories);
    assert_eq!(repositories[0].qualifier, None);
    assert_eq!(repositories[1].qualifier.as_deref(), Some("a/b"));
    assert_eq!(repositories[2].qualifier, None);
}

#[test]
fn repositories_are_named_by_their_directory() {
    let catalog = Library::new().git("").write("README.md", "# Root").scan();
    assert_eq!(catalog.repositories()[0].name, "library");
    assert_eq!(catalog.root(), b"/library");

    let mut boundaries = Boundaries::new();
    boundaries.insert(LibraryPath::empty(), true);
    let entries = vec![WalkEntry::Entry {
        kind: EntryKind::File,
        path: path("a.md"),
        contents: Ok(Vec::new()),
    }];
    let root = RootInspection::Found { path: b"/".to_vec(), is_directory: true };
    let catalog = Catalog::scan(b"/", root, &walk_of(entries, &boundaries)).unwrap();
    assert_eq!(catalog.repositories()[0].name, "Repository");
}

#[test]
fn copies_are_equal() {
    let catalog = Library::new()
        .git("a/kit")
        .git("b/kit")
        .write("a/kit/x.md", "# X")
        .write("b/kit/y.md", "# Y")
        .write("z.md", "# Z")
        .scan();
    let copy = catalog.clone();
    assert_eq!(copy.documents(), catalog.documents());
    assert_eq!(copy.repositories(), catalog.repositories());
    assert_eq!(copy.loose_documents(), catalog.loose_documents());
    assert_eq!(copy.diagnostics(), catalog.diagnostics());
    assert_eq!((copy.root(), copy.mode()), (catalog.root(), catalog.mode()));
}

#[test]
fn link_targets_resolve_to_documents() {
    let catalog = Library::new()
        .write("guide.md", "")
        .write("both.md", "")
        .write("both.markdown", "")
        .write("Caps.MD", "")
        .write("docs/zeta.md", "")
        .write("docs/index.md", "")
        .scan();
    let target = |written: &str| {
        catalog
            .resolve_document_target(&path(written))
            .map(|document| text(&document.relative_path))
    };

    assert_eq!(target("guide.md").as_deref(), Some("guide.md"));
    assert_eq!(target("guide").as_deref(), Some("guide.md"));
    assert_eq!(target("both").as_deref(), Some("both.md"));
    assert_eq!(target("Caps").as_deref(), Some("Caps.MD"));
    assert_eq!(target("caps"), None);
    assert_eq!(target("docs").as_deref(), Some("docs/index.md"));
    assert_eq!(target("").as_deref(), Some("both.markdown"));
    assert_eq!(target("guide.txt"), None);
}

#[test]
fn the_order_of_the_walk_does_not_matter() {
    let entry = |name: &str| WalkEntry::Entry {
        kind: EntryKind::File,
        path: path(name),
        contents: Ok(Vec::new()),
    };
    let mut boundaries = Boundaries::new();
    boundaries.insert(LibraryPath::empty(), false);
    boundaries.insert(path("kit"), true);
    let first = vec![entry("kit/a.md"), entry("b.md"), entry("kit/README.md")];
    let second = vec![entry("kit/README.md"), entry("kit/a.md"), entry("b.md")];
    let first = scan_entries(first, &boundaries);
    let second = scan_entries(second, &boundaries);
    assert_eq!(first.documents(), second.documents());
    assert_eq!(first.repositories(), second.repositories());
    assert_eq!(first.loose_documents(), second.loose_documents());
    assert_eq!(first.landing(), second.landing());
    assert_eq!(first.loose_default_document().map(|document| document.id), Some(0));
}

#[test]
fn paths_that_differ_in_case_only_keep_the_order_of_the_walk() {
    let entry = |name: &str| WalkEntry::Entry {
        kind: EntryKind::File,
        path: path(name),
        contents: Ok(Vec::new()),
    };
    let catalog = scan_entries(vec![entry("guide.md"), entry("Guide.md")], &Boundaries::new());
    assert_eq!(text(&catalog.documents()[0].relative_path), "guide.md");
    let catalog = scan_entries(vec![entry("Guide.md"), entry("guide.md")], &Boundaries::new());
    assert_eq!(text(&catalog.documents()[0].relative_path), "Guide.md");
}

#[test]
fn documents_are_sorted_and_found_under_their_paths() {
    let catalog = Library::new()
        .write("b.md", "")
        .write("A.md", "")
        .write("c/B.md", "")
        .write("c/a.md", "")
        .write("a.markdown", "")
        .scan();
    let documents = catalog.documents();
    let paths: Vec<String> =
        documents.iter().map(|document| text(&document.relative_path)).collect();
    assert_eq!(paths, ["a.markdown", "A.md", "b.md", "c/a.md", "c/B.md"]);
    for (position, document) in documents.iter().enumerate() {
        assert_eq!(document.id, position);
        let found = catalog.document_by_path(&document.relative_path).unwrap();
        assert_eq!(found.id, position);
        let target = catalog.resolve_document_target(&document.relative_path).unwrap();
        assert_eq!(target.id, position);
    }
}

#[test]
fn the_nearest_of_nested_repositories_wins() {
    let catalog = Library::new()
        .git("a")
        .git("a/b")
        .write("a/x.md", "")
        .write("a/b/y.md", "")
        .write("a/c/z.md", "")
        .write("w.md", "")
        .scan();
    let root = |document: &str| {
        let document = catalog.document_by_path(&path(document)).unwrap();
        document.repository.map(|id| text(&catalog.repositories()[id].root_relative))
    };
    assert_eq!(root("a/x.md").as_deref(), Some("a"));
    assert_eq!(root("a/b/y.md").as_deref(), Some("a/b"));
    assert_eq!(root("a/c/z.md").as_deref(), Some("a"));
    assert_eq!(root("w.md"), None);
}

#[test]
fn the_default_document_does_not_depend_on_the_order_of_the_list() {
    let documents = [document(0, "zeta.md"), document(1, "alpha.md"), document(2, "deep/a.md")];
    for ids in [[0, 1, 2], [2, 1, 0], [1, 2, 0]] {
        assert_eq!(choose_default_document(&documents, &ids, &path("")), Some(1));
    }
}

#[test]
fn a_walk_takes_every_markdown_file_once() {
    let entry = |name: &str| WalkEntry::Entry {
        kind: EntryKind::File,
        path: path(name),
        contents: Ok(Vec::new()),
    };
    let walk = Walk::new();
    assert_eq!(walk.question(&path("a/b.md")), Some(path("a")));
    assert!(walk.with_step(entry("a/b.md")).entries().is_empty());

    let boundaries = Boundaries::new();
    let names = ["a/b.md", "a/b.md", "c.md", "c.md/d.md", "e.txt", "a/b.MD", "f.md/g.md", "f.md"];
    let walk = walk_of(names.iter().map(|name| entry(name)).collect(), &boundaries);
    assert_eq!(walk.entries().len(), 4);
    assert_eq!(walk.question(&path("a/x.md")), None);
    let walk = walk.with_finding(path("a"), true).with_finding(path("z"), true);
    assert_eq!(walk.boundaries().get(&path("a")), Some(false));
    assert_eq!(walk.boundaries().get(&path("z")), Some(true));
    let failure = WalkEntry::Failure { error: WalkError::Other, message: "broken".to_owned() };
    assert_eq!(walk.with_step(failure).entries().len(), 5);
}
