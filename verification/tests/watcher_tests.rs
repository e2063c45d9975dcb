use mdfolio::assembly::{RootInspection, WalkEntry};
use mdfolio::catalog::Catalog;
use mdfolio::discovery::{Boundaries, EntryKind};
use mdfolio::paths::LibraryPath;
use mdfolio::watcher::{
    classify_event, is_git_exclude, is_ignore_file, is_inside_hard_excluded, is_markdown,
    reconcile_watches, reload_events, rescan_outcome, ChangeKind, ChangedPath, PendingChanges,
    ReloadEvent, RescanOutcome, TextSet, WatchEvent,
};
use mdfolio::walk::Walk;

const ROOT: &[u8] = b"/library";

fn event(kind: ChangeKind, path: &str) -> WatchEvent {
    WatchEvent {
        kind,
        paths: vec![ChangedPath {
            path: format!("/library/{path}").into_bytes(),
            is_directory: false,
        }],
    }
}

fn path(written: &str) -> LibraryPath {
    LibraryPath::parse(written).unwrap()
}

fn walk_of(entries: Vec<WalkEntry>, boundaries: &Boundaries) -> Walk {
    let mut walk = Walk::new();
    for entry in entries {
        if let WalkEntry::Entry { path, .. } = &entry {
            while let Some(directory) = walk.question(path) {
                let is_repository = boundaries.get(&directory).unwrap_or(false);
                walk = walk.with_finding(directory, is_repository);
            }
        }
        walk = walk.with_step(entry);
    }
    walk
}

#[test]
fn ignores_source_build_and_git_internal_activity() {
    for (kind, path) in [
        (ChangeKind::Other, "src/main.rs"),
        (ChangeKind::Rename, "src/main.rs"),
        (ChangeKind::Other, "target/debug/build.log"),
        (ChangeKind::Other, ".git/index"),
    ] {
        let changes = classify_event(ROOT, &event(kind, path));
        assert!(!changes.rescan, "{path}");
        assert!(changes.documents.is_empty(), "{path}");
        assert!(changes.assets.is_empty(), "{path}");
    }
}

#[test]
fn markdown_ignore_and_directory_events_request_rescan() {
    for (kind, path) in [
        (ChangeKind::Other, "notes/today.md"),
        (ChangeKind::Other, ".gitignore"),
        (ChangeKind::Folder, "new-section"),
    ] {
        assert!(classify_event(ROOT, &event(kind, path)).rescan, "{path}");
    }
}

#[test]
fn assets_are_targeted_without_catalog_rescan() {
    let changes = classify_event(ROOT, &event(ChangeKind::Other, "images/cover.png"));

    assert!(!changes.rescan);
    assert_eq!(changes.assets.items(), ["images/cover.png"]);
}

#[test]
fn an_actual_markdown_save_notifies_the_reader() {
    let changes = classify_event(ROOT, &event(ChangeKind::Other, "README.md"));
    let events = reload_events(changes, RescanOutcome::Unchanged);

    assert_eq!(events, [ReloadEvent::Documents(vec!["README.md".to_owned()])]);
}

#[test]
fn failed_rescan_preserves_catalog_and_emits_nothing() {
    let entries = vec![WalkEntry::Entry {
        kind: EntryKind::File,
        path: path("README.md"),
        contents: Ok(b"# Still here".to_vec()),
    }];
    let found = RootInspection::Found { path: ROOT.to_vec(), is_directory: true };
    let catalog = Catalog::scan(ROOT, found, &walk_of(entries, &Boundaries::new())).unwrap();

    let missing = RootInspection::Unreadable("no such directory".to_owned());
    let result = Catalog::scan(b"missing", missing, &Walk::new());
    assert!(result.is_err());
    assert!(catalog.document_by_path(&path("README.md")).is_some());

    let changes = classify_event(ROOT, &event(ChangeKind::Other, "README.md"));
    assert!(reload_events(changes, RescanOutcome::Failed).is_empty());
}

#[test]
fn a_changed_library_is_told_of_as_a_whole() {
    let changes = classify_event(ROOT, &event(ChangeKind::Other, "README.md"));
    assert_eq!(reload_events(changes, RescanOutcome::Changed), [ReloadEvent::Catalog]);
    let changes = classify_event(ROOT, &event(ChangeKind::Other, "a.png"));
    assert_eq!(
        reload_events(changes, RescanOutcome::Failed),
        [ReloadEvent::Asset(vec!["a.png".to_owned()])]
    );
    assert!(reload_events(PendingChanges::none(), RescanOutcome::Unchanged).is_empty());
}

#[test]
fn what_is_only_looked_at_changes_nothing() {
    assert!(classify_event(ROOT, &event(ChangeKind::Access, "README.md")).is_empty());
}

#[test]
fn renames_may_move_directories() {
    assert!(classify_event(ROOT, &event(ChangeKind::Rename, "section")).rescan);
    assert!(!classify_event(ROOT, &event(ChangeKind::Rename, "a.png")).rescan);
    let mut moved = event(ChangeKind::Rename, "section.d");
    assert!(!classify_event(ROOT, &moved).rescan);
    moved.paths[0].is_directory = true;
    assert!(classify_event(ROOT, &moved).rescan);
}

#[test]
fn repositories_and_their_ignore_rules_count_inside_excluded_directories() {
    assert!(classify_event(ROOT, &event(ChangeKind::Other, "kit/.git")).rescan);
    assert!(classify_event(ROOT, &event(ChangeKind::Other, "kit/.git/info/exclude")).rescan);
    assert!(!classify_event(ROOT, &event(ChangeKind::Folder, "target/new")).rescan);
    assert!(classify_event(ROOT, &event(ChangeKind::Other, "vendor/a.md")).is_empty());
    assert!(is_git_exclude(b".git/info/exclude"));
    assert!(!is_git_exclude(b"info/exclude"));
    assert!(is_inside_hard_excluded(b"a/Target/b"));
    assert!(!is_inside_hard_excluded(b"a/b"));
    assert!(is_ignore_file(b"a/.ignore"));
    assert!(!is_ignore_file(b"a/.IGNORE"));
    assert!(is_markdown(b"a.MD"));
}

#[test]
fn changed_paths_are_told_of_as_they_are_written() {
    let documents = |path: &str| {
        let changes = classify_event(ROOT, &event(ChangeKind::Other, path));
        assert!(changes.rescan, "{path}");
        changes.documents.into_items()
    };
    assert_eq!(documents("notes//today.md"), ["notes//today.md"]);
    assert_eq!(documents("./notes/./today.md/"), ["notes/./today.md"]);
    assert_eq!(documents("../x.md"), ["../x.md"]);
    assert_eq!(documents("a/../b.md"), ["a/../b.md"]);
    let assets = classify_event(ROOT, &event(ChangeKind::Other, "a//b.png")).assets;
    assert_eq!(assets.items(), ["a//b.png"]);
    assert!(classify_event(ROOT, &event(ChangeKind::Rename, "a.md/..")).rescan);
    assert!(classify_event(ROOT, &event(ChangeKind::Other, "a.md/..")).is_empty());
    assert!(!is_markdown(b"a.md/.."));
    assert!(is_markdown(b"../a.md/."));
    assert!(is_git_exclude(b"/a//.git/./info/exclude/"));
}

#[test]
fn changes_outside_the_library_do_not_count() {
    let outside = WatchEvent {
        kind: ChangeKind::Other,
        paths: vec![ChangedPath { path: b"/elsewhere/a.md".to_vec(), is_directory: false }],
    };
    assert!(classify_event(ROOT, &outside).is_empty());
}

#[test]
fn changes_are_merged_and_told_in_order() {
    let first = classify_event(ROOT, &event(ChangeKind::Other, "b.png"));
    let second = classify_event(ROOT, &event(ChangeKind::Other, "a.png"));
    let third = classify_event(ROOT, &event(ChangeKind::Other, "b.png"));
    let page = classify_event(ROOT, &event(ChangeKind::Other, "c.md"));
    let merged = first.merged(&second).merged(&third).merged(&page);
    assert!(merged.rescan);
    assert_eq!(merged.assets.items(), ["a.png", "b.png"]);
    assert_eq!(
        reload_events(merged, RescanOutcome::Unchanged),
        [
            ReloadEvent::Documents(vec!["c.md".to_owned()]),
            ReloadEvent::Asset(vec!["a.png".to_owned(), "b.png".to_owned()]),
        ]
    );
}

#[test]
fn sets_of_text_are_sorted_and_hold_nothing_twice() {
    let mut set = TextSet::new();
    for text in ["b", "é", "a", "b", "", "ab", "z", "a"] {
        set = set.with(text.to_owned());
    }
    assert_eq!(set.items(), ["", "a", "ab", "b", "z", "é"]);
    assert_eq!(set.into_items().len(), 6);
}

#[test]
fn watches_are_reconciled() {
    let watched = [path(""), path("a"), path("b")];
    let desired = [path(""), path("b"), path("c")];
    let plan = reconcile_watches(&watched, &desired);
    assert_eq!(plan.kept, [path(""), path("b")]);
    assert_eq!(plan.removed, [path("a")]);
    assert_eq!(plan.added, [path("c")]);
}

#[test]
fn nothing_is_watched_twice() {
    let watched = [path("")];
    let desired = [path("b"), path(""), path("a"), path("b"), path("a")];
    let plan = reconcile_watches(&watched, &desired);
    assert_eq!(plan.kept, [path("")]);
    assert!(plan.removed.is_empty());
    assert_eq!(plan.added, [path("b"), path("a")]);
}

fn scan(files: &[(&str, &str)], repositories: &[&str]) -> Catalog {
    let mut boundaries = Boundaries::new();
    for root in repositories {
        boundaries.insert(path(root), true);
    }
    let mut entries = Vec::new();
    for (name, contents) in files {
        entries.push(WalkEntry::Entry {
            kind: EntryKind::File,
            path: path(name),
            contents: Ok(contents.as_bytes().to_vec()),
        });
    }
    let found = RootInspection::Found { path: ROOT.to_vec(), is_directory: true };
    Catalog::scan(ROOT, found, &walk_of(entries, &boundaries)).unwrap()
}

#[test]
fn the_way_to_every_document_is_watched() {
    let watched = |names: &[&str]| {
        let files: Vec<(&str, &str)> = names.iter().map(|name| (*name, "")).collect();
        scan(&files, &[]).watch_directories()
    };
    assert_eq!(watched(&[]), [path("")]);
    assert_eq!(watched(&["README.md"]), [path("")]);
    assert_eq!(
        watched(&["b/c/d.md", "b/e.md", "a/f.md", "g.md", "b/c/h.md", "i/j.png"]),
        [path(""), path("a"), path("b"), path("b/c")]
    );
}

#[test]
fn scans_are_told_apart_by_documents_and_repositories() {
    let before = scan(&[("a.md", "# A\n\nold"), ("kit/b.md", "")], &["kit"]);
    let outcome = |files: &[(&str, &str)], repositories: &[&str]| {
        rescan_outcome(&before, &scan(files, repositories))
    };
    let unchanged = RescanOutcome::Unchanged;
    let changed = RescanOutcome::Changed;
    assert_eq!(outcome(&[("a.md", "# A\n\nnew"), ("kit/b.md", "")], &["kit"]), unchanged);
    assert_eq!(outcome(&[("a.md", "# B"), ("kit/b.md", "")], &["kit"]), changed);
    assert_eq!(outcome(&[("a.md", "# A"), ("kit/c.md", "")], &["kit"]), changed);
    assert_eq!(outcome(&[("a.md", "# A")], &["kit"]), changed);
    assert_eq!(outcome(&[("a.md", "# A"), ("kit/b.md", "")], &[]), changed);
    assert_eq!(outcome(&[("a.md", "# A"), ("kit/b.md", "")], &["", "kit"]), changed);
}
