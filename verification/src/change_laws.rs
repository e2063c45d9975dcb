//! What holds of a change at any place of a library.

use vstd::prelude::*;
use vstd::utf8::{decode_utf8, encode_utf8, valid_utf8};
use crate::catalog::{CatalogView, DocumentView};
use crate::discovery::{hard_excluded, markdown_path};
use crate::discovery_laws::{
    extension_of_markdown, law_caches_are_never_entered, law_markdown_is_told_by_its_extension,
    never_entered,
};
use crate::link_laws::law_assets_are_told_by_their_extension;
use crate::markdown::kind_of;
use crate::path_laws::{bytes_first, law_bytes_are_ordered_like_words};
use crate::paths::{above, ordinary, ordinary_name, path_extension, written};
use crate::places::{rest_in, steps};
use crate::places_laws::{
    law_ordinary_paths_have_their_names_as_steps, law_places_of_a_library,
};
use crate::text::text_views;
use crate::watcher::{
    calls_for_scan, changes_of, changes_together, concerns_asset, concerns_document, event_changes,
    git_exclude, ignore_file, inside_hard_excluded, leads_to_document, no_changes, outcome_of,
    tells_of_changes, tells_readers, texts_ascend, ChangeKind, ChangesView, ReloadEvent,
    RescanOutcome, WatchEvent,
};
use crate::word_laws::{
    ascii_bytes, in_any_case, law_names_are_split_at_their_last_dot, law_names_without_extension,
    lemma_ascii_bytes,
};

verus! {

/// Whether a path of an event is a place of the library at `root`.
pub open spec fn touches(event: WatchEvent, i: int, root: Seq<u8>, path: Seq<Seq<u8>>) -> bool {
    &&& 0 <= i < event.paths@.len()
    &&& event.paths@[i].path@ == root + seq![47u8] + written(path)
    &&& root.len() > 0
    &&& root[0] == 47
    &&& ordinary(path)
}

/// Whether a path leads through no directory that is never entered.
pub open spec fn open_to_walks(path: Seq<Seq<u8>>) -> bool {
    forall|i: int| 0 <= i < path.len() ==> !never_entered(#[trigger] path[i])
}

/// A name that is a word of ASCII.
pub open spec fn is_called(name: Seq<u8>, word: Seq<char>) -> bool {
    name == ascii_bytes(word)
}

/// `.git`
pub open spec fn git() -> Seq<char> {
    seq!['.', 'g', 'i', 't']
}

/// Whether a file holds ignore rules, by its name.
pub open spec fn called_ignore(name: Seq<u8>) -> bool {
    is_called(name, seq!['.', 'g', 'i', 't', 'i', 'g', 'n', 'o', 'r', 'e']) || is_called(
        name,
        seq!['.', 'i', 'g', 'n', 'o', 'r', 'e'],
    )
}

/// Whether a path is that of the private ignore rules of a repository.
pub open spec fn called_git_exclude(path: Seq<Seq<u8>>) -> bool {
    let n = path.len();
    &&& n >= 3
    &&& is_called(path[n - 3], git())
    &&& is_called(path[n - 2], seq!['i', 'n', 'f', 'o'])
    &&& is_called(path[n - 1], seq!['e', 'x', 'c', 'l', 'u', 'd', 'e'])
}

proof fn lemma_called(path: Seq<Seq<u8>>)
    ensures
        git_exclude(path) <==> called_git_exclude(path),
        ignore_file(path) <==> path.len() > 0 && called_ignore(path.last()),
        inside_hard_excluded(path) <==> !open_to_walks(path),
        encode_utf8(".git"@) == ascii_bytes(git()),
{
    reveal_strlit(".git");
    reveal_strlit("info");
    reveal_strlit("exclude");
    reveal_strlit(".gitignore");
    reveal_strlit(".ignore");
    lemma_ascii_bytes(".git"@);
    lemma_ascii_bytes("info"@);
    lemma_ascii_bytes("exclude"@);
    lemma_ascii_bytes(".gitignore"@);
    lemma_ascii_bytes(".ignore"@);
    assert(".git"@ =~= git());
    assert("info"@ =~= seq!['i', 'n', 'f', 'o']);
    assert("exclude"@ =~= seq!['e', 'x', 'c', 'l', 'u', 'd', 'e']);
    assert(".gitignore"@ =~= seq!['.', 'g', 'i', 't', 'i', 'g', 'n', 'o', 'r', 'e']);
    assert(".ignore"@ =~= seq!['.', 'i', 'g', 'n', 'o', 'r', 'e']);
    assert forall|i: int| 0 <= i < path.len() implies hard_excluded(#[trigger] path[i])
        == never_entered(path[i]) by {
        law_caches_are_never_entered(path[i]);
    }
    if inside_hard_excluded(path) {
        let i = choose|i: int| 0 <= i < path.len() && hard_excluded(#[trigger] path[i]);
        assert(never_entered(path[i]));
    }
    if !open_to_walks(path) {
        let i = choose|i: int| 0 <= i < path.len() && never_entered(#[trigger] path[i]);
        assert(hard_excluded(path[i]));
    }
}

/// `.git` and a path with it is never entered.
proof fn lemma_git_is_not_open(path: Seq<Seq<u8>>, i: int)
    requires
        0 <= i < path.len(),
        is_called(path[i], git()),
    ensures
        !open_to_walks(path),
{
    let name = path[i];
    assert(in_any_case(name, git())) by {
        assert forall|j: int| 0 <= j < name.len() implies crate::word_laws::either_case(
            #[trigger] name[j],
            git()[j],
        ) by {
            assert(name[j] == git()[j] as u8);
        }
    }
    assert(never_entered(path[i]));
}

// ---------------------------------------------------------------------------
// From one path of an event to what the event changes
// ---------------------------------------------------------------------------

proof fn lemma_rest(event: WatchEvent, i: int, root: Seq<u8>, path: Seq<Seq<u8>>)
    requires
        touches(event, i, root, path),
    ensures
        rest_in(root, event.paths@[i].path@) == Some(written(path)),
        steps(written(path)) == path,
{
    law_places_of_a_library(root, path, path);
    law_ordinary_paths_have_their_names_as_steps(path);
}

proof fn lemma_one_path(root: Seq<u8>, event: WatchEvent, i: int, path: Seq<Seq<u8>>, n: int)
    requires
        touches(event, i, root, path),
        0 <= n <= event.paths@.len(),
    ensures
        ({
            let changes = event_changes(root, event, n);
            let w = written(path);
            &&& i < n && calls_for_scan(event.kind, path, event.paths@[i].is_directory)
                ==> changes.rescan
            &&& i < n && concerns_document(w) ==> changes.documents.contains(decode_utf8(w))
            &&& i < n && concerns_asset(w) ==> changes.assets.contains(decode_utf8(w))
        }),
    decreases n,
{
    if n > 0 {
        lemma_one_path(root, event, i, path, n - 1);
        lemma_rest(event, i, root, path);
    }
}

proof fn lemma_only_path(root: Seq<u8>, event: WatchEvent, path: Seq<Seq<u8>>)
    requires
        touches(event, 0, root, path),
        event.paths@.len() == 1,
        event.kind != ChangeKind::Access,
    ensures
        ({
            let changes = changes_of(root, event);
            let w = written(path);
            let none = Set::<Seq<char>>::empty();
            &&& changes.rescan == calls_for_scan(event.kind, path, event.paths@[0].is_directory)
            &&& changes.documents == (if concerns_document(w) {
                none.insert(decode_utf8(w))
            } else {
                none
            })
            &&& changes.assets == (if concerns_asset(w) {
                none.insert(decode_utf8(w))
            } else {
                none
            })
        }),
{
    lemma_rest(event, 0, root, path);
    reveal_with_fuel(event_changes, 2);
}

// ---------------------------------------------------------------------------
// Documents and assets
// ---------------------------------------------------------------------------

/// What a name with an extension is not.
proof fn lemma_named_file(directory: Seq<Seq<u8>>, stem: Seq<u8>, extension: Seq<u8>)
    requires
        stem.len() > 0,
        forall|i: int| 0 <= i < extension.len() ==> #[trigger] extension[i] != 46,
    ensures
        ({
            let path = directory.push(stem + seq![46u8] + extension);
            &&& path.last() == stem + seq![46u8] + extension
            &&& !called_ignore(path.last())
            &&& !is_called(path.last(), git())
            &&& !called_git_exclude(path)
            &&& path.last() != above() ==> path_extension(path) is Some
        }),
{
    let name = stem + seq![46u8] + extension;
    let path = directory.push(name);
    assert(path.last() == name);
    assert(path[path.len() - 1] == name);
    law_names_are_split_at_their_last_dot(stem, extension);
    let a = ascii_bytes(seq!['.', 'g', 'i', 't', 'i', 'g', 'n', 'o', 'r', 'e']);
    let b = ascii_bytes(seq!['.', 'i', 'g', 'n', 'o', 'r', 'e']);
    let c = ascii_bytes(seq!['e', 'x', 'c', 'l', 'u', 'd', 'e']);
    let d = ascii_bytes(git());
    assert forall|i: int| 1 <= i < a.len() implies #[trigger] a[i] != 46 by {}
    assert forall|i: int| 1 <= i < b.len() implies #[trigger] b[i] != 46 by {}
    assert forall|i: int| 1 <= i < c.len() implies #[trigger] c[i] != 46 by {}
    assert forall|i: int| 1 <= i < d.len() implies #[trigger] d[i] != 46 by {}
    law_names_without_extension(a);
    law_names_without_extension(b);
    law_names_without_extension(c);
    law_names_without_extension(d);
}

/// A change of a Markdown file at any place that is open to walks calls for a scan, and readers are
/// told of its path.
pub proof fn law_changed_markdown_is_told(
    root: Seq<u8>,
    event: WatchEvent,
    i: int,
    directory: Seq<Seq<u8>>,
    stem: Seq<u8>,
    extension: Seq<u8>,
)
    requires
        stem.len() > 0,
        forall|j: int| 0 <= j < extension.len() ==> #[trigger] extension[j] != 46,
        extension_of_markdown(extension),
        event.kind != ChangeKind::Access,
        touches(event, i, root, directory.push(stem + seq![46u8] + extension)),
        open_to_walks(directory.push(stem + seq![46u8] + extension)),
    ensures
        ({
            let path = directory.push(stem + seq![46u8] + extension);
            &&& changes_of(root, event).rescan
            &&& valid_utf8(written(path)) ==> changes_of(root, event).documents.contains(
                decode_utf8(written(path)),
            )
        }),
{
    let path = directory.push(stem + seq![46u8] + extension);
    law_markdown_is_told_by_its_extension(directory, stem, extension);
    lemma_named_file(directory, stem, extension);
    lemma_called(path);
    lemma_rest(event, i, root, path);
    lemma_one_path(root, event, i, path, event.paths@.len() as int);
}

/// A change of an image or a PDF at any place that is open to walks is told to readers by its path.
pub proof fn law_changed_assets_are_told(
    root: Seq<u8>,
    event: WatchEvent,
    i: int,
    directory: Seq<Seq<u8>>,
    stem: Seq<u8>,
    extension: Seq<u8>,
)
    requires
        stem.len() > 0,
        forall|j: int| 0 <= j < extension.len() ==> #[trigger] extension[j] != 46,
        kind_of(directory.push(stem + seq![46u8] + extension)) is Some,
        event.kind != ChangeKind::Access,
        touches(event, i, root, directory.push(stem + seq![46u8] + extension)),
        open_to_walks(directory.push(stem + seq![46u8] + extension)),
        valid_utf8(written(directory.push(stem + seq![46u8] + extension))),
    ensures
        changes_of(root, event).assets.contains(
            decode_utf8(written(directory.push(stem + seq![46u8] + extension))),
        ),
{
    let path = directory.push(stem + seq![46u8] + extension);
    law_markdown_is_told_by_its_extension(directory, stem, extension);
    lemma_assets_are_not_markdown(directory, stem, extension);
    lemma_named_file(directory, stem, extension);
    lemma_called(path);
    lemma_rest(event, i, root, path);
    lemma_one_path(root, event, i, path, event.paths@.len() as int);
}

proof fn lemma_assets_are_not_markdown(
    directory: Seq<Seq<u8>>,
    stem: Seq<u8>,
    extension: Seq<u8>,
)
    requires
        stem.len() > 0,
        forall|j: int| 0 <= j < extension.len() ==> #[trigger] extension[j] != 46,
        kind_of(directory.push(stem + seq![46u8] + extension)) is Some,
    ensures
        !extension_of_markdown(extension),
{
    reveal_strlit("png");
    reveal_strlit("jpg");
    reveal_strlit("jpeg");
    reveal_strlit("gif");
    reveal_strlit("svg");
    reveal_strlit("webp");
    reveal_strlit("avif");
    reveal_strlit("pdf");
    let path = directory.push(stem + seq![46u8] + extension);
    assert(path.last() == stem + seq![46u8] + extension);
    law_names_are_split_at_their_last_dot(stem, extension);
    if stem == seq![46u8] {
        if extension.len() == 0 {
            assert(path.last() =~= above());
        } else {
            let longer = seq![46u8, 46u8];
            assert(longer != seq![46u8]) by {
                assert(longer.len() == 2);
            }
            assert(directory.push(longer + seq![46u8] + extension).last() == longer + seq![46u8]
                + extension);
            law_names_are_split_at_their_last_dot(longer, extension);
            law_assets_are_told_by_their_extension(directory, longer, extension);
            assert((longer + seq![46u8] + extension).len() != above().len());
            assert((stem + seq![46u8] + extension).len() != above().len());
            assert(kind_of(directory.push(longer + seq![46u8] + extension)) == kind_of(path));
        }
    } else {
        law_assets_are_told_by_their_extension(directory, stem, extension);
    }
}

/// Whether what leads to a path is that of a document: UTF-8, open to walks, and the path of a
/// Markdown file.
pub open spec fn document_rest(rest: Seq<u8>) -> bool {
    valid_utf8(rest) && open_to_walks(steps(rest)) && markdown_path(steps(rest))
}

/// Whether what leads to a path is that of an asset: UTF-8, open to walks, and the path of an image
/// or a PDF, not of Markdown.
pub open spec fn asset_rest(rest: Seq<u8>) -> bool {
    valid_utf8(rest) && open_to_walks(steps(rest)) && kind_of(steps(rest)) is Some
        && !markdown_path(steps(rest))
}

/// Readers are told only of what an event touches, of documents and of assets.
pub proof fn law_readers_are_told_of_what_was_touched(
    root: Seq<u8>,
    event: WatchEvent,
    text: Seq<char>,
)
    ensures
        changes_of(root, event).documents.contains(text) ==> exists|i: int|
            0 <= i < event.paths@.len() && (rest_in(root, (#[trigger] event.paths@[i]).path@)
                matches Some(rest) && text == decode_utf8(rest) && document_rest(rest)),
        changes_of(root, event).assets.contains(text) ==> exists|i: int|
            0 <= i < event.paths@.len() && (rest_in(root, (#[trigger] event.paths@[i]).path@)
                matches Some(rest) && text == decode_utf8(rest) && asset_rest(rest)),
{
    lemma_told(root, event, text, event.paths@.len() as int);
}

proof fn lemma_told(root: Seq<u8>, event: WatchEvent, text: Seq<char>, n: int)
    requires
        0 <= n <= event.paths@.len(),
    ensures
        event_changes(root, event, n).documents.contains(text) ==> exists|i: int|
            0 <= i < n && (rest_in(root, (#[trigger] event.paths@[i]).path@) matches Some(rest)
                && text == decode_utf8(rest) && document_rest(rest)),
        event_changes(root, event, n).assets.contains(text) ==> exists|i: int|
            0 <= i < n && (rest_in(root, (#[trigger] event.paths@[i]).path@) matches Some(rest)
                && text == decode_utf8(rest) && asset_rest(rest)),
    decreases n,
{
    if n > 0 {
        lemma_told(root, event, text, n - 1);
        let before = event_changes(root, event, n - 1);
        assert(event.paths@[n - 1] == event.paths@[n - 1]);
        if let Some(rest) = rest_in(root, event.paths@[n - 1].path@) {
            lemma_called(steps(rest));
        }
        if before.documents.contains(text) {
            let i = choose|i: int|
                0 <= i < n - 1 && (rest_in(root, (#[trigger] event.paths@[i]).path@) matches Some(
                    rest,
                ) && text == decode_utf8(rest) && document_rest(rest));
            assert(0 <= i < n);
        }
        if before.assets.contains(text) {
            let i = choose|i: int|
                0 <= i < n - 1 && (rest_in(root, (#[trigger] event.paths@[i]).path@) matches Some(
                    rest,
                ) && text == decode_utf8(rest) && asset_rest(rest));
            assert(0 <= i < n);
        }
    }
}

// ---------------------------------------------------------------------------
// Scans
// ---------------------------------------------------------------------------

/// A change of ignore rules calls for a scan: of a `.gitignore` or an `.ignore` at a place that is
/// open to walks, and of the `info/exclude` of a repository. So does a change of a `.git` itself,
/// wherever it is.
pub proof fn law_changed_rules_and_repositories_are_scanned(
    root: Seq<u8>,
    event: WatchEvent,
    i: int,
    path: Seq<Seq<u8>>,
)
    requires
        touches(event, i, root, path),
        path.len() > 0,
        event.kind != ChangeKind::Access,
        (called_ignore(path.last()) && open_to_walks(path)) || called_git_exclude(path)
            || is_called(path.last(), git()),
    ensures
        changes_of(root, event).rescan,
{
    lemma_called(path);
    if is_called(path.last(), git()) {
        lemma_git_is_not_open(path, path.len() - 1);
    }
    lemma_one_path(root, event, i, path, event.paths@.len() as int);
}

/// A directory that was made or taken away calls for a scan, and so does one that was renamed, or
/// what has no extension by which it is told to be a file; all where walks may come.
pub proof fn law_changed_directories_are_scanned(
    root: Seq<u8>,
    event: WatchEvent,
    i: int,
    path: Seq<Seq<u8>>,
)
    requires
        touches(event, i, root, path),
        path.len() > 0,
        open_to_walks(path),
        event.kind == ChangeKind::Folder || (event.kind == ChangeKind::Rename && (
        event.paths@[i].is_directory || forall|j: int|
            1 <= j < path.last().len() ==> #[trigger] path.last()[j] != 46)),
    ensures
        changes_of(root, event).rescan,
{
    lemma_called(path);
    if event.kind == ChangeKind::Rename && !event.paths@[i].is_directory {
        law_names_without_extension(path.last());
    }
    if called_git_exclude(path) {
        lemma_git_is_not_open(path, path.len() - 3);
    }
    lemma_one_path(root, event, i, path, event.paths@.len() as int);
}

/// A change of any other file calls for no scan, and is not told as that of a document.
pub proof fn law_other_files_call_for_no_scan(
    root: Seq<u8>,
    event: WatchEvent,
    directory: Seq<Seq<u8>>,
    stem: Seq<u8>,
    extension: Seq<u8>,
)
    requires
        stem.len() > 0,
        forall|j: int| 0 <= j < extension.len() ==> #[trigger] extension[j] != 46,
        !extension_of_markdown(extension),
        event.paths@.len() == 1,
        !event.paths@[0].is_directory,
        event.kind == ChangeKind::Other || event.kind == ChangeKind::Rename,
        touches(event, 0, root, directory.push(stem + seq![46u8] + extension)),
    ensures
        !changes_of(root, event).rescan,
        changes_of(root, event).documents == Set::<Seq<char>>::empty(),
        kind_of(directory.push(stem + seq![46u8] + extension)) is None ==> changes_of(
            root,
            event,
        ).assets == Set::<Seq<char>>::empty(),
{
    let path = directory.push(stem + seq![46u8] + extension);
    law_markdown_is_told_by_its_extension(directory, stem, extension);
    lemma_named_file(directory, stem, extension);
    lemma_called(path);
    lemma_rest(event, 0, root, path);
    assert(ordinary_name(path[path.len() - 1]));
    lemma_only_path(root, event, path);
}

/// What happens where walks never come changes nothing, but for a repository itself and its private
/// ignore rules. That something was looked at never does.
pub proof fn law_closed_places_and_looks_change_nothing(
    root: Seq<u8>,
    event: WatchEvent,
    path: Seq<Seq<u8>>,
)
    requires
        event.paths@.len() == 1,
        touches(event, 0, root, path),
    ensures
        !open_to_walks(path) && !called_git_exclude(path) && !is_called(path.last(), git())
            ==> changes_of(root, event) == no_changes(),
        event.kind == ChangeKind::Access ==> changes_of(root, event) == no_changes(),
        !no_changes().rescan,
        no_changes().documents == Set::<Seq<char>>::empty(),
        no_changes().assets == Set::<Seq<char>>::empty(),
{
    lemma_called(path);
    if event.kind != ChangeKind::Access {
        lemma_rest(event, 0, root, path);
        lemma_only_path(root, event, path);
    }
}

// ---------------------------------------------------------------------------
// What becomes of changes
// ---------------------------------------------------------------------------

/// Nothing is lost where changes come together, and nothing is added.
pub proof fn law_changes_come_together(a: ChangesView, b: ChangesView, text: Seq<char>)
    ensures
        ({
            let all = changes_together(a, b);
            &&& all.rescan <==> a.rescan || b.rescan
            &&& all.documents.contains(text) <==> a.documents.contains(text)
                || b.documents.contains(text)
            &&& all.assets.contains(text) <==> a.assets.contains(text) || b.assets.contains(text)
        }),
{
}

/// What an event tells of, in order.
pub open spec fn told_by(event: ReloadEvent) -> Seq<Seq<char>> {
    match event {
        ReloadEvent::Catalog => Seq::empty(),
        ReloadEvent::Documents(texts) => text_views(texts@),
        ReloadEvent::Asset(texts) => text_views(texts@),
    }
}

/// Whether some event tells of a document.
pub open spec fn document_told(events: Seq<ReloadEvent>, text: Seq<char>) -> bool {
    exists|i: int|
        0 <= i < events.len() && (#[trigger] events[i] matches ReloadEvent::Documents(texts)
            && text_views(texts@).contains(text))
}

/// Whether some event tells of an asset.
pub open spec fn asset_told(events: Seq<ReloadEvent>, text: Seq<char>) -> bool {
    exists|i: int|
        0 <= i < events.len() && (#[trigger] events[i] matches ReloadEvent::Asset(texts)
            && text_views(texts@).contains(text))
}

/// Readers are told of every document and every asset that changed, and of no other, unless a scan
/// failed or found another library: then they are told nothing, or that the library changed. Each
/// event tells in order, and of nothing twice.
pub proof fn law_readers_are_told_of_every_change(
    events: Seq<ReloadEvent>,
    changes: ChangesView,
    outcome: RescanOutcome,
    text: Seq<char>,
)
    requires
        tells_readers(events, changes, outcome),
    ensures
        changes.rescan && outcome == RescanOutcome::Failed ==> events.len() == 0,
        changes.rescan && outcome == RescanOutcome::Changed ==> events.len() == 1 && events[0]
            == ReloadEvent::Catalog,
        !changes.rescan || outcome == RescanOutcome::Unchanged ==> {
            &&& document_told(events, text) <==> changes.documents.contains(text)
            &&& asset_told(events, text) <==> changes.assets.contains(text)
            &&& events.len() <= 2
            &&& forall|i: int| 0 <= i < events.len() ==> #[trigger] events[i] != ReloadEvent::Catalog
            &&& forall|i: int, j: int, k: int|
                0 <= i < events.len() && 0 <= j < k < told_by(events[i]).len() ==> bytes_first(
                    encode_utf8(#[trigger] told_by(events[i])[j]),
                    encode_utf8(#[trigger] told_by(events[i])[k]),
                )
        },
{
    if !changes.rescan || outcome == RescanOutcome::Unchanged {
        lemma_told_in_events(events, changes, text);
    }
}

proof fn lemma_told_in_events(events: Seq<ReloadEvent>, changes: ChangesView, text: Seq<char>)
    requires
        tells_of_changes(events, changes),
    ensures
        document_told(events, text) <==> changes.documents.contains(text),
        asset_told(events, text) <==> changes.assets.contains(text),
        events.len() <= 2,
        forall|i: int| 0 <= i < events.len() ==> #[trigger] events[i] != ReloadEvent::Catalog,
        forall|i: int, j: int, k: int|
            0 <= i < events.len() && 0 <= j < k < told_by(events[i]).len() ==> bytes_first(
                encode_utf8(#[trigger] told_by(events[i])[j]),
                encode_utf8(#[trigger] told_by(events[i])[k]),
            ),
{
    let none = Set::<Seq<char>>::empty();
    let documents = changes.documents != none;
    let assets = changes.assets != none;
    let d: int = if documents {
        1
    } else {
        0
    };
    if documents {
        let texts = text_views(events[0]->Documents_0@);
        assert(texts.to_set() == changes.documents);
        assert(texts.contains(text) <==> texts.to_set().contains(text));
    }
    if assets {
        let texts = text_views(events[d]->Asset_0@);
        assert(texts.to_set() == changes.assets);
        assert(texts.contains(text) <==> texts.to_set().contains(text));
    }
    assert(changes.documents.contains(text) ==> documents);
    assert(changes.assets.contains(text) ==> assets);
    assert forall|i: int, j: int, k: int|
        0 <= i < events.len() && 0 <= j < k < told_by(events[i]).len() implies bytes_first(
        encode_utf8(#[trigger] told_by(events[i])[j]),
        encode_utf8(#[trigger] told_by(events[i])[k]),
    ) by {
        let a = told_by(events[i])[j];
        let b = told_by(events[i])[k];
        assert(i == 0 && documents || i == d && assets);
        assert(texts_ascend(told_by(events[i])));
        law_bytes_are_ordered_like_words(encode_utf8(a), encode_utf8(b));
    }
}

/// A library is unchanged exactly where its documents and its repositories are the same, whatever
/// went wrong during the scan.
pub proof fn law_only_documents_and_repositories_count(before: CatalogView, after: CatalogView)
    ensures
        outcome_of(before, after) != RescanOutcome::Failed,
        outcome_of(before, after) == RescanOutcome::Unchanged <==> before.documents
            == after.documents && before.repositories == after.repositories,
        outcome_of(before, CatalogView { diagnostics: after.diagnostics, ..before })
            == RescanOutcome::Unchanged,
        outcome_of(before, after) == outcome_of(after, before),
{
}

/// A directory is on the way to a document exactly where the path of a document goes on from it.
pub proof fn law_directories_on_the_way(documents: Seq<DocumentView>, directory: Seq<Seq<u8>>)
    ensures
        leads_to_document(documents, directory) <==> exists|d: int, rest: Seq<Seq<u8>>|
            0 <= d < documents.len() && rest.len() > 0 && (#[trigger] documents[d]).path
                == #[trigger] (directory + rest),
{
    if leads_to_document(documents, directory) {
        let d = choose|d: int|
            #![trigger documents[d]]
            0 <= d < documents.len() && directory.len() < documents[d].path.len()
                && crate::paths::lies_beneath(documents[d].path, directory);
        let path = documents[d].path;
        let rest = path.skip(directory.len() as int);
        assert(path =~= path.take(directory.len() as int) + rest);
        assert(documents[d].path == directory + rest);
    }
    if exists|d: int, rest: Seq<Seq<u8>>|
        0 <= d < documents.len() && rest.len() > 0 && (#[trigger] documents[d]).path
            == #[trigger] (directory + rest) {
        let (d, rest) = choose|d: int, rest: Seq<Seq<u8>>|
            0 <= d < documents.len() && rest.len() > 0 && (#[trigger] documents[d]).path
                == #[trigger] (directory + rest);
        assert((directory + rest).take(directory.len() as int) =~= directory);
        assert(documents[d].path.len() > directory.len());
    }
}

} // verus!
