//! What holds of every change in the file system.

use vstd::prelude::*;
use vstd::utf8::encode_utf8;
use crate::places::{rest_in, steps};
use crate::watcher::{
    calls_for_scan, changes_of, concerns_asset, event_changes, git_exclude, inside_hard_excluded,
    new_paths, no_changes, ChangeKind, WatchEvent,
};

verus! {

/// A change of a document always calls for a scan: its title or its place may have changed.
pub proof fn law_changed_documents_are_scanned(root: Seq<u8>, event: WatchEvent)
    ensures
        changes_of(root, event).documents != Set::<Seq<char>>::empty() ==> changes_of(
            root,
            event,
        ).rescan,
{
    lemma_documents_rescan(root, event, event.paths@.len() as int);
}

proof fn lemma_documents_rescan(root: Seq<u8>, event: WatchEvent, n: int)
    ensures
        event_changes(root, event, n).documents == Set::<Seq<char>>::empty() || event_changes(
            root,
            event,
            n,
        ).rescan,
    decreases n,
{
    if n > 0 {
        lemma_documents_rescan(root, event, n - 1);
    }
}

/// A change of images and attachments alone calls for no scan, and readers are told of it.
pub proof fn law_assets_are_told_of_without_a_scan(root: Seq<u8>, event: WatchEvent)
    requires
        event.kind == ChangeKind::Other,
        forall|i: int|
            0 <= i < event.paths@.len() ==> (rest_in(root, (#[trigger] event.paths@[i]).path@)
                matches Some(rest) && concerns_asset(rest)),
    ensures
        !changes_of(root, event).rescan,
        changes_of(root, event).documents == Set::<Seq<char>>::empty(),
        event.paths@.len() > 0 ==> changes_of(root, event).assets != Set::<Seq<char>>::empty(),
{
    lemma_assets_alone(root, event, event.paths@.len() as int);
}

proof fn lemma_assets_alone(root: Seq<u8>, event: WatchEvent, n: int)
    requires
        0 <= n <= event.paths@.len(),
        event.kind == ChangeKind::Other,
        forall|i: int|
            0 <= i < event.paths@.len() ==> (rest_in(root, (#[trigger] event.paths@[i]).path@)
                matches Some(rest) && concerns_asset(rest)),
    ensures
        !event_changes(root, event, n).rescan,
        event_changes(root, event, n).documents == Set::<Seq<char>>::empty(),
        n > 0 ==> event_changes(root, event, n).assets != Set::<Seq<char>>::empty(),
    decreases n,
{
    if n > 0 {
        lemma_assets_alone(root, event, n - 1);
        let rest = rest_in(root, event.paths@[n - 1].path@)->0;
        let text = vstd::utf8::decode_utf8(rest);
        assert(event_changes(root, event, n).assets.contains(text));
    }
}

/// What happens outside the library, or in a directory that is never entered, changes nothing,
/// as long as neither a repository appears or vanishes nor its private ignore rules change.
pub proof fn law_excluded_directories_are_silent(root: Seq<u8>, event: WatchEvent)
    requires
        forall|i: int|
            0 <= i < event.paths@.len() ==> (rest_in(root, (#[trigger] event.paths@[i]).path@)
                matches Some(rest) ==> inside_hard_excluded(steps(rest)) && !git_exclude(
                steps(rest),
            ) && steps(rest).last() != encode_utf8(".git"@)),
    ensures
        changes_of(root, event) == no_changes(),
{
    lemma_silent(root, event, event.paths@.len() as int);
}

proof fn lemma_silent(root: Seq<u8>, event: WatchEvent, n: int)
    requires
        n <= event.paths@.len(),
        forall|i: int|
            0 <= i < event.paths@.len() ==> (rest_in(root, (#[trigger] event.paths@[i]).path@)
                matches Some(rest) ==> inside_hard_excluded(steps(rest)) && !git_exclude(
                steps(rest),
            ) && steps(rest).last() != encode_utf8(".git"@)),
    ensures
        event_changes(root, event, n) == no_changes(),
    decreases n,
{
    if n > 0 {
        lemma_silent(root, event, n - 1);
        assert(event.paths@[n - 1] == event.paths@[n - 1]);
        if let Some(rest) = rest_in(root, event.paths@[n - 1].path@) {
            assert(!calls_for_scan(event.kind, steps(rest), event.paths@[n - 1].is_directory));
        }
    }
}

/// When the plan is carried out, exactly the desired directories are watched: a directory is kept
/// or added if and only if it is desired, and every other is removed. Nothing is added twice, nor
/// is anything kept twice that was watched once.
pub proof fn law_plans_watch_what_is_desired(
    watched: Seq<Seq<Seq<u8>>>,
    desired: Seq<Seq<Seq<u8>>>,
    path: Seq<Seq<u8>>,
)
    ensures
        ({
            let kept = watched.filter(|p: Seq<Seq<u8>>| desired.contains(p) == true);
            let removed = watched.filter(|p: Seq<Seq<u8>>| desired.contains(p) == false);
            let added = new_paths(watched, desired);
            &&& kept.contains(path) || added.contains(path) <==> desired.contains(path)
            &&& removed.contains(path) <==> watched.contains(path) && !desired.contains(path)
            &&& !(kept.contains(path) && added.contains(path))
            &&& added.no_duplicates()
            &&& watched.no_duplicates() ==> kept.no_duplicates() && removed.no_duplicates()
        }),
{
    lemma_filter_contains(watched, |p: Seq<Seq<u8>>| desired.contains(p) == true, path);
    lemma_filter_contains(watched, |p: Seq<Seq<u8>>| desired.contains(p) == false, path);
    lemma_filter_once(watched, |p: Seq<Seq<u8>>| desired.contains(p) == true);
    lemma_filter_once(watched, |p: Seq<Seq<u8>>| desired.contains(p) == false);
    lemma_new_paths(watched, desired, path);
}

proof fn lemma_new_paths(
    watched: Seq<Seq<Seq<u8>>>,
    desired: Seq<Seq<Seq<u8>>>,
    path: Seq<Seq<u8>>,
)
    ensures
        new_paths(watched, desired).contains(path) <==> desired.contains(path)
            && !watched.contains(path),
        new_paths(watched, desired).no_duplicates(),
    decreases desired.len(),
{
    if desired.len() > 0 {
        let before = new_paths(watched, desired.drop_last());
        lemma_new_paths(watched, desired.drop_last(), path);
        assert(desired =~= desired.drop_last().push(desired.last()));
        lemma_push_contains(desired.drop_last(), desired.last(), path);
        lemma_push_contains(before, desired.last(), path);
    }
}

proof fn lemma_push_contains(paths: Seq<Seq<Seq<u8>>>, last: Seq<Seq<u8>>, path: Seq<Seq<u8>>)
    ensures
        paths.push(last).contains(path) <==> paths.contains(path) || path == last,
{
    let all = paths.push(last);
    assert(all[paths.len() as int] == last);
    if paths.contains(path) {
        let k = choose|k: int| 0 <= k < paths.len() && paths[k] == path;
        assert(all[k] == path);
    }
    if all.contains(path) {
        let k = choose|k: int| 0 <= k < all.len() && all[k] == path;
        if k < paths.len() {
            assert(paths[k] == path);
        }
    }
}

proof fn lemma_filter_once(paths: Seq<Seq<Seq<u8>>>, pred: spec_fn(Seq<Seq<u8>>) -> bool)
    ensures
        paths.no_duplicates() ==> paths.filter(pred).no_duplicates(),
    decreases paths.len(),
{
    reveal(Seq::filter);
    if paths.len() > 0 && paths.no_duplicates() {
        let before = paths.drop_last();
        lemma_filter_once(before, pred);
        lemma_filter_contains(before, pred, paths.last());
        if before.contains(paths.last()) {
            let k = choose|k: int| 0 <= k < before.len() && before[k] == paths.last();
            assert(paths[k] == paths[paths.len() - 1]);
        }
    }
}

proof fn lemma_filter_contains(
    paths: Seq<Seq<Seq<u8>>>,
    pred: spec_fn(Seq<Seq<u8>>) -> bool,
    path: Seq<Seq<u8>>,
)
    ensures
        paths.filter(pred).contains(path) <==> paths.contains(path) && pred(path),
    decreases paths.len(),
{
    reveal(Seq::filter);
    if paths.len() > 0 {
        let before = paths.drop_last();
        lemma_filter_contains(before, pred, path);
        assert(paths =~= before.push(paths.last()));
        lemma_push_contains(before, paths.last(), path);
        lemma_push_contains(before.filter(pred), paths.last(), path);
    }
}

} // verus!
