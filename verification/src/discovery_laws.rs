//! What holds of what a walk finds, and of what it passes by.

use vstd::prelude::*;
use vstd::utf8::valid_utf8;
use crate::assembly::{
    found_diagnostic, found_diagnostics, found_document, is_catalog_of, repository_of, WalkEntry,
};
use crate::catalog::{CatalogView, DiagnosticView};
use crate::discovery::{
    error_path, first_error_path, git_probe, gitfile_target, hard_excluded, is_line_end, kept_entry,
    markdown_entry, markdown_extension, markdown_path, repository_search, search_up, EntryKind,
    GitMarker, GitProbe, RootSearchView, WalkError,
};
use crate::paths::{above, no_nul, ordinary, written};
use crate::text::{lemma_trimmed_end_is, trimmed_end_of};
use crate::walk::{apart, steps_apart, takes, WalkView};
use crate::word_laws::{
    in_any_case, law_names_are_split_at_their_last_dot, law_names_without_extension,
    law_spelling_ignores_case,
};

verus! {

// ---------------------------------------------------------------------------
// Names
// ---------------------------------------------------------------------------

/// Whether a name is that of a directory which is never entered: a repository's own, a build or
/// dependency cache, or an environment, in any case.
pub open spec fn never_entered(name: Seq<u8>) -> bool {
    ||| in_any_case(name, seq!['.', 'g', 'i', 't'])
    ||| in_any_case(name, seq!['t', 'a', 'r', 'g', 'e', 't'])
    ||| in_any_case(name, seq!['n', 'o', 'd', 'e', '_', 'm', 'o', 'd', 'u', 'l', 'e', 's'])
    ||| in_any_case(name, seq!['.', 'v', 'e', 'n', 'v'])
    ||| in_any_case(name, seq!['.', 'd', 'i', 'r', 'e', 'n', 'v'])
    ||| in_any_case(name, seq!['v', 'e', 'n', 'd', 'o', 'r'])
}

/// The directories that are never entered.
pub proof fn law_caches_are_never_entered(name: Seq<u8>)
    ensures
        hard_excluded(name) <==> never_entered(name),
{
    reveal_strlit(".git");
    reveal_strlit("target");
    reveal_strlit("node_modules");
    reveal_strlit(".venv");
    reveal_strlit(".direnv");
    reveal_strlit("vendor");
    law_spelling_ignores_case(name, ".git"@);
    law_spelling_ignores_case(name, "target"@);
    law_spelling_ignores_case(name, "node_modules"@);
    law_spelling_ignores_case(name, ".venv"@);
    law_spelling_ignores_case(name, ".direnv"@);
    law_spelling_ignores_case(name, "vendor"@);
    assert(".git"@ =~= seq!['.', 'g', 'i', 't']);
    assert("target"@ =~= seq!['t', 'a', 'r', 'g', 'e', 't']);
    assert("node_modules"@ =~= seq!['n', 'o', 'd', 'e', '_', 'm', 'o', 'd', 'u', 'l', 'e', 's']);
    assert(".venv"@ =~= seq!['.', 'v', 'e', 'n', 'v']);
    assert(".direnv"@ =~= seq!['.', 'd', 'i', 'r', 'e', 'n', 'v']);
    assert("vendor"@ =~= seq!['v', 'e', 'n', 'd', 'o', 'r']);
}

/// The walk goes on with the root of the library and with every file, whatever its name, and
/// beneath the root with every directory but those that are never entered.
pub proof fn law_walks_pass_by_caches_alone(depth: nat, is_directory: bool, name: Seq<u8>)
    ensures
        kept_entry(0, is_directory, name),
        kept_entry(depth, false, name),
        depth > 0 ==> (kept_entry(depth, true, name) <==> !never_entered(name)),
{
    law_caches_are_never_entered(name);
}

/// Whether an extension is `md` or `markdown`, in any case.
pub open spec fn extension_of_markdown(extension: Seq<u8>) -> bool {
    in_any_case(extension, seq!['m', 'd']) || in_any_case(
        extension,
        seq!['m', 'a', 'r', 'k', 'd', 'o', 'w', 'n'],
    )
}

proof fn lemma_markdown_extension(extension: Seq<u8>)
    ensures
        markdown_extension(extension) <==> extension_of_markdown(extension),
{
    reveal_strlit("md");
    reveal_strlit("markdown");
    law_spelling_ignores_case(extension, "md"@);
    law_spelling_ignores_case(extension, "markdown"@);
    assert("md"@ =~= seq!['m', 'd']);
    assert("markdown"@ =~= seq!['m', 'a', 'r', 'k', 'd', 'o', 'w', 'n']);
}

/// Markdown is told by what follows the last dot of a name, wherever the file lies; only a file is
/// a document.
pub proof fn law_markdown_is_told_by_its_extension(
    directory: Seq<Seq<u8>>,
    stem: Seq<u8>,
    extension: Seq<u8>,
)
    requires
        stem.len() > 0,
        forall|i: int| 0 <= i < extension.len() ==> #[trigger] extension[i] != 46,
    ensures
        ({
            let path = directory.push(stem + seq![46u8] + extension);
            &&& markdown_path(path) <==> extension_of_markdown(extension)
            &&& markdown_entry(EntryKind::File, path) <==> extension_of_markdown(extension)
            &&& !markdown_entry(EntryKind::Directory, path)
            &&& !markdown_entry(EntryKind::Other, path)
        }),
{
    let name = stem + seq![46u8] + extension;
    let path = directory.push(name);
    assert(path.last() == name);
    law_names_are_split_at_their_last_dot(stem, extension);
    lemma_markdown_extension(extension);
    if name == above() {
        assert(extension.len() == 0);
    }
}

/// A name without a dot, but for one at its beginning, is not that of Markdown.
pub proof fn law_names_without_extension_are_not_markdown(directory: Seq<Seq<u8>>, name: Seq<u8>)
    requires
        forall|i: int| 1 <= i < name.len() ==> #[trigger] name[i] != 46,
    ensures
        !markdown_path(directory.push(name)),
        !markdown_path(Seq::empty()),
{
    assert(directory.push(name).last() == name);
    law_names_without_extension(name);
}

// ---------------------------------------------------------------------------
// Repositories
// ---------------------------------------------------------------------------

/// A directory may be a repository where its `.git` is a directory, or a file of at most 4096
/// bytes; where there is none, or it is anything else, it is not.
pub proof fn law_repositories_are_marked(bytes: u64)
    ensures
        git_probe(GitMarker::Directory) == GitProbe::AdminDirectory,
        bytes <= 4096 ==> git_probe(GitMarker::File { bytes }) == GitProbe::Gitfile,
        bytes > 4096 ==> git_probe(GitMarker::File { bytes }) == GitProbe::NoRepository,
        git_probe(GitMarker::Absent) == GitProbe::NoRepository,
        git_probe(GitMarker::Other) == GitProbe::NoRepository,
{
}

/// Whether text is made of line ends.
pub open spec fn line_ends(text: Seq<char>) -> bool {
    forall|i: int| 0 <= i < text.len() ==> (#[trigger] text[i] == '\r' || text[i] == '\n')
}

/// Whether text is one line, without its end, and not empty.
pub open spec fn one_line(text: Seq<char>) -> bool {
    text.len() > 0 && forall|i: int|
        0 <= i < text.len() ==> #[trigger] text[i] != '\r' && text[i] != '\n'
}

/// The words that a `.git` file begins with.
pub open spec fn gitdir() -> Seq<char> {
    seq!['g', 'i', 't', 'd', 'i', 'r', ':', ' ']
}

/// A `.git` file points to what follows `gitdir: ` on its one line; the line may end.
pub proof fn law_gitfiles_point_to_a_directory(target: Seq<char>, ends: Seq<char>)
    requires
        one_line(target),
        line_ends(ends),
    ensures
        gitfile_target(gitdir() + target + ends) == Some(target),
{
    reveal_strlit("gitdir: ");
    let contents = gitdir() + target + ends;
    assert("gitdir: "@ =~= gitdir());
    assert(contents.take(8) =~= gitdir());
    let rest = contents.skip(8);
    assert(rest =~= target + ends);
    let n = target.len() as int;
    assert forall|i: int| n <= i < rest.len() implies is_line_end()(#[trigger] rest[i]) by {
        assert(rest[i] == ends[i - n]);
    }
    assert(rest[n - 1] == target[n - 1]);
    lemma_trimmed_end_is(rest, is_line_end(), n);
    assert(rest.take(n) =~= target);
}

/// A `.git` file that points to a directory is `gitdir: `, the directory, and line ends.
pub proof fn law_only_gitfiles_point_to_a_directory(contents: Seq<char>)
    ensures
        gitfile_target(contents) matches Some(target) ==> one_line(target) && exists|ends: Seq<char>|
            line_ends(ends) && contents == #[trigger] (gitdir() + target + ends),
{
    reveal_strlit("gitdir: ");
    assert("gitdir: "@ =~= gitdir());
    if let Some(target) = gitfile_target(contents) {
        let rest = contents.skip(8);
        lemma_line_ends_go(rest);
        let n = target.len() as int;
        let ends = rest.skip(n);
        assert(target == rest.take(n));
        assert forall|i: int| 0 <= i < ends.len() implies (#[trigger] ends[i] == '\r' || ends[i]
            == '\n') by {
            assert(is_line_end()(rest[i + n]));
        }
        assert forall|i: int| 0 <= i < target.len() implies #[trigger] target[i] != '\r'
            && target[i] != '\n' by {
            assert(!is_line_end()(target[i]));
        }
        assert(contents.take(8) == gitdir());
        assert(contents =~= gitdir() + target + ends) by {
            assert forall|i: int| 0 <= i < 8 implies contents[i] == gitdir()[i] by {
                assert(contents.take(8)[i] == contents[i]);
            }
        }
    }
}

proof fn lemma_line_ends_go(s: Seq<char>)
    ensures
        ({
            let kept = trimmed_end_of(s, is_line_end());
            &&& kept.len() <= s.len()
            &&& kept == s.take(kept.len() as int)
            &&& forall|i: int| kept.len() <= i < s.len() ==> is_line_end()(#[trigger] s[i])
        }),
    decreases s.len(),
{
    if s.len() > 0 && is_line_end()(s.last()) {
        let before = s.drop_last();
        lemma_line_ends_go(before);
        let n = trimmed_end_of(before, is_line_end()).len() as int;
        assert(before.take(n) =~= s.take(n));
        assert forall|i: int| n <= i < s.len() implies is_line_end()(#[trigger] s[i]) by {
            if i < before.len() {
                assert(s[i] == before[i]);
            }
        }
    } else {
        assert(s.take(s.len() as int) =~= s);
    }
}

// ---------------------------------------------------------------------------
// Findings
// ---------------------------------------------------------------------------

/// A failure is about the path that stands in it, however deep. Where it stands for several, it is
/// about the path of the first that has one.
pub proof fn law_failures_are_about_their_first_path(
    path: Vec<u8>,
    inner: Box<WalkError>,
    several: Vec<WalkError>,
    first: int,
)
    requires
        0 <= first <= several@.len(),
        forall|i: int| 0 <= i < first ==> error_path(#[trigger] several@[i]) is None,
        first < several@.len() ==> error_path(several@[first]) is Some,
    ensures
        error_path(WalkError::WithPath(path)) == Some(path@),
        error_path(WalkError::Loop { child: path }) == Some(path@),
        error_path(WalkError::WithLineNumber(inner)) == error_path(*inner),
        error_path(WalkError::WithDepth(inner)) == error_path(*inner),
        error_path(WalkError::Other) is None,
        error_path(WalkError::Partial(several)) == (if first < several@.len() {
            error_path(several@[first])
        } else {
            None
        }),
{
    lemma_first_path(several@, first);
}

proof fn lemma_first_path(errors: Seq<WalkError>, first: int)
    requires
        0 <= first <= errors.len(),
        forall|i: int| 0 <= i < first ==> error_path(#[trigger] errors[i]) is None,
        first < errors.len() ==> error_path(errors[first]) is Some,
    ensures
        first_error_path(errors) == (if first < errors.len() {
            error_path(errors[first])
        } else {
            None
        }),
    decreases errors.len(),
{
    if errors.len() > 0 && first > 0 {
        assert(error_path(errors[0]) is None);
        let rest = errors.drop_first();
        assert forall|i: int| 0 <= i < first - 1 implies error_path(#[trigger] rest[i]) is None by {
            assert(rest[i] == errors[i + 1]);
        }
        lemma_first_path(rest, first - 1);
    }
}

/// Every Markdown file whose path is UTF-8 is a document under that path, whether it can be read or
/// not, and nothing else is one.
pub proof fn law_markdown_files_are_documents(
    entry: WalkEntry,
    known: Map<Seq<Seq<u8>>, bool>,
)
    ensures
        entry is Failure ==> found_document(entry, known) is None,
        entry matches WalkEntry::Entry { kind, path, contents } ==> match found_document(
            entry,
            known,
        ) {
            Some(found) => kind == EntryKind::File && markdown_path(path@) && valid_utf8(
                written(path@),
            ) && found.path == path@,
            None => kind != EntryKind::File || !markdown_path(path@) || !valid_utf8(
                written(path@),
            ),
        },
{
}

/// A failure of the walk is told as it is. Of a Markdown file it is told that its path is not
/// UTF-8, or else that it could not be read, and why. Of anything else nothing is told.
pub proof fn law_what_goes_wrong_is_told(entry: WalkEntry)
    ensures
        entry matches WalkEntry::Failure { error, message } ==> found_diagnostic(entry) == Some(
            DiagnosticView { path: error_path(error), message: message@ },
        ),
        entry matches WalkEntry::Entry { kind, path, contents } ==> {
            let markdown = kind == EntryKind::File && markdown_path(path@);
            let utf8 = valid_utf8(written(path@));
            &&& !markdown ==> found_diagnostic(entry) is None
            &&& markdown && !utf8 ==> found_diagnostic(entry) == Some(
                DiagnosticView {
                    path: Some(written(path@)),
                    message: "Markdown path is not valid UTF-8"@,
                },
            )
            &&& markdown && utf8 && contents is Ok ==> found_diagnostic(entry) is None
            &&& markdown && utf8 && contents is Err ==> found_diagnostic(entry) == Some(
                DiagnosticView {
                    path: Some(written(path@)),
                    message: "reading the title failed: "@ + contents->Err_0@,
                },
            )
        },
{
}

/// A catalog has the root of its library, and the diagnostics of its walk in the order of the walk:
/// those of its first steps, and then those of the others; each step has at most one.
pub proof fn law_diagnostics_stand_in_the_order_of_the_walk(
    c: CatalogView,
    root: Seq<u8>,
    first: Seq<WalkEntry>,
    others: Seq<WalkEntry>,
    entry: WalkEntry,
    known: Map<Seq<Seq<u8>>, bool>,
)
    requires
        is_catalog_of(c, root, first + others, known),
    ensures
        c.root == root,
        c.diagnostics == found_diagnostics(first) + found_diagnostics(others),
        found_diagnostics(seq![entry]) == (match found_diagnostic(entry) {
            Some(told) => seq![told],
            None => Seq::empty(),
        }),
        found_diagnostics(Seq::empty()).len() == 0,
{
    lemma_diagnostics_in_two(first, others);
    let none = Seq::<WalkEntry>::empty();
    assert(seq![entry].drop_last() =~= none);
    assert(seq![entry].last() == entry);
    assert(found_diagnostics(none) =~= Seq::empty());
    if let Some(told) = found_diagnostic(entry) {
        assert(found_diagnostics(none).push(told) =~= seq![told]);
    }
}

proof fn lemma_diagnostics_in_two(first: Seq<WalkEntry>, others: Seq<WalkEntry>)
    ensures
        found_diagnostics(first + others) == found_diagnostics(first) + found_diagnostics(others),
    decreases others.len(),
{
    let all = first + others;
    if others.len() == 0 {
        assert(all =~= first);
        assert(found_diagnostics(first) + found_diagnostics(others) =~= found_diagnostics(first));
    } else {
        assert(all.last() == others.last());
        assert(all.drop_last() =~= first + others.drop_last());
        lemma_diagnostics_in_two(first, others.drop_last());
        assert(found_diagnostics(all) =~= found_diagnostics(first) + found_diagnostics(others));
    }
}

// ---------------------------------------------------------------------------
// Walks
// ---------------------------------------------------------------------------

/// Where it is known of every directory above a document whether it is a repository, it is known
/// which repository the document belongs to: the nearest, or none. Else the search asks for the
/// nearest directory of which it is not known, unless a nearer one is a repository.
pub proof fn law_searches_ask_for_what_is_not_known(
    document: Seq<Seq<u8>>,
    known: Map<Seq<Seq<u8>>, bool>,
    n: int,
)
    requires
        0 <= n < document.len(),
        forall|k: int|
            n < k < document.len() ==> #[trigger] known.dom().contains(document.take(k))
                && !known[document.take(k)],
    ensures
        !known.dom().contains(document.take(n)) ==> repository_search(document, known)
            == RootSearchView::Unknown(document.take(n)) && repository_of(document, known) is None,
        known.dom().contains(document.take(n)) && known[document.take(n)] ==> repository_search(
            document,
            known,
        ) == RootSearchView::Repository(document.take(n)) && repository_of(document, known) == Some(
            document.take(n),
        ),
        n == 0 && known.dom().contains(document.take(n)) && !known[document.take(n)]
            ==> repository_search(document, known) is Loose && repository_of(document, known) is None,
{
    lemma_search_reaches(document, known, n, document.len() - 1);
    assert(document.drop_last() =~= document.take(document.len() - 1));
}

proof fn lemma_search_reaches(
    document: Seq<Seq<u8>>,
    known: Map<Seq<Seq<u8>>, bool>,
    n: int,
    m: int,
)
    requires
        0 <= n <= m < document.len(),
        forall|k: int|
            n < k < document.len() ==> #[trigger] known.dom().contains(document.take(k))
                && !known[document.take(k)],
    ensures
        search_up(document.take(m), known) == search_up(document.take(n), known),
    decreases m,
{
    if m > n {
        assert(known.dom().contains(document.take(m)));
        assert(document.take(m).drop_last() =~= document.take(m - 1));
        lemma_search_reaches(document, known, n, m - 1);
    }
}

/// A walk takes every failure. It takes a Markdown file with names as files have them, of which it
/// knows every directory above, where it came to nothing at, above or beneath its path before. It
/// takes nothing else, and no file twice.
pub proof fn law_walks_take_what_they_come_to(walk: WalkView, entry: WalkEntry)
    ensures
        entry is Failure ==> takes(walk, entry),
        entry matches WalkEntry::Entry { kind, path, contents } ==> {
            let other = forall|i: int|
                0 <= i < walk.entries.len() ==> (#[trigger] walk.entries[i] matches WalkEntry::Entry {
                    kind: k,
                    path: p,
                    contents: c,
                } ==> apart(p@, path@));
            let known = forall|n: int|
                0 <= n < path@.len() ==> #[trigger] walk.known.dom().contains(path@.take(n));
            &&& kind == EntryKind::File && markdown_path(path@) && ordinary(path@) && no_nul(path@)
                && known && other ==> takes(walk, entry)
            &&& takes(walk, entry) ==> kind == EntryKind::File && markdown_path(path@) && ordinary(
                path@,
            ) && no_nul(path@) && other
        },
{
    if let WalkEntry::Entry { kind, path, contents } = entry {
        if forall|n: int|
            0 <= n < path@.len() ==> #[trigger] walk.known.dom().contains(path@.take(n)) {
            lemma_settled(path@, walk.known, path@.len() - 1);
            assert(path@.drop_last() =~= path@.take(path@.len() - 1));
        }
        if takes(walk, entry) {
            assert forall|i: int| 0 <= i < walk.entries.len() implies (
            #[trigger] walk.entries[i] matches WalkEntry::Entry { kind: k, path: p, contents: c }
                ==> apart(p@, path@)) by {
                assert(steps_apart(walk.entries[i], entry));
            }
        }
        if forall|i: int|
            0 <= i < walk.entries.len() ==> (#[trigger] walk.entries[i] matches WalkEntry::Entry {
                kind: k,
                path: p,
                contents: c,
            } ==> apart(p@, path@)) {
            assert forall|i: int| 0 <= i < walk.entries.len() implies steps_apart(
                #[trigger] walk.entries[i],
                entry,
            ) by {}
        }
    }
}

proof fn lemma_settled(path: Seq<Seq<u8>>, known: Map<Seq<Seq<u8>>, bool>, m: int)
    requires
        m < path.len(),
        forall|n: int| 0 <= n < path.len() ==> #[trigger] known.dom().contains(path.take(n)),
    ensures
        m >= 0 ==> !(search_up(path.take(m), known) is Unknown),
    decreases m,
{
    if m >= 0 {
        assert(known.dom().contains(path.take(m)));
        if m > 0 {
            assert(path.take(m).drop_last() =~= path.take(m - 1));
            lemma_settled(path, known, m - 1);
        }
    }
}

/// Two files are apart where neither path goes on from the other.
pub proof fn law_files_are_apart(a: Seq<Seq<u8>>, rest: Seq<Seq<u8>>, b: Seq<Seq<u8>>, i: int)
    ensures
        !apart(a, a + rest),
        !apart(a + rest, a),
        0 <= i < a.len() && i < b.len() && a[i] != b[i] ==> apart(a, b),
{
    assert((a + rest).take(a.len() as int) =~= a);
    if 0 <= i < a.len() && i < b.len() && a[i] != b[i] {
        if a.len() <= b.len() {
            assert(b.take(a.len() as int)[i] == b[i]);
        }
        if b.len() <= a.len() {
            assert(a.take(b.len() as int)[i] == a[i]);
        }
    }
}

} // verus!
